//! The texts the app shows: lists, names, states, themes and messages.
//!
//! Each `Display*` type gives its text through a `to_string` method.
use vstd::prelude::*;
use crate::files::{file_name_from_str, file_name_from_str_spec, omit_off_state, omit_off_state_spec, strings_view};
use crate::text::{decimal, replace_char, replace_char_spec, usize_to_string};
use crate::utils::ini::parser::{LoadOrder, RegMod, SplitFiles};
use crate::ANTI_CHEAT_EXE;

verus! {

pub const TECHIE_W_MSG: &'static str = "Could not find Elden Mod Loader Script!\nThis tool requires 'Elden Mod Loader' by TechieW to be installed!";

pub const TUTORIAL_MSG: &'static str = "Add mods to the app by entering a name and selecting mod files with \"Select Files\"\n\nYou can always add more files to a mod or de-register a mod at any time from within the app\n\nDo not forget to disable easy anti-cheat before playing with mods installed!";

/// Something shown as one item of a list.
pub trait DisplayItem {
    /// The text of the item.
    spec fn item_text(&self) -> Seq<char>;

    /// the text of the item followed by `add`
    fn display_item(&self, add: &str) -> (r: String)
        ensures
            r@ == self.item_text() + add@;
}

impl DisplayItem for String {
    open spec fn item_text(&self) -> Seq<char> {
        self@
    }

    fn display_item(&self, add: &str) -> (r: String) {
        let mut r = self.clone();
        r.append(add);
        r
    }
}

impl<'a> DisplayItem for &'a str {
    open spec fn item_text(&self) -> Seq<char> {
        (*self)@
    }

    fn display_item(&self, add: &str) -> (r: String) {
        let mut r = (*self).to_owned();
        r.append(add);
        r
    }
}

impl DisplayItem for usize {
    open spec fn item_text(&self) -> Seq<char> {
        decimal(*self as nat)
    }

    fn display_item(&self, add: &str) -> (r: String) {
        let mut r = usize_to_string(*self);
        r.append(add);
        r
    }
}

/// The text of a list: its only item, or `[a, b, ..]`.
pub open spec fn list_text(items: Seq<Seq<char>>) -> Seq<char> {
    if items.len() == 1 {
        items[0]
    } else {
        seq!['['] + list_body(items)
    }
}

/// The items written with `, ` after each but the last, which gets `]`.
pub open spec fn list_body(items: Seq<Seq<char>>) -> Seq<char>
    decreases items.len(),
{
    if items.len() == 0 {
        Seq::empty()
    } else if items.len() == 1 {
        items[0] + seq![']']
    } else {
        items[0] + seq![',', ' '] + list_body(items.drop_first())
    }
}

pub open spec fn item_texts<D: DisplayItem>(v: Seq<D>) -> Seq<Seq<char>> {
    v.map_values(|d: D| d.item_text())
}

proof fn lemma_list_body_split(items: Seq<Seq<char>>, i: int)
    requires
        0 <= i < items.len(),
    ensures
        list_body(items) == list_prefix(items, i) + list_body(items.subrange(i, items.len() as int)),
    decreases i,
{
    if i > 0 {
        lemma_list_body_split(items.drop_first(), i - 1);
        assert(items.drop_first().subrange(i - 1, items.len() - 1) =~= items.subrange(i, items.len() as int));
        assert(list_prefix(items, i) == items[0] + seq![',', ' '] + list_prefix(items.drop_first(), i - 1));
    } else {
        assert(items.subrange(0, items.len() as int) =~= items);
        assert(list_prefix(items, 0) =~= Seq::<char>::empty());
    }
}

/// The first `i` items, each followed by `, `.
pub open spec fn list_prefix(items: Seq<Seq<char>>, i: int) -> Seq<char>
    decreases i,
{
    if i <= 0 || items.len() == 0 {
        Seq::empty()
    } else {
        items[0] + seq![',', ' '] + list_prefix(items.drop_first(), i - 1)
    }
}

proof fn lemma_list_prefix_step(items: Seq<Seq<char>>, i: int)
    requires
        0 <= i < items.len(),
    ensures
        list_prefix(items, i + 1) == list_prefix(items, i) + items[i] + seq![',', ' '],
    decreases i,
{
    let df = items.drop_first();
    let sep = seq![',', ' '];
    if i > 0 {
        lemma_list_prefix_step(df, i - 1);
        assert(df[i - 1] == items[i]);
        assert(list_prefix(items, i + 1) == items[0] + sep + list_prefix(df, i));
        assert(list_prefix(items, i) == items[0] + sep + list_prefix(df, i - 1));
        assert(items[0] + sep + (list_prefix(df, i - 1) + df[i - 1] + sep) =~= (items[0] + sep
            + list_prefix(df, i - 1)) + items[i] + sep);
    } else {
        assert(list_prefix(df, 0) =~= Seq::<char>::empty());
        assert(list_prefix(items, 1) == items[0] + sep + list_prefix(df, 0));
        assert(list_prefix(items, 1) =~= list_prefix(items, 0) + items[0] + sep);
    }
}

pub struct DisplayVec<'a, D: DisplayItem>(pub &'a [D]);

impl<'a, D: DisplayItem> DisplayVec<'a, D> {
    /// the items as a list: `a`, or `[a, b, ..]`
    pub fn to_string(&self) -> (r: String)
        requires
            self.0@.len() > 0,
        ensures
            r@ == list_text(item_texts(self.0@)),
    {
        let v = self.0;
        let ghost items = item_texts(v@);
        if v.len() == 1 {
            let r = v[0].display_item("");
            proof {
                reveal_strlit("");
                assert(r@ =~= items[0]);
            }
            return r;
        }
        let mut r = "[".to_owned();
        let last_i = v.len() - 1;
        let mut i: usize = 0;
        proof {
            reveal_strlit("[");
            reveal_strlit(", ");
            reveal_strlit("]");
            assert(r@ =~= seq!['['] + list_prefix(items, 0));
        }
        while i < last_i
            invariant
                v@.len() > 1,
                last_i == v@.len() - 1,
                i <= last_i,
                items == item_texts(v@),
                r@ == seq!['['] + list_prefix(items, i as int),
            decreases last_i - i,
        {
            let s = v[i].display_item(", ");
            r.append(s.as_str());
            proof {
                reveal_strlit(", ");
                lemma_list_prefix_step(items, i as int);
                assert(r@ =~= seq!['['] + list_prefix(items, i + 1));
            }
            i = i + 1;
        }
        let s = v[last_i].display_item("]");
        r.append(s.as_str());
        proof {
            lemma_list_body_split(items, last_i as int);
            let tail = items.subrange(last_i as int, items.len() as int);
            assert(tail.len() == 1);
            assert(list_body(tail) =~= items[last_i as int] + seq![']']);
            assert(r@ =~= seq!['['] + list_body(items));
        }
        r
    }
}

pub struct DisplayStrs(pub Vec<String>);

impl DisplayStrs {
    /// the strings as a list: `a`, or `[a, b, ..]`
    pub fn to_string(&self) -> (r: String)
        requires
            self.0@.len() > 0,
        ensures
            r@ == list_text(item_texts(self.0@)),
    {
        DisplayVec(self.0.as_slice()).to_string()
    }
}

/// The text of the items at `indices`: one item alone, else `[..]` where every
/// index equal to the last one closes with `]` and every other one is followed by `, `.
pub open spec fn indices_body<D: DisplayItem>(indices: Seq<usize>, items: Seq<D>, last: usize) -> Seq<char>
    decreases indices.len(),
{
    if indices.len() == 0 {
        Seq::empty()
    } else {
        let e = indices[0];
        let t = items[e as int].item_text();
        (if e != last { t + seq![',', ' '] } else { t + seq![']'] }) + indices_body(indices.drop_first(), items, last)
    }
}

pub struct DisplayIndices<'a, D: DisplayItem>(pub &'a [usize], pub &'a [D]);

impl<'a, D: DisplayItem> DisplayIndices<'a, D> {
    /// the items at the given indices as a list
    pub fn to_string(&self) -> (r: String)
        requires
            self.0@.len() > 0,
            self.1@.len() > 0,
            forall|i: int| 0 <= i < self.0@.len() ==> (#[trigger] self.0@[i]) < self.1@.len(),
        ensures
            self.0@.len() == 1 ==> r@ == self.1@[self.0@[0] as int].item_text(),
            self.0@.len() > 1 ==> r@ == seq!['['] + indices_body(self.0@, self.1@, self.0@.last()),
    {
        let idx = self.0;
        let items = self.1;
        if idx.len() == 1 {
            let r = items[idx[0]].display_item("");
            proof {
                reveal_strlit("");
                assert(r@ =~= items@[idx@[0] as int].item_text());
            }
            return r;
        }
        let last_e = idx[idx.len() - 1];
        let mut r = "[".to_owned();
        proof {
            reveal_strlit("[");
            reveal_strlit(", ");
            reveal_strlit("]");
            assert(idx@.subrange(0, idx@.len() as int) =~= idx@);
        }
        let mut i: usize = 0;
        while i < idx.len()
            invariant
                i <= idx@.len(),
                idx@.len() > 1,
                last_e == idx@.last(),
                forall|j: int| 0 <= j < idx@.len() ==> (#[trigger] idx@[j]) < items@.len(),
                seq!['['] + indices_body(idx@, items@, last_e) == r@ + indices_body(idx@.subrange(i as int, idx@.len() as int), items@, last_e),
            decreases idx@.len() - i,
        {
            let e = idx[i];
            let s = if e != last_e { items[e].display_item(", ") } else { items[e].display_item("]") };
            let ghost rest = idx@.subrange(i as int, idx@.len() as int);
            let ghost old_r = r@;
            assert(rest.drop_first() =~= idx@.subrange(i + 1, idx@.len() as int));
            assert(rest[0] == e);
            r.append(s.as_str());
            proof {
                reveal_strlit(", ");
                reveal_strlit("]");
                let piece = if e != last_e { items@[e as int].item_text() + seq![',', ' '] } else {
                    items@[e as int].item_text() + seq![']']
                };
                assert(s@ == piece);
                assert(indices_body(rest, items@, last_e) == piece + indices_body(rest.drop_first(), items@, last_e));
                assert(old_r + (piece + indices_body(rest.drop_first(), items@, last_e)) =~= (old_r + piece)
                    + indices_body(rest.drop_first(), items@, last_e));
            }
            i = i + 1;
        }
        proof {
            assert(idx@.subrange(0, idx@.len() as int) =~= idx@);
            assert(idx@.subrange(idx@.len() as int, idx@.len() as int).len() == 0);
        }
        r
    }
}

/// The text for whether the anti-cheat toggle exe was found.
pub open spec fn anti_cheat_found_text(found: bool) -> Seq<char> {
    "'"@ + ANTI_CHEAT_EXE@ + "' "@ + (if found { ""@ } else { "not"@ }) + "found"@
}

pub struct DisplayAntiCheatFound(pub bool);

impl DisplayAntiCheatFound {
    pub fn to_string(&self) -> (r: String)
        ensures
            r@ == anti_cheat_found_text(self.0),
    {
        let mut r = "'".to_owned();
        r.append(ANTI_CHEAT_EXE);
        r.append("' ");
        if self.0 {
            r.append("");
        } else {
            r.append("not");
        }
        r.append("found");
        r
    }
}

pub struct DisplayAntiCheatMsg;

impl DisplayAntiCheatMsg {
    pub fn to_string(&self) -> (r: String)
        ensures
            r@ == "'"@ + ANTI_CHEAT_EXE@ + "' has been toggled. EAC is currently enabled.\n\nTo use the app please toggle EAC using the exe"@,
    {
        let mut r = "'".to_owned();
        r.append(ANTI_CHEAT_EXE);
        r.append("' has been toggled. EAC is currently enabled.\n\nTo use the app please toggle EAC using the exe");
        r
    }
}

pub struct DisplayMissingOrd<'a>(pub &'a [usize]);

impl<'a> DisplayMissingOrd<'a> {
    pub fn to_string(&self) -> (r: String)
        requires
            self.0@.len() > 0,
        ensures
            r@ == "Load order values above: "@ + list_text(item_texts(self.0@)) + ", shifted down"@,
    {
        let mut r = "Load order values above: ".to_owned();
        let l = DisplayVec(self.0).to_string();
        r.append(l.as_str());
        r.append(", shifted down");
        r
    }
}

pub struct DisplayName<'a>(pub &'a str);

impl<'a> DisplayName<'a> {
    /// the name with a space for every `_`
    pub fn to_string(&self) -> (r: String)
        ensures
            r@ == replace_char_spec(self.0@, '_', ' '),
    {
        replace_char(self.0, '_', ' ')
    }
}

pub struct DisplayState(pub bool);

impl DisplayState {
    pub fn to_string(&self) -> (r: String)
        ensures
            r@ == if self.0 { "enabled"@ } else { "disabled"@ },
    {
        if self.0 { "enabled".to_owned() } else { "disabled".to_owned() }
    }
}

pub struct DisplayTheme(pub bool);

impl DisplayTheme {
    pub fn to_string(&self) -> (r: String)
        ensures
            r@ == if self.0 { "Dark"@ } else { "Light"@ },
    {
        if self.0 { "Dark".to_owned() } else { "Light".to_owned() }
    }
}

pub struct DisplayOrder(pub bool, pub usize);

impl DisplayOrder {
    /// the load order as the front end counts it (from 1), or `not set`
    pub fn to_string(&self) -> (r: String)
        requires
            self.0 ==> self.1 < usize::MAX,
        ensures
            r@ == if self.0 { decimal((self.1 + 1) as nat) } else { "not set"@ },
    {
        if self.0 { usize_to_string(self.1 + 1) } else { "not set".to_owned() }
    }
}

pub struct DisplayTime(pub usize);

impl DisplayTime {
    pub fn to_string(&self) -> (r: String)
        ensures
            r@ == decimal(self.0 as nat) + "ms"@,
    {
        let mut r = usize_to_string(self.0);
        r.append("ms");
        r
    }
}

impl LoadOrder {
    /// the load order value, or `not set`
    pub fn to_string(&self) -> (r: String)
        ensures
            r@ == if self.set { decimal(self.at as nat) } else { "not set"@ },
    {
        if self.set { usize_to_string(self.at) } else { "not set".to_owned() }
    }
}

/// The longest name the list of mods shows whole.
pub const ELIDE_LEN: usize = 20;

/// A name as the list of mods shows it: cut to its first `ELIDE_LEN - 3` characters and
/// `...` when it is longer than `ELIDE_LEN`.
pub open spec fn elided(name: Seq<char>) -> Seq<char> {
    if name.len() > ELIDE_LEN {
        name.subrange(0, ELIDE_LEN - 3) + "..."@
    } else {
        name
    }
}

/// The files of a mod as the app lists them: every file, with `.disabled` left off the
/// `.dll`s.
pub open spec fn listed_files(dll: Seq<Seq<char>>, config: Seq<Seq<char>>, other: Seq<Seq<char>>) -> Seq<Seq<char>> {
    dll.map_values(|f: Seq<char>| omit_off_state_spec(f)) + config + other
}

/// The names of a mod's `.dll`s, without `.disabled`.
pub open spec fn dll_names(dll: Seq<Seq<char>>) -> Seq<Seq<char>> {
    dll.map_values(|f: Seq<char>| omit_off_state_spec(file_name_from_str_spec(f)))
}

/// How the list of registered mods shows a mod.
#[derive(Debug)]
pub struct ModEntry {
    pub displayname: String,
    pub name: String,
    pub enabled: bool,
    pub files: Vec<String>,
    pub dll_files: Vec<String>,
    pub config_files: Vec<String>,
    pub order: LoadOrder,
}

/// `(files, dll_files, config_files)` of a mod as the app lists them: every file (the
/// `.dll`s without `.disabled`), the file names of the `.dll`s without `.disabled`, and
/// the `.ini` files
pub fn deserialize_split_files(split_files: &SplitFiles) -> (r: (Vec<String>, Vec<String>, Vec<String>))
    ensures
        strings_view(r.0@) == listed_files(strings_view(split_files.dll@), strings_view(split_files.config@), strings_view(split_files.other@)),
        strings_view(r.1@) == dll_names(strings_view(split_files.dll@)),
        strings_view(r.2@) == strings_view(split_files.config@),
{
    let ghost dv = strings_view(split_files.dll@);
    let ghost cv = strings_view(split_files.config@);
    let ghost ov = strings_view(split_files.other@);
    let mut files: Vec<String> = Vec::new();
    let mut dll_files: Vec<String> = Vec::new();
    let mut i: usize = 0;
    while i < split_files.dll.len()
        invariant
            i <= split_files.dll@.len(),
            dv == strings_view(split_files.dll@),
            strings_view(files@) == dv.subrange(0, i as int).map_values(|f: Seq<char>| omit_off_state_spec(f)),
            strings_view(dll_files@) == dll_names(dv.subrange(0, i as int)),
        decreases split_files.dll@.len() - i,
    {
        let f = split_files.dll[i].as_str();
        let ghost (f0, d0) = (strings_view(files@), strings_view(dll_files@));
        files.push(omit_off_state(f).to_owned());
        dll_files.push(omit_off_state(file_name_from_str(f)).to_owned());
        assert(dv[i as int] == f@);
        assert(strings_view(files@) =~= f0.push(omit_off_state_spec(f@)));
        assert(strings_view(dll_files@) =~= d0.push(omit_off_state_spec(file_name_from_str_spec(f@))));
        assert(dv.subrange(0, i + 1) =~= dv.subrange(0, i as int).push(f@));
        assert(strings_view(files@) =~= dv.subrange(0, i + 1).map_values(|f: Seq<char>| omit_off_state_spec(f)));
        assert(strings_view(dll_files@) =~= dll_names(dv.subrange(0, i + 1)));
        i = i + 1;
    }
    assert(dv.subrange(0, dv.len() as int) =~= dv);
    let ghost head = strings_view(files@);
    let mut config_files: Vec<String> = Vec::new();
    let mut j: usize = 0;
    while j < split_files.config.len()
        invariant
            j <= split_files.config@.len(),
            cv == strings_view(split_files.config@),
            strings_view(files@) == head + cv.subrange(0, j as int),
            strings_view(config_files@) == cv.subrange(0, j as int),
        decreases split_files.config@.len() - j,
    {
        let ghost (f0, c0) = (strings_view(files@), strings_view(config_files@));
        files.push(split_files.config[j].clone());
        config_files.push(split_files.config[j].clone());
        assert(cv[j as int] == split_files.config@[j as int]@);
        assert(strings_view(files@) =~= f0.push(cv[j as int]));
        assert(strings_view(config_files@) =~= c0.push(cv[j as int]));
        assert(strings_view(files@) =~= head + cv.subrange(0, j + 1));
        assert(strings_view(config_files@) =~= cv.subrange(0, j + 1));
        j = j + 1;
    }
    assert(cv.subrange(0, cv.len() as int) =~= cv);
    let ghost mid = strings_view(files@);
    let mut k: usize = 0;
    while k < split_files.other.len()
        invariant
            k <= split_files.other@.len(),
            ov == strings_view(split_files.other@),
            strings_view(files@) == mid + ov.subrange(0, k as int),
        decreases split_files.other@.len() - k,
    {
        let ghost f0 = strings_view(files@);
        files.push(split_files.other[k].clone());
        assert(ov[k as int] == split_files.other@[k as int]@);
        assert(strings_view(files@) =~= f0.push(ov[k as int]));
        assert(strings_view(files@) =~= mid + ov.subrange(0, k + 1));
        k = k + 1;
    }
    assert(ov.subrange(0, ov.len() as int) =~= ov);
    (files, dll_files, config_files)
}

/// the name with its `_` shown as spaces, cut as `elided` says
fn elide(name: &str) -> (r: String)
    ensures
        r@ == elided(name@),
{
    if name.unicode_len() > ELIDE_LEN {
        let mut r = String::new();
        let mut i: usize = 0;
        while i < ELIDE_LEN - 3
            invariant
                i <= ELIDE_LEN - 3,
                name@.len() > ELIDE_LEN,
                r@ == name@.subrange(0, i as int),
            decreases ELIDE_LEN - 3 - i,
        {
            r.push(name.get_char(i));
            assert(r@ =~= name@.subrange(0, i + 1));
            i = i + 1;
        }
        r.append("...");
        r
    } else {
        name.to_owned()
    }
}

/// how the list of registered mods shows `mod_data`: its name with `_` shown as spaces,
/// that name cut as `elided` says, its state, its files as `deserialize_split_files`
/// lists them, and its load order
pub fn deserialize_mod(mod_data: &RegMod) -> (r: ModEntry)
    ensures
        r.name@ == replace_char_spec(mod_data.name@, '_', ' '),
        r.displayname@ == elided(replace_char_spec(mod_data.name@, '_', ' ')),
        r.enabled == mod_data.state,
        strings_view(r.files@) == listed_files(strings_view(mod_data.files.dll@),
            strings_view(mod_data.files.config@), strings_view(mod_data.files.other@)),
        strings_view(r.dll_files@) == dll_names(strings_view(mod_data.files.dll@)),
        strings_view(r.config_files@) == strings_view(mod_data.files.config@),
        r.order.set == mod_data.order.set && r.order.i == mod_data.order.i && r.order.at == mod_data.order.at,
{
    let (files, dll_files, config_files) = deserialize_split_files(&mod_data.files);
    let name = replace_char(mod_data.name.as_str(), '_', ' ');
    ModEntry {
        displayname: elide(name.as_str()),
        name,
        enabled: mod_data.state,
        files,
        dll_files,
        config_files,
        order: LoadOrder { set: mod_data.order.set, i: mod_data.order.i, at: mod_data.order.at },
    }
}

/// What is logged of a panic: `PANIC file:line:column:` (or `PANIC:` where the place is
/// unknown), then its message or `no attached message`.
pub open spec fn panic_text(location: Option<(Seq<char>, u32, u32)>, message: Option<Seq<char>>) -> Seq<char> {
    let head = match location {
        Some((file, line, column)) => "PANIC "@ + file + ":"@ + decimal(line as nat) + ":"@
            + decimal(column as nat) + ":"@,
        None => "PANIC:"@,
    };
    head + " "@ + match message {
        Some(m) => m,
        None => "no attached message"@,
    }
}

/// the text logged of a panic at `location` (file, line, column) with the text `message`
pub fn format_panic_info(location: Option<(&str, u32, u32)>, message: Option<&str>) -> (r: String)
    ensures
        r@ == panic_text(
            match location {
                Some((f, l, c)) => Some((f@, l, c)),
                None => None,
            },
            match message {
                Some(m) => Some(m@),
                None => None,
            },
        ),
{
    let mut r = match location {
        Some((file, line, column)) => {
            let mut h = "PANIC ".to_owned();
            h.append(file);
            h.append(":");
            h.append(usize_to_string(line as usize).as_str());
            h.append(":");
            h.append(usize_to_string(column as usize).as_str());
            h.append(":");
            h
        },
        None => "PANIC:".to_owned(),
    };
    r.append(" ");
    match message {
        Some(m) => r.append(m),
        None => r.append("no attached message"),
    }
    r
}

} // verus!
