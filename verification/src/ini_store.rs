//! The in-memory INI document of the `ini` crate, seen as ordered sequences.
//!
//! An `ini::Ini` is an ordered multimap from section names to `ini::Properties`,
//! which is itself an ordered multimap from keys to values.  Verus sees both types
//! as opaque; their contents are named by `ini_sections` and `props_entries`
//! (in iteration order), and every method of the crate that the library calls has a
//! wrapper below whose contract says what it does to those contents, as the crate's
//! source shows it.
use vstd::prelude::*;

verus! {

/// The entries of a section, in iteration order.
pub type PropsView = Seq<(Seq<char>, Seq<char>)>;

/// The sections of a document, in iteration order (`None` is the general section).
pub type IniView = Seq<(Option<Seq<char>>, Seq<(Seq<char>, Seq<char>)>)>;

#[verifier::external_type_specification]
#[verifier::external_body]
pub struct ExIni(::ini::Ini);

#[verifier::external_type_specification]
#[verifier::external_body]
pub struct ExProperties(::ini::Properties);

/// What an `ini::Ini` holds: every section, with its entries, in iteration order.
pub uninterp spec fn ini_sections(ini: ::ini::Ini) -> Seq<(Option<Seq<char>>, Seq<(Seq<char>, Seq<char>)>)>;

/// What an `ini::Properties` holds: every (key, value) pair, in iteration order.
pub uninterp spec fn props_entries(props: ::ini::Properties) -> Seq<(Seq<char>, Seq<char>)>;

/// What `ini::Ini::load_from_str_noescape` makes of a text: the sections of the
/// document, or the text of the parse error.
pub uninterp spec fn ini_parse(text: Seq<char>) -> Result<Seq<(Option<Seq<char>>, Seq<(Seq<char>, Seq<char>)>)>, Seq<char>>;

pub open spec fn opt_view(o: Option<&str>) -> Option<Seq<char>> {
    match o {
        Some(s) => Some(s@),
        None => None,
    }
}

/// The index of the first section named `name`, or `v.len()` when there is none.
pub open spec fn section_index(v: IniView, name: Option<Seq<char>>) -> int
    decreases v.len(),
{
    if v.len() == 0 {
        0
    } else if v[0].0 == name {
        0
    } else {
        1 + section_index(v.drop_first(), name)
    }
}

/// The entries of the first section named `name`, if there is one.
pub open spec fn section_of(v: IniView, name: Option<Seq<char>>) -> Option<PropsView> {
    let i = section_index(v, name);
    if i < v.len() {
        Some(v[i].1)
    } else {
        None
    }
}

/// The index of the first entry with key `k`, or `p.len()` when there is none.
pub open spec fn key_index(p: PropsView, k: Seq<char>) -> int
    decreases p.len(),
{
    if p.len() == 0 {
        0
    } else if p[0].0 == k {
        0
    } else {
        1 + key_index(p.drop_first(), k)
    }
}

/// `true` when some entry has key `k`.
pub open spec fn props_has(p: PropsView, k: Seq<char>) -> bool {
    exists|i: int| 0 <= i < p.len() && #[trigger] p[i].0 == k
}

/// The value of the first entry with key `k`.
pub open spec fn props_get(p: PropsView, k: Seq<char>) -> Option<Seq<char>> {
    let i = key_index(p, k);
    if i < p.len() {
        Some(p[i].1)
    } else {
        None
    }
}

/// The entries without those with key `k`.
pub open spec fn props_without(p: PropsView, k: Seq<char>) -> PropsView {
    p.filter(|e: (Seq<char>, Seq<char>)| e.0 != k)
}

/// `Properties::insert`: every entry with key `k` leaves, and `(k, v)` comes last.
pub open spec fn props_insert(p: PropsView, k: Seq<char>, v: Seq<char>) -> PropsView {
    props_without(p, k).push((k, v))
}

/// The number of distinct keys.
pub open spec fn key_count(p: PropsView) -> nat
    decreases p.len(),
{
    if p.len() == 0 {
        0
    } else {
        let rest = p.drop_last();
        if props_has(rest, p.last().0) {
            key_count(rest)
        } else {
            key_count(rest) + 1
        }
    }
}

/// `with_section(name).set(k, v)`: the first section named `name` (made, last, when
/// there is none) gets `props_insert(.., k, v)`.
pub open spec fn ini_set_spec(v: IniView, name: Option<Seq<char>>, k: Seq<char>, val: Seq<char>) -> IniView {
    let i = section_index(v, name);
    if i < v.len() {
        v.update(i, (name, props_insert(v[i].1, k, val)))
    } else {
        v.push((name, seq![(k, val)]))
    }
}

/// `delete_from(name, k)`: the first section named `name` loses its entries with key `k`.
pub open spec fn ini_delete_spec(v: IniView, name: Option<Seq<char>>, k: Seq<char>) -> IniView {
    let i = section_index(v, name);
    if i < v.len() {
        v.update(i, (name, props_without(v[i].1, k)))
    } else {
        v
    }
}

/// The line separator written between lines: CRLF.
pub open spec fn crlf() -> Seq<char> {
    seq!['\r', '\n']
}

/// The text of the entries of one section.
pub open spec fn write_props(p: PropsView, kv_sep: Seq<char>) -> Seq<char>
    decreases p.len(),
{
    if p.len() == 0 {
        Seq::empty()
    } else {
        p[0].0 + kv_sep + p[0].1 + crlf() + write_props(p.drop_first(), kv_sep)
    }
}

/// The text of one section: its header (none for the general section), then its entries.
pub open spec fn write_section(s: (Option<Seq<char>>, PropsView), kv_sep: Seq<char>) -> Seq<char> {
    match s.0 {
        Some(name) => seq!['['] + name + seq![']'] + crlf() + write_props(s.1, kv_sep),
        None => write_props(s.1, kv_sep),
    }
}

/// The text of the sections `v`, where `seen` tells whether a section with entries
/// came before: such a section is preceded by an empty line.
pub open spec fn write_sections(v: IniView, kv_sep: Seq<char>, seen: bool) -> Seq<char>
    decreases v.len(),
{
    if v.len() == 0 {
        Seq::empty()
    } else {
        let nonempty = v[0].1.len() > 0;
        let lead: Seq<char> = if nonempty && seen { crlf() } else { Seq::empty() };
        lead + write_section(v[0], kv_sep) + write_sections(v.drop_first(), kv_sep, seen || nonempty)
    }
}

/// `Ini::write_to_opt` with no escaping, CRLF line ends and the given key-value separator.
pub open spec fn ini_text(v: IniView, kv_sep: Seq<char>) -> Seq<char> {
    write_sections(v, kv_sep, false)
}

/// No line break in `s`.
pub open spec fn one_line(s: Seq<char>) -> bool {
    forall|i: int| 0 <= i < s.len() ==> #[trigger] s[i] != '\n' && s[i] != '\r'
}

/// No whitespace (`char::is_whitespace`) at either end of `s`.
pub open spec fn trimmed(s: Seq<char>) -> bool {
    s.len() == 0 || (!crate::text::is_ws(s[0]) && !crate::text::is_ws(s.last()))
}

/// A section name that its header line gives back: one line, trimmed, with no `]`,
/// and not ending in `\`.
pub open spec fn plain_name(s: Seq<char>) -> bool {
    &&& one_line(s)
    &&& trimmed(s)
    &&& forall|i: int| 0 <= i < s.len() ==> #[trigger] s[i] != ']'
    &&& (s.len() == 0 || s.last() != '\\')
}

/// A key that its line gives back: not empty, one line, trimmed, with no `=` or `:`,
/// not starting with `[`, `;` or `#`, and not ending in `\`.
pub open spec fn plain_key(s: Seq<char>) -> bool {
    &&& s.len() > 0
    &&& one_line(s)
    &&& trimmed(s)
    &&& forall|i: int| 0 <= i < s.len() ==> #[trigger] s[i] != '=' && s[i] != ':'
    &&& s[0] != '[' && s[0] != ';' && s[0] != '#'
    &&& s.last() != '\\'
}

/// A value that its line gives back: one line, trimmed, and not starting with a quote.
pub open spec fn plain_value(s: Seq<char>) -> bool {
    &&& one_line(s)
    &&& trimmed(s)
    &&& (s.len() == 0 || (s[0] != '"' && s[0] != '\''))
}

/// A section after the first: named, with a plain name.
pub open spec fn plain_header(name: Option<Seq<char>>) -> bool {
    match name {
        Some(n) => plain_name(n),
        None => false,
    }
}

/// Every entry of `p` has a plain key and a plain value.
pub open spec fn plain_props(p: PropsView) -> bool {
    forall|j: int| 0 <= j < p.len() ==> plain_key(#[trigger] p[j].0) && plain_value(p[j].1)
}

/// A document that reads back from its text: the general section first and only
/// there, and every section name, key and value plain.
pub open spec fn plain_doc(v: IniView) -> bool {
    &&& v.len() > 0
    &&& v[0].0 is None
    &&& forall|i: int| 1 <= i < v.len() ==> plain_header(#[trigger] v[i].0)
    &&& forall|i: int| 0 <= i < v.len() ==> plain_props(#[trigger] v[i].1)
}

/// `res`, the result of parsing `text`, is the document `v` wherever `text` is what
/// writing the plain document `v` gives, with `=` or ` = ` between key and value.
pub open spec fn plain_text_parses_back<E>(text: Seq<char>, res: Result<::ini::Ini, E>) -> bool {
    forall|v: IniView| #[trigger] plain_doc(v) && (text == ini_text(v, "="@) || text == ini_text(v, " = "@))
        ==> (res matches Ok(ini) && ini_sections(ini) == v)
}

/// `text` parses as `v` wherever it is the text written of the plain document `v`.
pub open spec fn text_reads_back(text: Seq<char>) -> bool {
    forall|v: IniView| #[trigger] plain_doc(v) && (text == ini_text(v, "="@) || text == ini_text(v, " = "@))
        ==> ini_parse(text) == Ok::<IniView, Seq<char>>(v)
}

/// `ini::Ini::new`: a document with an empty general section.
#[verifier::external_body]
pub(crate) fn ini_new() -> (ini: ::ini::Ini)
    ensures
        ini_sections(ini) == seq![(None::<Seq<char>>, Seq::<(Seq<char>, Seq<char>)>::empty())],
{
    ::ini::Ini::new()
}

/// `ini::Ini::load_from_str_noescape`: the document, or the text of the parse error;
/// both are what `ini_parse` names. Claimed besides, from the parser's source (the crate
/// built without its optional features): the text that `Ini::write_to_opt` writes of a
/// plain document, without escaping, with CRLF line ends and `=` or ` = ` between key
/// and value, parses back to that document. What it makes of any other text is not
/// stated.
#[verifier::external_body]
pub(crate) fn ini_load_str(text: &str) -> (res: Result<::ini::Ini, String>)
    ensures
        match res {
            Ok(ini) => ini_parse(text@) == Ok::<IniView, Seq<char>>(ini_sections(ini)),
            Err(msg) => ini_parse(text@) == Err::<IniView, Seq<char>>(msg@),
        },
        plain_text_parses_back(text@, res),
{
    match ::ini::Ini::load_from_str_noescape(text) {
        Ok(ini) => Ok(ini),
        Err(err) => Err(err.to_string()),
    }
}

/// `ini::Ini::write_to_opt` into memory, with `EscapePolicy::Nothing`, CRLF line ends
/// and `kv_separator`: escaping nothing, the crate writes the text `ini_text` states.
#[verifier::external_body]
pub(crate) fn ini_write(ini: &::ini::Ini, kv_separator: &'static str) -> (text: String)
    ensures
        text@ == ini_text(ini_sections(*ini), kv_separator@),
{
    let opt = ::ini::WriteOption {
        escape_policy: ::ini::EscapePolicy::Nothing,
        line_separator: ::ini::LineSeparator::CRLF,
        kv_separator,
    };
    let mut buf: std::vec::Vec<u8> = std::vec::Vec::new();
    let _ = ini.write_to_opt(&mut buf, opt);
    String::from_utf8_lossy(&buf).into_owned()
}

/// `ini::Ini::section`: the first section with the given name.
#[verifier::external_body]
pub(crate) fn ini_section<'a>(ini: &'a ::ini::Ini, name: Option<&str>) -> (res: Option<&'a ::ini::Properties>)
    ensures
        match res {
            Some(p) => section_of(ini_sections(*ini), opt_view(name)) == Some(props_entries(*p)),
            None => section_of(ini_sections(*ini), opt_view(name)) is None,
        },
{
    ini.section(name)
}

/// `ini.with_section(name).set(key, value)`.
#[verifier::external_body]
pub(crate) fn ini_set(ini: &mut ::ini::Ini, name: Option<&str>, key: &str, value: &str)
    ensures
        ini_sections(*final(ini)) == ini_set_spec(ini_sections(*old(ini)), opt_view(name), key@, value@),
{
    ini.with_section(name).set(key, value);
}

/// `ini::Ini::delete_from`: removes every entry with `key` from the first section
/// named `name`, and gives back the first value it removed.
#[verifier::external_body]
pub(crate) fn ini_delete_from(ini: &mut ::ini::Ini, name: Option<&str>, key: &str) -> (res: Option<String>)
    ensures
        ini_sections(*final(ini)) == ini_delete_spec(ini_sections(*old(ini)), opt_view(name), key@),
        match section_of(ini_sections(*old(ini)), opt_view(name)) {
            Some(p) => match res {
                Some(v) => props_get(p, key@) == Some(v@),
                None => props_get(p, key@) is None,
            },
            None => res is None,
        },
{
    ini.delete_from(name, key)
}

/// `ini::Properties::iter`, each pair handed out as two `&str`.
#[verifier::external_body]
pub(crate) fn props_pairs<'a>(props: &'a ::ini::Properties) -> (res: Vec<(&'a str, &'a str)>)
    ensures
        res@.len() == props_entries(*props).len(),
        forall|i: int| 0 <= i < res@.len() ==> (#[trigger] res@[i]).0@ == props_entries(*props)[i].0
            && res@[i].1@ == props_entries(*props)[i].1,
{
    props.iter().collect()
}

/// `ini::Properties::get`: the value of the first entry with `key`.
#[verifier::external_body]
pub(crate) fn props_get_value<'a>(props: &'a ::ini::Properties, key: &str) -> (res: Option<&'a str>)
    ensures
        match res {
            Some(v) => props_get(props_entries(*props), key@) == Some(v@),
            None => props_get(props_entries(*props), key@) is None,
        },
{
    props.get(key)
}

/// `ini::Properties::contains_key`.
#[verifier::external_body]
pub(crate) fn props_contains_key(props: &::ini::Properties, key: &str) -> (res: bool)
    ensures
        res == props_has(props_entries(*props), key@),
{
    props.contains_key(key)
}

/// `ini::Properties::len`: the number of distinct keys.
#[verifier::external_body]
pub(crate) fn props_len(props: &::ini::Properties) -> (res: usize)
    ensures
        res == key_count(props_entries(*props)),
{
    props.len()
}

/// `ini::Properties::is_empty`.
#[verifier::external_body]
pub(crate) fn props_is_empty(props: &::ini::Properties) -> (res: bool)
    ensures
        res == (props_entries(*props).len() == 0),
{
    props.is_empty()
}

/// `ini::Ini::section_mut`: the first section with the given name, to change in place.
#[verifier::external_body]
pub(crate) fn ini_section_mut<'a>(ini: &'a mut ::ini::Ini, name: Option<&str>) -> (res: Option<&'a mut ::ini::Properties>)
    ensures
        match res {
            Some(p) => section_of(ini_sections(*old(ini)), opt_view(name)) == Some(props_entries(*p))
                && ini_sections(*final(ini)) == ini_sections(*old(ini)).update(
                    section_index(ini_sections(*old(ini)), opt_view(name)),
                    (opt_view(name), props_entries(*final(p))),
                ),
            None => section_of(ini_sections(*old(ini)), opt_view(name)) is None
                && ini_sections(*final(ini)) == ini_sections(*old(ini)),
        },
{
    ini.section_mut(name)
}

/// `ini::Properties::new`: no entries.
#[verifier::external_body]
pub(crate) fn props_new() -> (p: ::ini::Properties)
    ensures
        props_entries(p) == Seq::<(Seq<char>, Seq<char>)>::empty(),
{
    ::ini::Properties::new()
}

/// `ini::Properties::insert`: every entry with `key` leaves and `(key, value)` comes last.
#[verifier::external_body]
pub(crate) fn props_insert_kv(props: &mut ::ini::Properties, key: &str, value: &str)
    ensures
        props_entries(*final(props)) == props_insert(props_entries(*old(props)), key@, value@),
{
    props.insert(key, value);
}

/// `ini::Properties::append`: `(key, value)` comes last.
#[verifier::external_body]
pub(crate) fn props_append(props: &mut ::ini::Properties, key: &str, value: &str)
    ensures
        props_entries(*final(props)) == props_entries(*old(props)).push((key@, value@)),
{
    props.append(key, value);
}

/// `ini::Properties::remove`: every entry with `key` leaves; gives back the first value.
#[verifier::external_body]
pub(crate) fn props_remove(props: &mut ::ini::Properties, key: &str) -> (res: Option<String>)
    ensures
        props_entries(*final(props)) == props_without(props_entries(*old(props)), key@),
        match res {
            Some(v) => props_get(props_entries(*old(props)), key@) == Some(v@),
            None => props_get(props_entries(*old(props)), key@) is None,
        },
{
    props.remove(key)
}

/// The first section named `name`, when there is one, is at `section_index`.
pub proof fn lemma_section_index(v: IniView, name: Option<Seq<char>>)
    ensures
        0 <= section_index(v, name) <= v.len(),
        section_index(v, name) < v.len() ==> v[section_index(v, name)].0 == name,
        forall|j: int| 0 <= j < section_index(v, name) ==> v[j].0 != name,
    decreases v.len(),
{
    if v.len() > 0 && v[0].0 != name {
        lemma_section_index(v.drop_first(), name);
        assert forall|j: int| 0 <= j < section_index(v, name) implies v[j].0 != name by {
            if j > 0 {
                assert(v[j] == v.drop_first()[j - 1]);
            }
        }
    }
}


/// Replacing the entries of the first section named `name` keeps it the first one so named.
pub proof fn lemma_section_update(v: IniView, name: Option<Seq<char>>, x: PropsView)
    requires
        section_index(v, name) < v.len(),
    ensures
        section_index(v.update(section_index(v, name), (name, x)), name) == section_index(v, name),
        section_of(v.update(section_index(v, name), (name, x)), name) == Some(x),
    decreases v.len(),
{
    let i = section_index(v, name);
    let w = v.update(i, (name, x));
    lemma_section_index(v, name);
    if v[0].0 != name {
        assert(i == 1 + section_index(v.drop_first(), name));
        lemma_section_update(v.drop_first(), name, x);
        assert(w[0] == v[0]);
        assert(w.drop_first() =~= v.drop_first().update(i - 1, (name, x)));
    }
}


proof fn lemma_key_index_push(p: PropsView, k: Seq<char>, v: Seq<char>)
    requires
        forall|j: int| 0 <= j < p.len() ==> p[j].0 != k,
    ensures
        key_index(p.push((k, v)), k) == p.len(),
    decreases p.len(),
{
    if p.len() > 0 {
        assert(p.push((k, v)).drop_first() =~= p.drop_first().push((k, v)));
        assert forall|j: int| 0 <= j < p.drop_first().len() implies p.drop_first()[j].0 != k by {
            assert(p.drop_first()[j] == p[j + 1]);
        }
        lemma_key_index_push(p.drop_first(), k, v);
    }
}

pub(crate) proof fn lemma_section_index_push(v: IniView, name: Option<Seq<char>>, x: (Option<Seq<char>>, PropsView))
    requires
        section_index(v, name) == v.len(),
    ensures
        section_index(v.push(x), name) == if x.0 == name { v.len() as int } else { v.len() + 1int },
    decreases v.len(),
{
    if v.len() > 0 {
        assert(v[0].0 != name);
        assert(v.push(x)[0] == v[0]);
        assert(v.push(x).drop_first() =~= v.drop_first().push(x));
        lemma_section_index_push(v.drop_first(), name, x);
        assert(section_index(v.push(x), name) == 1 + section_index(v.push(x).drop_first(), name));
    } else {
        assert(v.push(x).drop_first().len() == 0);
        assert(section_index(v.push(x).drop_first(), name) == 0);
    }
}

/// Every entry left after taking out a key was an entry before.
pub(crate) proof fn lemma_without_from(p: PropsView, k: Seq<char>)
    ensures
        forall|j: int| 0 <= j < props_without(p, k).len() ==> p.contains(#[trigger] props_without(p, k)[j]),
    decreases p.len(),
{
    reveal_with_fuel(Seq::filter, 1);
    if p.len() > 0 {
        lemma_without_from(p.drop_last(), k);
        let w0 = props_without(p.drop_last(), k);
        assert forall|j: int| 0 <= j < w0.len() implies p.contains(#[trigger] w0[j]) by {
            let q = choose|q: int| 0 <= q < p.drop_last().len() && p.drop_last()[q] == w0[j];
            assert(p[q] == w0[j]);
        }
        if p.last().0 != k {
            assert(props_without(p, k) == w0.push(p.last()));
            assert forall|j: int| 0 <= j < w0.push(p.last()).len() implies p.contains(#[trigger] w0.push(p.last())[j]) by {
                if j < w0.len() {
                    assert(w0.push(p.last())[j] == w0[j]);
                } else {
                    assert(p[p.len() - 1] == p.last());
                }
            }
        } else {
            assert(props_without(p, k) == w0);
        }
    }
}

pub(crate) proof fn lemma_without_no_key(p: PropsView, k: Seq<char>)
    ensures
        forall|j: int| 0 <= j < props_without(p, k).len() ==> (#[trigger] props_without(p, k)[j]).0 != k,
    decreases p.len(),
{
    reveal_with_fuel(Seq::filter, 1);
    if p.len() > 0 {
        lemma_without_no_key(p.drop_last(), k);
        let w0 = props_without(p.drop_last(), k);
        if p.last().0 != k {
            assert(props_without(p, k) == w0.push(p.last()));
            assert forall|j: int| 0 <= j < w0.push(p.last()).len() implies (#[trigger] w0.push(p.last())[j]).0 != k by {
                if j < w0.len() {
                    assert(w0.push(p.last())[j] == w0[j]);
                }
            }
        } else {
            assert(props_without(p, k) == w0);
        }
    }
}

/// Reading a key of a section right after `with_section(name).set(key, value)` gives
/// back `value`: the section exists and its first entry with `key` holds `value`.
pub proof fn get_after_set(v: IniView, name: Option<Seq<char>>, key: Seq<char>, value: Seq<char>)
    ensures
        section_of(ini_set_spec(v, name, key, value), name) matches Some(p)
            && props_has(p, key) && props_get(p, key) == Some(value),
{
    lemma_section_index(v, name);
    let i = section_index(v, name);
    if i < v.len() {
        let p0 = v[i].1;
        let w = props_without(p0, key);
        lemma_without_no_key(p0, key);
        lemma_key_index_push(w, key, value);
        lemma_section_update(v, name, props_insert(p0, key, value));
        let p = props_insert(p0, key, value);
        assert(p[w.len() as int].0 == key);
    } else {
        lemma_section_index_push(v, name, (name, seq![(key, value)]));
        let p: PropsView = seq![(key, value)];
        assert(p[0].0 == key);
        assert(key_index(p, key) == 0);
    }
}

/// Dropping entries keeps the rest plain.
pub(crate) proof fn lemma_without_plain(p: PropsView, k: Seq<char>)
    requires
        plain_props(p),
    ensures
        plain_props(props_without(p, k)),
    decreases p.len(),
{
    reveal_with_fuel(Seq::filter, 1);
    if p.len() > 0 {
        lemma_without_plain(p.drop_last(), k);
        let r = props_without(p.drop_last(), k);
        let f = props_without(p, k);
        assert(plain_key(p[p.len() - 1].0) && plain_value(p[p.len() - 1].1));
        assert(f == r || f == r.push(p.last()));
        assert forall|j: int| 0 <= j < f.len() implies plain_key(#[trigger] f[j].0) && plain_value(f[j].1) by {
            if j < r.len() {
                assert(f[j] == r[j]);
            }
        }
    }
}

/// Setting a plain key to a plain value, in the general section or in a section with a
/// plain name, keeps a plain document plain: its text reads back (see `get_cfg`).
pub proof fn plain_after_set(v: IniView, name: Option<Seq<char>>, key: Seq<char>, value: Seq<char>)
    requires
        plain_doc(v),
        name is None || plain_header(name),
        plain_key(key),
        plain_value(value),
    ensures
        plain_doc(ini_set_spec(v, name, key, value)),
{
    lemma_section_index(v, name);
    let i = section_index(v, name);
    let w = ini_set_spec(v, name, key, value);
    if i < v.len() {
        let p = props_insert(v[i].1, key, value);
        assert(plain_props(v[i].1));
        lemma_without_plain(v[i].1, key);
        assert forall|j: int| 0 <= j < p.len() implies plain_key(#[trigger] p[j].0) && plain_value(p[j].1) by {
            if j < p.len() - 1 {
                assert(p[j] == props_without(v[i].1, key)[j]);
            }
        }
        assert forall|j: int| 0 <= j < w.len() implies plain_props(#[trigger] w[j].1) by {
            if j != i {
                assert(w[j] == v[j]);
            }
        }
        assert forall|j: int| 1 <= j < w.len() implies plain_header(#[trigger] w[j].0) by {
            assert(w[j].0 == v[j].0);
        }
    } else {
        assert(name is Some);
        assert forall|j: int| 0 <= j < w.len() implies plain_props(#[trigger] w[j].1) by {
            if j < v.len() {
                assert(w[j] == v[j]);
            } else {
                let q: PropsView = seq![(key, value)];
                assert(w[j].1 == q);
                assert(q[0] == (key, value));
            }
        }
        assert forall|j: int| 1 <= j < w.len() implies plain_header(#[trigger] w[j].0) by {
            if j < v.len() {
                assert(w[j] == v[j]);
            }
        }
    }
}

/// The text of the entries `a + b` is the text of `a`, then that of `b`.
pub(crate) proof fn lemma_write_props_append(a: PropsView, b: PropsView, sep: Seq<char>)
    ensures
        write_props(a + b, sep) == write_props(a, sep) + write_props(b, sep),
    decreases a.len(),
{
    if a.len() > 0 {
        assert((a + b).drop_first() =~= a.drop_first() + b);
        assert((a + b)[0] == a[0]);
        lemma_write_props_append(a.drop_first(), b, sep);
        assert(write_props(a + b, sep) =~= write_props(a, sep) + write_props(b, sep));
    } else {
        assert(a + b =~= b);
        assert(write_props(a, sep) =~= Seq::<char>::empty());
        assert(write_props(a + b, sep) =~= write_props(a, sep) + write_props(b, sep));
    }
}

/// Sections that differ only in one section, whose text and emptiness agree, are
/// written as the same text.
pub(crate) proof fn lemma_write_sections_same(v: IniView, w: IniView, i: int, sep: Seq<char>, seen: bool)
    requires
        v.len() == w.len(),
        0 <= i < v.len(),
        forall|j: int| 0 <= j < v.len() && j != i ==> v[j] == w[j],
        write_section(v[i], sep) == write_section(w[i], sep),
        (v[i].1.len() > 0) == (w[i].1.len() > 0),
    ensures
        write_sections(v, sep, seen) == write_sections(w, sep, seen),
    decreases v.len(),
{
    if i == 0 {
        assert(v.drop_first() =~= w.drop_first());
    } else {
        assert(v[0] == w[0]);
        assert forall|j: int| 0 <= j < v.drop_first().len() && j != i - 1 implies v.drop_first()[j] == w.drop_first()[j] by {
            assert(v.drop_first()[j] == v[j + 1]);
            assert(w.drop_first()[j] == w[j + 1]);
        }
        assert(v.drop_first()[i - 1] == v[i]);
        assert(w.drop_first()[i - 1] == w[i]);
        lemma_write_sections_same(v.drop_first(), w.drop_first(), i - 1, sep, seen || v[0].1.len() > 0);
    }
}

/// The first entry with key `k` in `a + b`, when `a` has none and `b` starts with one.
pub(crate) proof fn lemma_key_index_concat(a: PropsView, b: PropsView, k: Seq<char>)
    requires
        forall|j: int| 0 <= j < a.len() ==> a[j].0 != k,
        b.len() > 0,
        b[0].0 == k,
    ensures
        key_index(a + b, k) == a.len(),
    decreases a.len(),
{
    if a.len() > 0 {
        assert((a + b).drop_first() =~= a.drop_first() + b);
        assert((a + b)[0] == a[0]);
        assert forall|j: int| 0 <= j < a.drop_first().len() implies a.drop_first()[j].0 != k by {
            assert(a.drop_first()[j] == a[j + 1]);
        }
        lemma_key_index_concat(a.drop_first(), b, k);
    } else {
        assert(a + b =~= b);
    }
}

/// Setting a key in one section leaves another section that is there as it was.
pub proof fn lemma_set_other_section(v: IniView, a: Seq<char>, b: Seq<char>, k: Seq<char>, val: Seq<char>)
    requires
        a != b,
        section_of(v, Some(b)) is Some,
    ensures
        section_of(ini_set_spec(v, Some(a), k, val), Some(b)) == section_of(v, Some(b)),
{
    lemma_section_index(v, Some(a));
    lemma_section_index(v, Some(b));
    let ia = section_index(v, Some(a));
    let ib = section_index(v, Some(b));
    let w = ini_set_spec(v, Some(a), k, val);
    lemma_section_index(w, Some(b));
    assert forall|j: int| 0 <= j < w.len() implies (#[trigger] w[j]).0 == if j < v.len() { v[j].0 } else { Some(a) } by {
        if j < v.len() && j != ia {
            assert(w[j] == v[j]);
        }
    }
    assert(w[ib].0 == Some(b));
    assert(section_index(w, Some(b)) == ib);
    assert(w[ib] == v[ib]);
}

/// Removing a key from one section leaves another section that is there as it was.
pub proof fn lemma_delete_other_section(v: IniView, a: Seq<char>, b: Seq<char>, k: Seq<char>)
    requires
        a != b,
    ensures
        section_of(ini_delete_spec(v, Some(a), k), Some(b)) == section_of(v, Some(b)),
{
    lemma_section_index(v, Some(a));
    lemma_section_index(v, Some(b));
    let ia = section_index(v, Some(a));
    let ib = section_index(v, Some(b));
    let w = ini_delete_spec(v, Some(a), k);
    lemma_section_index(w, Some(b));
    assert forall|j: int| 0 <= j < w.len() implies (#[trigger] w[j]).0 == v[j].0 by {
        if j != ia {
            assert(w[j] == v[j]);
        }
    }
    if ib < v.len() {
        assert(w[ib].0 == Some(b));
        assert(section_index(w, Some(b)) == ib);
        assert(w[ib] == v[ib]);
    } else {
        assert(section_index(w, Some(b)) == w.len());
    }
}

} // verus!
