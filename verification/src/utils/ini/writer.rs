//! Changes to the configuration files, made on their text.
//!
//! Each function takes the text of a configuration file, reads it as a document,
//! changes it, and gives back the text to write back: reading and writing the file is
//! left to the caller.
use vstd::prelude::*;
use crate::error::{joined_msgs, Error, ErrorKind, IniParseError, IntoIoError};
use crate::files::{file_name_or_err, omit_off_state, omit_off_state_spec, parent_or_err};
use crate::ini_store::{
    crlf, ini_delete_from, ini_delete_spec, ini_load_str, ini_parse, ini_sections, ini_set,
    ini_set_spec, ini_text, ini_write, lemma_section_index, lemma_write_props_append,
    lemma_write_sections_same, plain_text_parses_back, text_reads_back, props_get, props_insert, props_without,
    section_index, section_of, write_props, IniView, PropsView,
};
use crate::paths::{file_name_spec, parent_spec};
use crate::text::{chars_of, concat, occurs_at_exec, replace_char, replace_char_spec, string_of};
use crate::utils::ini::parser::{is_ini_path, missing_sections, RegMod, Setup};
use crate::{
    ARRAY_KEY, ARRAY_VALUE, DEFAULT_INI_VALUES, DEFAULT_LOADER_VALUES, INI_KEYS, INI_NAME, INI_SECTIONS,
    LOADER_FILES, LOADER_KEYS, LOADER_SECTIONS,
};

verus! {

/// The key-value separator of the app's own configuration file.
pub const WRITE_SEPARATOR: &'static str = "=";

/// The key-value separator of the mod loader's configuration file.
pub const EXT_SEPARATOR: &'static str = " = ";

/// returns the document the text of a configuration file holds, or an `InvalidData`
/// error with the parse error's message; the text written of a plain document reads
/// back as that document
pub fn get_cfg(content: &str) -> (r: Result<::ini::Ini, Error>)
    ensures
        match r {
            Ok(ini) => ini_parse(content@) == Ok::<IniView, Seq<char>>(ini_sections(ini)),
            Err(e) => e.kind == ErrorKind::InvalidData && ini_parse(content@) == Err::<IniView, Seq<char>>(e.msg@),
        },
        plain_text_parses_back(content@, r),
        text_reads_back(content@),
{
    match ini_load_str(content) {
        Ok(ini) => Ok(ini),
        Err(msg) => Err(IniParseError(msg).into_io_error("", "")),
    }
}

/// The text of the document in `content` after `with_section(section).set(key, value)`,
/// written with `kv_sep`; or the parse error when `content` is no document.
pub open spec fn set_value_text(
    content: Seq<char>,
    section: Option<Seq<char>>,
    key: Seq<char>,
    value: Seq<char>,
    kv_sep: Seq<char>,
) -> Result<Seq<char>, Seq<char>> {
    match ini_parse(content) {
        Ok(v) => Ok(ini_text(ini_set_spec(v, section, key, value), kv_sep)),
        Err(m) => Err(m),
    }
}

/// `true` when `r` is what `set_value_text` gives (a parse error as `InvalidData`).
pub open spec fn set_result(r: Result<String, Error>, expected: Result<Seq<char>, Seq<char>>) -> bool {
    match r {
        Ok(t) => expected == Ok::<Seq<char>, Seq<char>>(t@),
        Err(e) => e.kind == ErrorKind::InvalidData && expected == Err::<Seq<char>, Seq<char>>(e.msg@),
    }
}

fn set_in_text(content: &str, section: Option<&str>, key: &str, value: &str, kv_sep: &'static str) -> (r: Result<String, Error>)
    ensures
        set_result(r, set_value_text(content@, crate::ini_store::opt_view(section), key@, value@, kv_sep@)),
        text_reads_back(content@),
{
    let mut config = get_cfg(content)?;
    ini_set(&mut config, section, key, value);
    Ok(ini_write(&config, kv_sep))
}

/// The separator between the saved paths of an array.
pub open spec fn array_sep() -> Seq<char> {
    "\r\n"@ + ARRAY_KEY@ + "="@
}

/// The value `save_paths` saves: `array`, then every path on a line `array[]=path`.
pub open spec fn array_value(files: Seq<Seq<char>>) -> Seq<char> {
    ARRAY_VALUE@ + array_sep() + joined_msgs(files, array_sep())
}

fn array_text(files: &[String]) -> (r: String)
    ensures
        r@ == array_value(files@.map_values(|s: String| s@)),
{
    let ghost fs = files@.map_values(|s: String| s@);
    let mut sep = "\r\n".to_owned();
    sep.append(ARRAY_KEY);
    sep.append("=");
    let mut r = ARRAY_VALUE.to_owned();
    r.append(sep.as_str());
    let ghost head = r@;
    proof {
        reveal_strlit("\r\n");
        reveal_strlit("=");
        assert(sep@ == array_sep());
        assert(fs.subrange(0, 0) =~= Seq::<Seq<char>>::empty());
        assert(r@ =~= head + joined_msgs(fs.subrange(0, 0), array_sep()));
    }
    let mut i: usize = 0;
    while i < files.len()
        invariant
            i <= files@.len(),
            fs == files@.map_values(|s: String| s@),
            sep@ == array_sep(),
            head == ARRAY_VALUE@ + array_sep(),
            r@ == head + joined_msgs(fs.subrange(0, i as int), array_sep()),
        decreases files@.len() - i,
    {
        let ghost before = r@;
        if i > 0 {
            r.append(sep.as_str());
        }
        r.append(files[i].as_str());
        proof {
            let sub = fs.subrange(0, i + 1);
            assert(sub.drop_last() =~= fs.subrange(0, i as int));
            assert(sub.last() == files@[i as int]@);
            if i == 0 {
                assert(joined_msgs(sub, array_sep()) == sub[0]);
                assert(r@ =~= head + joined_msgs(sub, array_sep()));
            } else {
                assert(r@ =~= head + joined_msgs(sub, array_sep()));
            }
        }
        i = i + 1;
    }
    assert(fs.subrange(0, files@.len() as int) =~= fs);
    r
}

/// One `array[]` entry for each path.
pub open spec fn array_lines(files: Seq<Seq<char>>) -> PropsView {
    files.map_values(|f: Seq<char>| (ARRAY_KEY@, f))
}

/// The entries the text of a saved array reads as: `key=array`, then an `array[]`
/// entry for each path.
pub open spec fn array_entries(key: Seq<char>, files: Seq<Seq<char>>) -> PropsView {
    seq![(key, ARRAY_VALUE@)] + array_lines(files)
}

/// The document the text that `save_paths` writes reads as: `ini_set_spec` with the
/// array written out as `array_entries`.
pub open spec fn set_array_spec(v: IniView, name: Option<Seq<char>>, key: Seq<char>, files: Seq<Seq<char>>) -> IniView {
    let i = section_index(v, name);
    if i < v.len() {
        v.update(i, (name, props_without(v[i].1, key) + array_entries(key, files)))
    } else {
        v.push((name, array_entries(key, files)))
    }
}

/// Saving an array in one section leaves another section that is there as it was.
pub proof fn lemma_array_other_section(v: IniView, a: Seq<char>, b: Seq<char>, key: Seq<char>, files: Seq<Seq<char>>)
    requires
        a != b,
        section_of(v, Some(b)) is Some,
    ensures
        section_of(set_array_spec(v, Some(a), key, files), Some(b)) == section_of(v, Some(b)),
{
    lemma_section_index(v, Some(a));
    lemma_section_index(v, Some(b));
    let ia = section_index(v, Some(a));
    let ib = section_index(v, Some(b));
    let w = set_array_spec(v, Some(a), key, files);
    lemma_section_index(w, Some(b));
    assert forall|j: int| 0 <= j < w.len() implies (#[trigger] w[j]).0 == if j < v.len() { v[j].0 } else { Some(a) } by {
        if j < v.len() && j != ia {
            assert(w[j] == v[j]);
        }
    }
    assert(w[ib].0 == Some(b));
    assert(section_index(w, Some(b)) == ib);
    assert(w[ib] == v[ib]);
}

/// The paths after the first, written on lines of their own, are the text of their
/// `array[]` entries.
proof fn lemma_array_lines_text(files: Seq<Seq<char>>)
    requires
        files.len() > 0,
    ensures
        ARRAY_KEY@ + WRITE_SEPARATOR@ + joined_msgs(files, array_sep()) + crlf()
            == write_props(array_lines(files), WRITE_SEPARATOR@),
    decreases files.len(),
{
    reveal_strlit("\r\n");
    let sep = WRITE_SEPARATOR@;
    if files.len() == 1 {
        assert(array_lines(files) =~= seq![(ARRAY_KEY@, files[0])]);
        let one: PropsView = seq![(ARRAY_KEY@, files[0])];
        assert(one.drop_first() =~= PropsView::empty());
        assert(write_props(PropsView::empty(), sep) =~= Seq::<char>::empty());
        assert(write_props(one, sep) =~= ARRAY_KEY@ + sep + files[0] + crlf());
    } else {
        let fs = files.drop_last();
        lemma_array_lines_text(fs);
        let last: PropsView = seq![(ARRAY_KEY@, files.last())];
        assert(array_lines(files) =~= array_lines(fs) + last);
        lemma_write_props_append(array_lines(fs), last, sep);
        assert(last.drop_first() =~= PropsView::empty());
        assert(write_props(PropsView::empty(), sep) =~= Seq::<char>::empty());
        assert(write_props(last, sep) =~= ARRAY_KEY@ + sep + files.last() + crlf());
        assert(joined_msgs(files, array_sep()) == joined_msgs(fs, array_sep()) + array_sep() + files.last());
        assert(array_sep() =~= crlf() + ARRAY_KEY@ + sep);
        assert(ARRAY_KEY@ + sep + joined_msgs(files, array_sep()) + crlf()
            =~= (ARRAY_KEY@ + sep + joined_msgs(fs, array_sep()) + crlf()) + (ARRAY_KEY@ + sep + files.last() + crlf()));
    }
}

/// The text `save_paths` writes is the text of `set_array_spec`: the array goes on one
/// line per path.
pub proof fn saved_array_lines(v: IniView, name: Option<Seq<char>>, key: Seq<char>, files: Seq<Seq<char>>)
    requires
        files.len() > 0,
    ensures
        ini_text(ini_set_spec(v, name, key, array_value(files)), WRITE_SEPARATOR@)
            == ini_text(set_array_spec(v, name, key, files), WRITE_SEPARATOR@),
{
    reveal_strlit("\r\n");
    let sep = WRITE_SEPARATOR@;
    let i = section_index(v, name);
    lemma_section_index(v, name);
    let entry: PropsView = seq![(key, array_value(files))];
    let head: PropsView = seq![(key, ARRAY_VALUE@)];
    assert(entry.drop_first() =~= PropsView::empty());
    assert(head.drop_first() =~= PropsView::empty());
    assert(write_props(PropsView::empty(), sep) =~= Seq::<char>::empty());
    lemma_array_lines_text(files);
    lemma_write_props_append(head, array_lines(files), sep);
    assert(write_props(entry, sep) =~= key + sep + array_value(files) + crlf());
    assert(write_props(head, sep) =~= key + sep + ARRAY_VALUE@ + crlf());
    assert(array_value(files) + crlf() =~= ARRAY_VALUE@ + crlf() + (ARRAY_KEY@ + sep + joined_msgs(files, array_sep()) + crlf()));
    assert(write_props(entry, sep) == write_props(array_entries(key, files), sep));
    let a = ini_set_spec(v, name, key, array_value(files));
    let b = set_array_spec(v, name, key, files);
    if i < v.len() {
        let w = props_without(v[i].1, key);
        lemma_write_props_append(w, entry, sep);
        lemma_write_props_append(w, array_entries(key, files), sep);
        assert(props_insert(v[i].1, key, array_value(files)) =~= w + entry);
        lemma_write_sections_same(a, b, i, sep, false);
    } else {
        assert(a =~= v.push((name, entry)));
        lemma_write_sections_same(a, b, v.len() as int, sep, false);
    }
}

/// saves `files` under `key` as an array: `key=array`, then a line `array[]=path` for
/// every path; gives back the new text of the file
pub fn save_paths(content: &str, section: Option<&str>, key: &str, files: &[String]) -> (r: Result<String, Error>)
    ensures
        set_result(r, set_value_text(content@, crate::ini_store::opt_view(section), key@,
            array_value(files@.map_values(|s: String| s@)), WRITE_SEPARATOR@)),
        text_reads_back(content@),
{
    let value = array_text(files);
    set_in_text(content, section, key, value.as_str(), WRITE_SEPARATOR)
}

/// saves `path` under `key`; gives back the new text of the file
pub fn save_path(content: &str, section: Option<&str>, key: &str, path: &str) -> (r: Result<String, Error>)
    ensures
        set_result(r, set_value_text(content@, crate::ini_store::opt_view(section), key@, path@, WRITE_SEPARATOR@)),
        text_reads_back(content@),
{
    set_in_text(content, section, key, path, WRITE_SEPARATOR)
}

/// The text of a `bool`.
pub open spec fn bool_text(b: bool) -> Seq<char> {
    if b { "true"@ } else { "false"@ }
}

/// saves `value` under `key` as `true` or `false`; gives back the new text of the file
pub fn save_bool(content: &str, section: Option<&str>, key: &str, value: bool) -> (r: Result<String, Error>)
    ensures
        set_result(r, set_value_text(content@, crate::ini_store::opt_view(section), key@, bool_text(value), WRITE_SEPARATOR@)),
        text_reads_back(content@),
{
    let text = if value { "true" } else { "false" };
    set_in_text(content, section, key, text, WRITE_SEPARATOR)
}

/// saves `value` under `key` in the mod loader's file (written with ` = `); gives back
/// the new text of the file
pub fn save_value_ext(content: &str, section: Option<&str>, key: &str, value: &str) -> (r: Result<String, Error>)
    ensures
        set_result(r, set_value_text(content@, crate::ini_store::opt_view(section), key@, value@, EXT_SEPARATOR@)),
{
    set_in_text(content, section, key, value, EXT_SEPARATOR)
}

/// The message of the error when an entry is not there to delete.
pub open spec fn delete_err_msg(key: Seq<char>, section: Seq<char>) -> Seq<char> {
    "Could not delete: "@ + key + ", from Section: "@ + section
}

/// What `remove_entry` makes of `content`: the new text, or the error's kind and message.
pub open spec fn remove_entry_spec(content: Seq<char>, section: Seq<char>, key: Seq<char>) -> Result<Seq<char>, (ErrorKind, Seq<char>)> {
    match ini_parse(content) {
        Err(m) => Err((ErrorKind::InvalidData, m)),
        Ok(v) => {
            let found = match section_of(v, Some(section)) {
                Some(p) => props_get(p, key) is Some,
                None => false,
            };
            if found {
                Ok(ini_text(ini_delete_spec(v, Some(section), key), WRITE_SEPARATOR@))
            } else {
                Err((ErrorKind::Other, delete_err_msg(key, section)))
            }
        },
    }
}

/// `true` when `r` is what `remove_entry_spec` gives.
pub open spec fn removed_result(r: Result<String, Error>, expected: Result<Seq<char>, (ErrorKind, Seq<char>)>) -> bool {
    match r {
        Ok(t) => expected == Ok::<Seq<char>, (ErrorKind, Seq<char>)>(t@),
        Err(e) => expected == Err::<Seq<char>, (ErrorKind, Seq<char>)>((e.kind, e.msg@)),
    }
}

/// removes every entry `key` from `section`; gives back the new text of the file, or an
/// error when there was none
pub fn remove_entry(content: &str, section: Option<&str>, key: &str) -> (r: Result<String, Error>)
    requires
        section is Some,
    ensures
        removed_result(r, remove_entry_spec(content@, section->0@, key@)),
        text_reads_back(content@),
{
    let sec = match section {
        Some(s) => s,
        None => vstd::pervasive::unreached(),
    };
    let mut config = get_cfg(content)?;
    match ini_delete_from(&mut config, section, key) {
        Some(_) => Ok(ini_write(&config, WRITE_SEPARATOR)),
        None => {
            let mut m = concat("Could not delete: ", key);
            m.append(", from Section: ");
            m.append(sec);
            proof {
                reveal_strlit("Could not delete: ");
                reveal_strlit(", from Section: ");
            }
            Err(Error::from_string(ErrorKind::Other, m))
        },
    }
}

/// The message of the error when a mod has no load order.
pub open spec fn no_order_msg(name: Seq<char>) -> Seq<char> {
    replace_char_spec(name, '_', ' ') + " has no order data"@
}

/// removes the load order entry of `entry` from the text of the mod loader's file
pub fn remove_order_entry(entry: &RegMod, content: &str) -> (r: Result<String, Error>)
    requires
        entry.order.set ==> entry.order.i < entry.files.dll@.len(),
    ensures
        !entry.order.set ==> (r matches Err(e) && e.kind == ErrorKind::InvalidInput && e.msg@ == no_order_msg(entry.name@)),
        entry.order.set ==> ({
            let f = entry.files.dll@[entry.order.i as int]@;
            match file_name_spec(f) {
                Some(n) => removed_result(r, remove_entry_spec(content@, LOADER_SECTIONS[1]@, omit_off_state_spec(n))),
                None => r matches Err(e) && e.kind == ErrorKind::InvalidData && e.msg@ == "Could not get file_name"@,
            }
        }),
{
    if !entry.order.set {
        let mut m = replace_char(entry.name.as_str(), '_', ' ');
        m.append(" has no order data");
        proof {
            reveal_strlit(" has no order data");
        }
        return Err(Error::from_string(ErrorKind::InvalidInput, m));
    }
    let file_name = file_name_or_err(entry.files.dll[entry.order.i].as_str())?;
    remove_entry(content, Some(LOADER_SECTIONS[1]), omit_off_state(file_name.as_str()))
}


/// A line without the `\r` that ends it, if any.
pub open spec fn strip_cr(l: Seq<char>) -> Seq<char> {
    if l.len() > 0 && l.last() == '\r' {
        l.drop_last()
    } else {
        l
    }
}

/// The lines of `s` from the line that starts at `start`, scanning from `i`.
pub open spec fn lines_from(s: Seq<char>, start: int, i: int) -> Seq<Seq<char>>
    decreases s.len() - i,
{
    if i < start || i >= s.len() {
        if 0 <= start < s.len() {
            seq![s.subrange(start, s.len() as int)]
        } else {
            Seq::empty()
        }
    } else if s[i] == '\n' {
        seq![strip_cr(s.subrange(start, i))] + lines_from(s, i + 1, i + 1)
    } else {
        lines_from(s, start, i + 1)
    }
}

/// `str::lines`: the text between `\n`s, each line without its `\n` and the `\r` before
/// it; a final `\n` ends the last line rather than starting an empty one.
pub open spec fn lines_spec(s: Seq<char>) -> Seq<Seq<char>> {
    lines_from(s, 0, 0)
}

/// `true` when `s` starts with `p`.
pub open spec fn starts_with_spec(s: Seq<char>, p: Seq<char>) -> bool {
    crate::text::occurs_at(s, p, 0)
}

/// `true` when `s` ends with `p`.
pub open spec fn ends_with_spec(s: Seq<char>, p: Seq<char>) -> bool {
    crate::text::occurs_at(s, p, s.len() - p.len())
}

/// The lines `remove_array` keeps: a line that starts with `key` and ends with `array`
/// starts a run of dropped lines, which goes on while the lines start with `array[]`.
pub open spec fn keep_lines(ls: Seq<Seq<char>>, key: Seq<char>, skipping: bool) -> Seq<Seq<char>>
    decreases ls.len(),
{
    if ls.len() == 0 {
        Seq::empty()
    } else {
        let l = ls[0];
        let s1 = skipping && starts_with_spec(l, ARRAY_KEY@);
        let s2 = s1 || (starts_with_spec(l, key) && ends_with_spec(l, ARRAY_VALUE@));
        let rest = keep_lines(ls.drop_first(), key, s2);
        if s2 {
            rest
        } else {
            seq![l] + rest
        }
    }
}

/// The text `remove_array` gives back.
pub open spec fn remove_array_spec(content: Seq<char>, key: Seq<char>) -> Seq<char> {
    joined_msgs(keep_lines(lines_spec(content), key, false), "\r\n"@)
}

/// the lines of `s` (`str::lines`)
fn lines_of(s: &str) -> (r: Vec<String>)
    ensures
        r@.map_values(|l: String| l@) == lines_spec(s@),
{
    let c = chars_of(s);
    let ghost sv = s@;
    let mut r: Vec<String> = Vec::new();
    let mut start: usize = 0;
    let mut i: usize = 0;
    assert(r@.map_values(|l: String| l@) =~= Seq::<Seq<char>>::empty());
    while i < c.len()
        invariant
            c@ == sv,
            start <= i <= c@.len(),
            lines_spec(sv) == r@.map_values(|l: String| l@) + lines_from(sv, start as int, i as int),
        decreases c@.len() - i,
    {
        if c[i] == '\n' {
            let end = if i > start && c[i - 1] == '\r' { i - 1 } else { i };
            let line = string_of(&c, start, end);
            let ghost before = r@.map_values(|l: String| l@);
            proof {
                let whole = sv.subrange(start as int, i as int);
                if i > start && c@[i - 1] == '\r' {
                    assert(whole.drop_last() =~= sv.subrange(start as int, end as int));
                } else {
                    assert(whole =~= sv.subrange(start as int, end as int));
                }
                assert(line@ == strip_cr(whole));
            }
            r.push(line);
            proof {
                let tail = lines_from(sv, (i + 1) as int, (i + 1) as int);
                assert(r@.map_values(|l: String| l@) =~= before.push(line@));
                assert(before + (seq![line@] + tail) =~= before.push(line@) + tail);
            }
            start = i + 1;
        }
        i = i + 1;
    }
    if start < c.len() {
        let line = string_of(&c, start, c.len());
        let ghost before = r@.map_values(|l: String| l@);
        r.push(line);
        assert(r@.map_values(|l: String| l@) =~= before.push(line@));
        assert(before + seq![line@] =~= before.push(line@));
    } else {
        assert(r@.map_values(|l: String| l@) + lines_from(sv, start as int, i as int) =~= r@.map_values(|l: String| l@));
    }
    r
}

/// `true` when the characters `l` end with `p`.
fn ends_with_chars(l: &Vec<char>, p: &Vec<char>) -> (r: bool)
    ensures
        r == ends_with_spec(l@, p@),
{
    if p.len() > l.len() {
        return false;
    }
    occurs_at_exec(l, p, l.len() - p.len())
}

/// removes the array saved under `key` (the line `key=array` and the `array[]` lines
/// after it) from the text of a configuration file; the kept lines are joined by CRLF
pub fn remove_array(content: &str, key: &str) -> (r: String)
    ensures
        r@ == remove_array_spec(content@, key@),
{
    let lines = lines_of(content);
    let ghost ls = lines@.map_values(|l: String| l@);
    let kc = chars_of(key);
    let ak = chars_of(ARRAY_KEY);
    let av = chars_of(ARRAY_VALUE);
    let mut skipping = false;
    let mut kept: Vec<String> = Vec::new();
    let mut i: usize = 0;
    assert(ls.subrange(0, ls.len() as int) =~= ls);
    assert(kept@.map_values(|l: String| l@) =~= Seq::<Seq<char>>::empty());
    while i < lines.len()
        invariant
            i <= lines@.len(),
            ls == lines@.map_values(|l: String| l@),
            kc@ == key@,
            ak@ == ARRAY_KEY@,
            av@ == ARRAY_VALUE@,
            keep_lines(ls, key@, false) == kept@.map_values(|l: String| l@)
                + keep_lines(ls.subrange(i as int, ls.len() as int), key@, skipping),
        decreases lines@.len() - i,
    {
        let lc = chars_of(lines[i].as_str());
        let ghost rest = ls.subrange(i as int, ls.len() as int);
        assert(rest[0] == lc@);
        assert(rest.drop_first() =~= ls.subrange(i + 1, ls.len() as int));
        let s1 = skipping && occurs_at_exec(&lc, &ak, 0);
        skipping = s1 || (occurs_at_exec(&lc, &kc, 0) && ends_with_chars(&lc, &av));
        if !skipping {
            let ghost before = kept@.map_values(|l: String| l@);
            kept.push(lines[i].clone());
            proof {
                assert(kept@.map_values(|l: String| l@) =~= before.push(lc@));
                let tail = keep_lines(ls.subrange(i + 1, ls.len() as int), key@, skipping);
                assert(before + (seq![lc@] + tail) =~= before.push(lc@) + tail);
            }
        }
        i = i + 1;
    }
    let ghost ks = kept@.map_values(|l: String| l@);
    assert(keep_lines(ls.subrange(lines@.len() as int, ls.len() as int), key@, skipping) =~= Seq::<Seq<char>>::empty());
    assert(ks + Seq::<Seq<char>>::empty() =~= ks);
    let mut r = String::new();
    let mut j: usize = 0;
    proof {
        reveal_strlit("\r\n");
        assert(ks.subrange(0, 0) =~= Seq::<Seq<char>>::empty());
    }
    while j < kept.len()
        invariant
            j <= kept@.len(),
            ks == kept@.map_values(|l: String| l@),
            r@ == joined_msgs(ks.subrange(0, j as int), "\r\n"@),
        decreases kept@.len() - j,
    {
        if j > 0 {
            r.append("\r\n");
        }
        r.append(kept[j].as_str());
        proof {
            reveal_strlit("\r\n");
            let sub = ks.subrange(0, j + 1);
            assert(sub.drop_last() =~= ks.subrange(0, j as int));
            assert(sub.last() == kept@[j as int]@);
            if j == 0 {
                assert(joined_msgs(sub, "\r\n"@) == sub[0]);
                assert(r@ =~= sub[0]);
            }
        }
        j = j + 1;
    }
    assert(ks.subrange(0, kept@.len() as int) =~= ks);
    r
}


/// The first `n` default entries, each on a line `key{sep}value`.
pub open spec fn kv_lines(keys: Seq<Seq<char>>, values: Seq<Seq<char>>, sep: Seq<char>, n: int) -> Seq<char>
    decreases n,
{
    if n <= 0 {
        Seq::empty()
    } else {
        kv_lines(keys, values, sep, n - 1) + keys[n - 1] + sep + values[n - 1] + seq!['\n']
    }
}

/// The text of a new configuration file, up to its `n`-th section: a line `[section]`
/// for each, the first followed by its default entries.
pub open spec fn default_text(sections: Seq<Seq<char>>, keys: Seq<Seq<char>>, values: Seq<Seq<char>>, sep: Seq<char>, n: int) -> Seq<char>
    decreases n,
{
    if n <= 0 {
        Seq::empty()
    } else {
        default_text(sections, keys, values, sep, n - 1) + seq!['['] + sections[n - 1] + seq![']', '\n'] + if n == 1 {
            kv_lines(keys, values, sep, values.len() as int)
        } else {
            Seq::empty()
        }
    }
}

/// writes the sections, and the default entries after the first, as the text of a new
/// configuration file
fn init_default_values(sections: &[&str], keys: &[&str], values: &[&str], sep: &str) -> (r: String)
    requires
        values@.len() <= keys@.len(),
    ensures
        r@ == default_text(crate::files::strs_view(sections@), crate::files::strs_view(keys@),
            crate::files::strs_view(values@), sep@, sections@.len() as int),
{
    let ghost sv = crate::files::strs_view(sections@);
    let ghost kv = crate::files::strs_view(keys@);
    let ghost vv = crate::files::strs_view(values@);
    let mut r = String::new();
    let mut i: usize = 0;
    proof {
        reveal_strlit("[");
        reveal_strlit("]\n");
        reveal_strlit("\n");
    }
    while i < sections.len()
        invariant
            i <= sections@.len(),
            values@.len() <= keys@.len(),
            sv == crate::files::strs_view(sections@),
            kv == crate::files::strs_view(keys@),
            vv == crate::files::strs_view(values@),
            r@ == default_text(sv, kv, vv, sep@, i as int),
        decreases sections@.len() - i,
    {
        let ghost before = r@;
        r.append("[");
        r.append(sections[i]);
        r.append("]\n");
        proof {
            reveal_strlit("[");
            reveal_strlit("]\n");
            assert(sv[i as int] == sections@[i as int]@);
        }
        if i == 0 {
            let ghost head = r@;
            let mut j: usize = 0;
            while j < values.len()
                invariant
                    j <= values@.len(),
                    values@.len() <= keys@.len(),
                    kv == crate::files::strs_view(keys@),
                    vv == crate::files::strs_view(values@),
                    r@ == head + kv_lines(kv, vv, sep@, j as int),
                decreases values@.len() - j,
            {
                r.append(keys[j]);
                r.append(sep);
                r.append(values[j]);
                r.append("\n");
                proof {
                    reveal_strlit("\n");
                    assert(kv[j as int] == keys@[j as int]@);
                    assert(vv[j as int] == values@[j as int]@);
                    assert(r@ =~= head + kv_lines(kv, vv, sep@, j + 1));
                }
                j = j + 1;
            }
            assert(r@ =~= default_text(sv, kv, vv, sep@, i + 1));
        } else {
            assert(r@ =~= default_text(sv, kv, vv, sep@, i + 1));
        }
        i = i + 1;
    }
    r
}

/// The text of a new configuration file of the app.
pub open spec fn ini_defaults() -> Seq<char> {
    default_text(crate::files::strs_view(INI_SECTIONS@), crate::files::strs_view(INI_KEYS@),
        seq![bool_text(DEFAULT_INI_VALUES[0]), bool_text(DEFAULT_INI_VALUES[1])], WRITE_SEPARATOR@, 4)
}

/// The text of a new configuration file of the mod loader.
pub open spec fn loader_defaults() -> Seq<char> {
    default_text(crate::files::strs_view(LOADER_SECTIONS@), crate::files::strs_view(LOADER_KEYS@),
        crate::files::strs_view(DEFAULT_LOADER_VALUES@), EXT_SEPARATOR@, 2)
}

/// `true` when `new_cfg` knows the defaults of the file at `path`, or fails before it
/// needs them.
pub open spec fn new_cfg_known(path: Seq<char>) -> bool {
    (file_name_spec(path) is Some && parent_spec(path) is Some) ==> (file_name_spec(path)->0 == INI_NAME@
        || file_name_spec(path)->0 == LOADER_FILES[3]@)
}

/// What `new_cfg` gives for `path`.
pub open spec fn new_cfg_spec(path: Seq<char>, r: Result<String, Error>) -> bool {
    match r {
        Ok(t) => file_name_spec(path) is Some && parent_spec(path) is Some
            && t@ == if file_name_spec(path)->0 == INI_NAME@ { ini_defaults() } else { loader_defaults() },
        Err(e) => e.kind == ErrorKind::InvalidData && if file_name_spec(path) is None {
            e.msg@ == "Could not get file_name"@
        } else {
            parent_spec(path) is None && e.msg@ == "Could not get parent_dir"@
        },
    }
}

/// The text of a new configuration file at `path`, by its file name; the caller creates
/// the parent directory and writes the text. Errors when `path` has no file name or
/// no parent
pub fn new_cfg(path: &str) -> (r: Result<String, Error>)
    requires
        new_cfg_known(path@),
    ensures
        new_cfg_spec(path@, r),
{
    let file_name = file_name_or_err(path)?;
    let _parent = parent_or_err(path)?;
    if crate::text::str_eq(file_name.as_str(), INI_NAME) {
        let defaults: [&str; 2] = [
            if DEFAULT_INI_VALUES[0] { "true" } else { "false" },
            if DEFAULT_INI_VALUES[1] { "true" } else { "false" },
        ];
        let r = init_default_values(&INI_SECTIONS, &INI_KEYS, &defaults, WRITE_SEPARATOR);
        assert(crate::files::strs_view(defaults@) =~= seq![bool_text(DEFAULT_INI_VALUES[0]), bool_text(DEFAULT_INI_VALUES[1])]);
        Ok(r)
    } else {
        let r = init_default_values(&LOADER_SECTIONS, &LOADER_KEYS, &DEFAULT_LOADER_VALUES, EXT_SEPARATOR);
        Ok(r)
    }
}


/// The text `reset_cfg` gives from the new file's text `t0`: the theme and the logging
/// setting saved where they differ from the defaults, then the game directory.
pub open spec fn reset_steps(t0: Seq<char>, dark_mode: bool, save_log: bool, game_dir: Seq<char>) -> Result<Seq<char>, Seq<char>> {
    let t1 = if dark_mode != DEFAULT_INI_VALUES[0] {
        set_value_text(t0, Some(INI_SECTIONS[0]@), INI_KEYS[0]@, bool_text(dark_mode), WRITE_SEPARATOR@)
    } else {
        Ok(t0)
    };
    match t1 {
        Err(m) => Err(m),
        Ok(a) => {
            let t2 = if save_log != DEFAULT_INI_VALUES[1] {
                set_value_text(a, Some(INI_SECTIONS[0]@), INI_KEYS[1]@, bool_text(save_log), WRITE_SEPARATOR@)
            } else {
                Ok(a)
            };
            match t2 {
                Err(m) => Err(m),
                Ok(b) => set_value_text(b, Some(INI_SECTIONS[1]@), INI_KEYS[2]@, game_dir, WRITE_SEPARATOR@),
            }
        },
    }
}

/// the text the app's configuration file at `path` starts over from before a scan: a
/// new file that keeps the theme, the logging setting and the game directory
pub fn reset_cfg(path: &str, dark_mode: bool, save_log: bool, game_dir: &str) -> (r: Result<String, Error>)
    requires
        new_cfg_known(path@),
    ensures
        match r {
            Ok(t) => exists|t0: String| new_cfg_spec(path@, Ok::<String, Error>(t0))
                && reset_steps(t0@, dark_mode, save_log, game_dir@) == Ok::<Seq<char>, Seq<char>>(t@),
            Err(e) => new_cfg_spec(path@, Err::<String, Error>(e))
                || exists|t0: String| new_cfg_spec(path@, Ok::<String, Error>(t0)) && e.kind == ErrorKind::InvalidData
                    && reset_steps(t0@, dark_mode, save_log, game_dir@) == Err::<Seq<char>, Seq<char>>(e.msg@),
        },
{
    let t0 = match new_cfg(path) {
        Ok(t) => t,
        Err(e) => return Err(e),
    };
    let ghost g0 = t0;
    let t1 = if dark_mode != DEFAULT_INI_VALUES[0] {
        match save_bool(t0.as_str(), Some(INI_SECTIONS[0]), INI_KEYS[0], dark_mode) {
            Ok(t) => t,
            Err(e) => return Err(e),
        }
    } else {
        t0
    };
    let t2 = if save_log != DEFAULT_INI_VALUES[1] {
        match save_bool(t1.as_str(), Some(INI_SECTIONS[0]), INI_KEYS[1], save_log) {
            Ok(t) => t,
            Err(e) => return Err(e),
        }
    } else {
        t1
    };
    save_path(t2.as_str(), Some(INI_SECTIONS[1]), INI_KEYS[2], game_dir)
}

/// Where the configuration comes from: the file as it is, or a new file with this text.
#[derive(Debug)]
pub enum CfgSource {
    Existing(::ini::Ini),
    New(String),
}

/// `true` when reading the file gave a document with all `sections`.
pub open spec fn setup_ok(content: Result<String, Error>, sections: Seq<Seq<char>>) -> bool {
    match content {
        Ok(c) => match ini_parse(c@) {
            Ok(v) => missing_sections(v, sections).len() == 0,
            Err(_) => false,
        },
        Err(_) => false,
    }
}

/// the configuration at `from_path` when it `is_setup` (`content` is what reading the
/// file gave), else the text of a new one (`new_cfg`) for the caller to write
pub fn get_or_setup_cfg(from_path: &str, content: Result<String, Error>, sections: &[&str]) -> (r: Result<CfgSource, Error>)
    requires
        is_ini_path(from_path@),
        new_cfg_known(from_path@),
    ensures
        setup_ok(content, crate::files::strs_view(sections@)) ==> (r matches Ok(CfgSource::Existing(ini))
            && ini_parse(content->Ok_0@) == Ok::<IniView, Seq<char>>(ini_sections(ini))),
        !setup_ok(content, crate::files::strs_view(sections@)) ==> match r {
            Ok(CfgSource::New(t)) => new_cfg_spec(from_path@, Ok::<String, Error>(t)),
            Err(e) => new_cfg_spec(from_path@, Err::<String, Error>(e)),
            Ok(CfgSource::Existing(_)) => false,
        },
{
    match from_path.is_setup(content, sections) {
        Ok(ini) => {
            return Ok(CfgSource::Existing(ini));
        },
        Err(_) => {},
    }
    match new_cfg(from_path) {
        Ok(t) => Ok(CfgSource::New(t)),
        Err(e) => Err(e),
    }
}

} // verus!
