//! Reading typed values out of an INI document, and the registered-mod data model.
use vstd::prelude::*;
use crate::collections::OrderMap;
use crate::error::{ModError, bool_err_msg, int_err_msg, Error, ErrorKind, IntoIoError, ParseBoolError, ParseIntError};
use crate::files::{toggle_name_spec, toggle_name_state, state_data_spec, file_data_spec, has_extension, omit_off_state, omit_off_state_spec, strings_view, FileData};
use crate::ini_store::{
    ini_section, ini_sections, key_index, lemma_key_index_concat, lemma_section_index,
    lemma_section_index_push, lemma_section_update, lemma_without_no_key, lemma_without_plain,
    plain_header, plain_key, plain_name, plain_doc, plain_props, plain_value, props_contains_key,
    props_get, props_get_value, props_has, props_pairs, props_entries, props_without, section_index,
    section_of, IniView, PropsView,
};
use crate::ini_store::ini_text;
use crate::paths::{file_name, file_name_spec};
use crate::text::{lowercase, parse_u32, parse_unsigned, replace_char, replace_char_spec, str_eq, to_lowercase, trim, trim_spec};
use crate::{ARRAY_KEY, ARRAY_VALUE, INI_SECTIONS};
use crate::ini_store::ini_parse;
use crate::text::{ascii_lowercase, concat, decimal, is_ascii_text};
use crate::ini_store::ini_set_spec;
use crate::utils::display::{item_texts, list_text, DisplayVec};
use crate::utils::ini::writer::{
    array_entries, array_lines, saved_array_lines, set_array_spec,
    array_value, bool_text, get_cfg, remove_array, remove_array_spec, remove_entry, remove_entry_spec,
    removed_result, save_bool, save_path, save_paths, set_result, set_value_text, WRITE_SEPARATOR,
};
use crate::utils::ini::writer::{ends_with_spec, keep_lines, lines_spec, starts_with_spec};
use crate::error::joined_msgs;
use crate::utils::ini::common::{Cfg, Config};
use crate::collections::StrSet;

verus! {

/// An error seen as its kind and message.
pub open spec fn err_view(e: Error) -> (ErrorKind, Seq<char>) {
    (e.kind, e.msg@)
}

pub open spec fn opt_seq(o: Option<&str>) -> Option<Seq<char>> {
    match o {
        Some(s) => Some(s@),
        None => None,
    }
}

/// The message given when a section is missing.
pub open spec fn section_missing_msg(section: Seq<char>) -> Seq<char> {
    "Section: \""@ + section + "\" not found in ini."@
}

/// The message given when a key is missing.
pub open spec fn key_missing_msg(key: Seq<char>) -> Seq<char> {
    "Key: \""@ + key + "\" not found in ini."@
}

/// The message given when a single path is read where an array is stored.
pub open spec fn expected_path_msg() -> Seq<char> {
    "Invalid type found. Expected: Path, Found: Vec<Path>"@
}

/// The message given when an array of paths is read where a single path is stored.
pub open spec fn expected_paths_msg() -> Seq<char> {
    "Invalid type found. Expected: Vec<Path>, Found: Path"@
}

/// `true` when reading from `section` is defined: a named section, or a general section
/// that is there.
pub open spec fn section_named_or_present(v: IniView, section: Option<Seq<char>>) -> bool {
    section is Some || section_of(v, section) is Some
}

/// `IniProperty::is_valid` before parsing: the value stored under `key`, or the error
/// for a missing section or key.
pub open spec fn lookup_spec(v: IniView, section: Option<Seq<char>>, key: Seq<char>) -> Result<Seq<char>, (ErrorKind, Seq<char>)> {
    match section_of(v, section) {
        None => Err((ErrorKind::NotFound, section_missing_msg(section->0))),
        Some(p) => if props_has(p, key) {
            Ok(props_get(p, key)->0)
        } else {
            Err((ErrorKind::NotFound, key_missing_msg(key)))
        },
    }
}

proof fn lemma_key_index(p: PropsView, k: Seq<char>)
    ensures
        0 <= key_index(p, k) <= p.len(),
        key_index(p, k) < p.len() ==> p[key_index(p, k)].0 == k,
        forall|j: int| 0 <= j < key_index(p, k) ==> p[j].0 != k,
    decreases p.len(),
{
    if p.len() > 0 && p[0].0 != k {
        lemma_key_index(p.drop_first(), k);
        assert forall|j: int| 0 <= j < key_index(p, k) implies p[j].0 != k by {
            if j > 0 {
                assert(p[j] == p.drop_first()[j - 1]);
            }
        }
    }
}

/// `props_has` and `props_get` agree.
pub proof fn lemma_props_get_has(p: PropsView, k: Seq<char>)
    ensures
        props_has(p, k) <==> props_get(p, k) is Some,
{
    lemma_key_index(p, k);
    if props_has(p, k) {
        let j = choose|j: int| 0 <= j < p.len() && #[trigger] p[j].0 == k;
        assert(key_index(p, k) <= j);
    }
    if props_get(p, k) is Some {
        assert(p[key_index(p, k)].0 == k);
    }
}

/// The value of `key` in the section named `section`, or the error for a missing
/// section or key.
fn lookup<'a>(ini: &'a ::ini::Ini, section: Option<&str>, key: &str) -> (r: Result<&'a str, Error>)
    requires
        section_named_or_present(ini_sections(*ini), opt_seq(section)),
    ensures
        match r {
            Ok(s) => lookup_spec(ini_sections(*ini), opt_seq(section), key@) == Ok::<Seq<char>, (ErrorKind, Seq<char>)>(s@),
            Err(e) => lookup_spec(ini_sections(*ini), opt_seq(section), key@) == Err::<Seq<char>, (ErrorKind, Seq<char>)>(err_view(e)),
        },
{
    match ini_section(ini, section) {
        Some(s) => {
            if props_contains_key(s, key) {
                proof {
                    lemma_props_get_has(props_entries(*s), key@);
                }
                match props_get_value(s, key) {
                    Some(v) => Ok(v),
                    None => {
                        assert(false);
                        Err(Error::new(ErrorKind::NotFound, key))
                    },
                }
            } else {
                let mut m = "Key: \"".to_owned();
                m.append(key);
                m.append("\" not found in ini.");
                Err(Error::from_string(ErrorKind::NotFound, m))
            }
        },
        None => {
            let name = match section {
                Some(n) => n,
                None => {
                    assert(false);
                    ""
                },
            };
            let mut m = "Section: \"".to_owned();
            m.append(name);
            m.append("\" not found in ini.");
            Err(Error::from_string(ErrorKind::NotFound, m))
        },
    }
}

/// `parse_bool`: `0` and `1`, and `true` and `false` in any case.
pub open spec fn parse_bool_spec(s: Seq<char>) -> Option<bool> {
    if s == seq!['0'] {
        Some(false)
    } else if s == seq!['1'] {
        Some(true)
    } else if lowercase(s) == "true"@ {
        Some(true)
    } else if lowercase(s) == "false"@ {
        Some(false)
    } else {
        None
    }
}

/// reads `0`, `1`, `true` or `false` (in any case) as a `bool`
pub fn parse_bool(s: &str) -> (r: Result<bool, ParseBoolError>)
    ensures
        match r {
            Ok(b) => parse_bool_spec(s@) == Some(b),
            Err(_) => parse_bool_spec(s@) is None,
        },
{
    proof {
        reveal_strlit("0");
        reveal_strlit("1");
        assert("0"@ =~= seq!['0']);
        assert("1"@ =~= seq!['1']);
    }
    if str_eq(s, "0") {
        return Ok(false);
    }
    if str_eq(s, "1") {
        return Ok(true);
    }
    let low = to_lowercase(s);
    if str_eq(low.as_str(), "true") {
        Ok(true)
    } else if str_eq(low.as_str(), "false") {
        Ok(false)
    } else {
        Err(ParseBoolError)
    }
}

/// What reading a `bool` gives: the parsed value, or the error.
pub open spec fn read_bool_spec(v: IniView, section: Option<Seq<char>>, key: Seq<char>) -> Result<bool, (ErrorKind, Seq<char>)> {
    match lookup_spec(v, section, key) {
        Ok(s) => match parse_bool_spec(s) {
            Some(b) => Ok(b),
            None => Err((ErrorKind::InvalidData, bool_err_msg(key, s))),
        },
        Err(e) => Err(e),
    }
}

/// What reading a `u32` gives: the parsed value, or the error.
pub open spec fn read_u32_spec(v: IniView, section: Option<Seq<char>>, key: Seq<char>) -> Result<u32, (ErrorKind, Seq<char>)> {
    match lookup_spec(v, section, key) {
        Ok(s) => match parse_unsigned(s, u32::MAX as nat) {
            Some(n) => Ok(n as u32),
            None => Err((ErrorKind::InvalidData, int_err_msg(key, s))),
        },
        Err(e) => Err(e),
    }
}

/// What reading a single path gives: the stored text, unless it marks an array.
pub open spec fn read_path_spec(v: IniView, section: Option<Seq<char>>, key: Seq<char>) -> Result<Seq<char>, (ErrorKind, Seq<char>)> {
    match lookup_spec(v, section, key) {
        Ok(s) => if s == "array"@ {
            Err((ErrorKind::InvalidData, expected_path_msg()))
        } else {
            Ok(s)
        },
        Err(e) => Err(e),
    }
}

/// The first index at or after `i` whose key is not `k`.
pub open spec fn skip_key(p: PropsView, i: int, k: Seq<char>) -> int
    decreases p.len() - i,
{
    if i < 0 || i >= p.len() {
        i
    } else if p[i].0 == k {
        skip_key(p, i + 1, k)
    } else {
        i
    }
}

/// The values of the `array[]` entries that follow the entries with key `key`
/// (`skip_while(k != key).skip_while(k == key).take_while(k == "array[]")`).
pub open spec fn read_array_spec(p: PropsView, key: Seq<char>) -> Seq<Seq<char>> {
    let a = key_index(p, key);
    let b = skip_key(p, a, key);
    let c = array_end(p, b);
    p.subrange(b, c).map_values(|e: (Seq<char>, Seq<char>)| e.1)
}

/// The first index at or after `i` whose key is not `array[]`.
pub open spec fn array_end(p: PropsView, i: int) -> int
    decreases p.len() - i,
{
    if i < 0 || i >= p.len() {
        i
    } else if p[i].0 == "array[]"@ {
        array_end(p, i + 1)
    } else {
        i
    }
}

/// What reading an array of paths gives: the array entries after `key`, when `key`
/// holds the array marker.
pub open spec fn read_paths_spec(v: IniView, section: Option<Seq<char>>, key: Seq<char>) -> Result<Seq<Seq<char>>, (ErrorKind, Seq<char>)> {
    match lookup_spec(v, section, key) {
        Ok(s) => if s == "array"@ {
            Ok(read_array_spec(section_of(v, section)->0, key))
        } else {
            Err((ErrorKind::InvalidData, expected_paths_msg()))
        },
        Err(e) => Err(e),
    }
}

/// A value read from an INI document.
pub trait Parsable: Sized {
}

impl Parsable for bool {
}

impl Parsable for u32 {
}

impl Parsable for String {
}

impl Parsable for Vec<String> {
}

#[derive(Debug)]
pub struct IniProperty<T: Parsable> {
    pub value: T,
}

impl IniProperty<bool> {
    /// reads and parses a `bool` from a given Ini
    pub fn read(ini: &::ini::Ini, section: Option<&str>, key: &str) -> (r: Result<IniProperty<bool>, Error>)
        requires
            section_named_or_present(ini_sections(*ini), opt_seq(section)),
        ensures
            match r {
                Ok(p) => read_bool_spec(ini_sections(*ini), opt_seq(section), key@) == Ok::<bool, (ErrorKind, Seq<char>)>(p.value),
                Err(e) => read_bool_spec(ini_sections(*ini), opt_seq(section), key@) == Err::<bool, (ErrorKind, Seq<char>)>(err_view(e)),
            },
    {
        let s = match lookup(ini, section, key) {
            Ok(s) => s,
            Err(e) => return Err(e),
        };
        match parse_bool(s) {
            Ok(b) => Ok(IniProperty { value: b }),
            Err(err) => Err(err.into_io_error(key, s)),
        }
    }
}

impl IniProperty<u32> {
    /// reads and parses a `u32` from a given Ini
    pub fn read(ini: &::ini::Ini, section: Option<&str>, key: &str) -> (r: Result<IniProperty<u32>, Error>)
        requires
            section_named_or_present(ini_sections(*ini), opt_seq(section)),
        ensures
            match r {
                Ok(p) => read_u32_spec(ini_sections(*ini), opt_seq(section), key@) == Ok::<u32, (ErrorKind, Seq<char>)>(p.value),
                Err(e) => read_u32_spec(ini_sections(*ini), opt_seq(section), key@) == Err::<u32, (ErrorKind, Seq<char>)>(err_view(e)),
            },
    {
        let s = match lookup(ini, section, key) {
            Ok(s) => s,
            Err(e) => return Err(e),
        };
        match parse_u32(s) {
            Some(n) => Ok(IniProperty { value: n }),
            None => Err(ParseIntError.into_io_error(key, s)),
        }
    }
}

/// `true` when a path may be read from `section` with or without a prefix: paths in
/// "paths" are full paths and take none, paths in "mod-files" are partial and need one.
pub open spec fn path_prefix_fits(section: Option<Seq<char>>, has_prefix: bool) -> bool {
    &&& !(section == Some("paths"@) && has_prefix)
    &&& !(section == Some("mod-files"@) && !has_prefix)
}

impl IniProperty<String> {
    /// reads a path from a given Ini
    /// **Important:**
    /// - When reading a full length path, e.g. from Section: "paths", you _must not_ give a `path_prefix`
    /// - When reading a partial path, e.g. from Section: "mod-files", you _must_ give a `path_prefix`
    ///
    /// The path is read as stored; checking it against the disk is left to the caller.
    pub fn read(ini: &::ini::Ini, section: Option<&str>, key: &str, path_prefix: Option<&str>) -> (r: Result<IniProperty<String>, Error>)
        requires
            section_named_or_present(ini_sections(*ini), opt_seq(section)),
            path_prefix_fits(opt_seq(section), path_prefix is Some),
        ensures
            match r {
                Ok(p) => read_path_spec(ini_sections(*ini), opt_seq(section), key@) == Ok::<Seq<char>, (ErrorKind, Seq<char>)>(p.value@),
                Err(e) => read_path_spec(ini_sections(*ini), opt_seq(section), key@) == Err::<Seq<char>, (ErrorKind, Seq<char>)>(err_view(e)),
            },
    {
        let s = match lookup(ini, section, key) {
            Ok(s) => s,
            Err(e) => return Err(e),
        };
        proof {
            reveal_strlit("array");
        }
        if str_eq(s, ARRAY_VALUE) {
            return Err(Error::new(ErrorKind::InvalidData, "Invalid type found. Expected: Path, Found: Vec<Path>"));
        }
        Ok(IniProperty { value: s.to_owned() })
    }
}

proof fn lemma_skip_key(p: PropsView, i: int, k: Seq<char>)
    requires
        0 <= i <= p.len(),
    ensures
        i <= skip_key(p, i, k) <= p.len(),
    decreases p.len() - i,
{
    if i < p.len() && p[i].0 == k {
        lemma_skip_key(p, i + 1, k);
    }
}

proof fn lemma_array_end(p: PropsView, i: int)
    requires
        0 <= i <= p.len(),
    ensures
        i <= array_end(p, i) <= p.len(),
    decreases p.len() - i,
{
    if i < p.len() && p[i].0 == "array[]"@ {
        lemma_array_end(p, i + 1);
    }
}

/// The values of the `array[]` entries that follow `key` in a section.
fn read_array(section: &::ini::Properties, key: &str) -> (r: Vec<String>)
    ensures
        strings_view(r@) == read_array_spec(props_entries(*section), key@),
{
    let pairs = props_pairs(section);
    let ghost p = props_entries(*section);
    let n = pairs.len();
    let mut a: usize = 0;
    proof {
        lemma_key_index(p, key@);
    }
    while a < n && !str_eq(pairs[a].0, key)
        invariant
            n == p.len(),
            pairs@.len() == n,
            forall|i: int| 0 <= i < n ==> (#[trigger] pairs@[i]).0@ == p[i].0 && pairs@[i].1@ == p[i].1,
            a <= key_index(p, key@),
        decreases n - a,
    {
        proof {
            lemma_key_index(p, key@);
        }
        a = a + 1;
    }
    assert(a == key_index(p, key@));
    let mut b = a;
    while b < n && str_eq(pairs[b].0, key)
        invariant
            n == p.len(),
            pairs@.len() == n,
            forall|i: int| 0 <= i < n ==> (#[trigger] pairs@[i]).0@ == p[i].0 && pairs@[i].1@ == p[i].1,
            a <= b <= n,
            skip_key(p, b as int, key@) == skip_key(p, a as int, key@),
        decreases n - b,
    {
        b = b + 1;
    }
    proof {
        reveal_strlit("array[]");
    }
    let mut c = b;
    let mut r: Vec<String> = Vec::new();
    while c < n && str_eq(pairs[c].0, ARRAY_KEY)
        invariant
            n == p.len(),
            pairs@.len() == n,
            forall|i: int| 0 <= i < n ==> (#[trigger] pairs@[i]).0@ == p[i].0 && pairs@[i].1@ == p[i].1,
            b <= c <= n,
            b == skip_key(p, key_index(p, key@), key@),
            array_end(p, c as int) == array_end(p, b as int),
            strings_view(r@) == p.subrange(b as int, c as int).map_values(|e: (Seq<char>, Seq<char>)| e.1),
        decreases n - c,
    {
        let ghost before = strings_view(r@);
        r.push(pairs[c].1.to_owned());
        assert(strings_view(r@) =~= before.push(p[c as int].1));
        assert(p.subrange(b as int, c + 1).map_values(|e: (Seq<char>, Seq<char>)| e.1)
            =~= p.subrange(b as int, c as int).map_values(|e: (Seq<char>, Seq<char>)| e.1).push(p[c as int].1));
        c = c + 1;
    }
    r
}

impl IniProperty<Vec<String>> {
    /// reads an array of paths from a given Ini
    ///
    /// The paths are read as stored; checking them against the disk is left to the caller.
    pub fn read(ini: &::ini::Ini, section: Option<&str>, key: &str) -> (r: Result<IniProperty<Vec<String>>, Error>)
        requires
            section_named_or_present(ini_sections(*ini), opt_seq(section)),
        ensures
            match r {
                Ok(p) => read_paths_spec(ini_sections(*ini), opt_seq(section), key@) == Ok::<Seq<Seq<char>>, (ErrorKind, Seq<char>)>(strings_view(p.value@)),
                Err(e) => read_paths_spec(ini_sections(*ini), opt_seq(section), key@) == Err::<Seq<Seq<char>>, (ErrorKind, Seq<char>)>(err_view(e)),
            },
    {
        let s = match lookup(ini, section, key) {
            Ok(s) => s,
            Err(e) => return Err(e),
        };
        proof {
            reveal_strlit("array");
        }
        if !str_eq(s, ARRAY_VALUE) {
            return Err(Error::new(ErrorKind::InvalidData, "Invalid type found. Expected: Vec<Path>, Found: Path"));
        }
        match ini_section(ini, section) {
            Some(props) => Ok(IniProperty { value: read_array(props, key) }),
            None => {
                assert(false);
                Err(Error::new(ErrorKind::NotFound, key))
            },
        }
    }
}

/// The extension `FileData::from` finds in a path.
pub open spec fn ext_of(f: Seq<char>) -> Seq<char> {
    file_data_spec(f).1
}

/// Paths whose extension is `.dll`.
pub open spec fn dll_pred() -> spec_fn(Seq<char>) -> bool {
    |f: Seq<char>| ext_of(f) == ".dll"@
}

/// Paths whose extension is `.ini`.
pub open spec fn cfg_pred() -> spec_fn(Seq<char>) -> bool {
    |f: Seq<char>| ext_of(f) == ".ini"@
}

/// Paths with any other extension.
pub open spec fn other_pred() -> spec_fn(Seq<char>) -> bool {
    |f: Seq<char>| ext_of(f) != ".dll"@ && ext_of(f) != ".ini"@
}

/// `true` when every path has an extension `FileData::from` can find.
pub open spec fn all_have_extension(files: Seq<Seq<char>>) -> bool {
    forall|i: int| 0 <= i < files.len() ==> has_extension(#[trigger] files[i])
}

/// Which field of `SplitFiles` a path belongs in.
pub enum Bucket {
    Dll,
    Config,
    Other,
}

/// The bucket of a path, by its extension.
pub open spec fn bucket_spec(f: Seq<char>) -> Bucket {
    if ext_of(f) == ".dll"@ {
        Bucket::Dll
    } else if ext_of(f) == ".ini"@ {
        Bucket::Config
    } else {
        Bucket::Other
    }
}

/// The bucket a path belongs in: `.dll`, `.ini` or anything else.
pub fn get_correct_bucket(entry: &str) -> (b: Bucket)
    requires
        has_extension(entry@),
    ensures
        b == bucket_spec(entry@),
{
    let fd = FileData::from(entry);
    if str_eq(fd.extension, ".dll") {
        Bucket::Dll
    } else if str_eq(fd.extension, ".ini") {
        Bucket::Config
    } else {
        Bucket::Other
    }
}

/// `v.swap_remove(i)`: the last element takes the place of the `i`-th.
pub open spec fn swap_remove_spec<T>(v: Seq<T>, i: int) -> Seq<T> {
    v.update(i, v.last()).drop_last()
}

/// The position of the first `x` in `v`.
pub open spec fn first_pos(v: Seq<Seq<char>>, x: Seq<char>) -> Option<int>
    decreases v.len(),
{
    if v.len() == 0 {
        None
    } else {
        match first_pos(v.drop_last(), x) {
            Some(i) => Some(i),
            None => if v.last() == x {
                Some(v.len() - 1)
            } else {
                None
            },
        }
    }
}

/// The position of the first `x` in `v`.
fn position_of(v: &Vec<String>, x: &str) -> (r: Option<usize>)
    ensures
        match r {
            Some(i) => first_pos(strings_view(v@), x@) == Some(i as int) && i < v@.len(),
            None => first_pos(strings_view(v@), x@) is None,
        },
{
    let mut i: usize = 0;
    while i < v.len()
        invariant
            i <= v@.len(),
            first_pos(strings_view(v@).subrange(0, i as int), x@) is None,
        decreases v@.len() - i,
    {
        assert(strings_view(v@).subrange(0, i + 1).drop_last() =~= strings_view(v@).subrange(0, i as int));
        if str_eq(v[i].as_str(), x) {
            proof {
                lemma_first_pos_prefix(strings_view(v@), i as int + 1, x@);
            }
            return Some(i);
        }
        i = i + 1;
    }
    assert(strings_view(v@).subrange(0, v@.len() as int) =~= strings_view(v@));
    None
}

proof fn lemma_first_pos_prefix(v: Seq<Seq<char>>, k: int, x: Seq<char>)
    requires
        0 <= k <= v.len(),
        first_pos(v.subrange(0, k), x) is Some,
    ensures
        first_pos(v, x) == first_pos(v.subrange(0, k), x),
    decreases v.len() - k,
{
    if k < v.len() {
        assert(v.subrange(0, k + 1).drop_last() =~= v.subrange(0, k));
        lemma_first_pos_prefix(v, k + 1, x);
    } else {
        assert(v.subrange(0, k) =~= v);
    }
}

#[derive(Debug)]
pub struct SplitFiles {
    /// files with extension `.dll` | also possible they end in `.dll.disabled`
    /// saved as short paths with `game_dir` truncated
    pub dll: Vec<String>,
    /// files with extension `.ini`
    /// saved as short paths with `game_dir` truncated
    pub config: Vec<String>,
    /// files with any extension other than `.dll` or `.ini`
    /// saved as short paths with `game_dir` truncated
    pub other: Vec<String>,
}

impl SplitFiles {
    /// sorts files by extension into `dll`, `config` and `other`, keeping their order
    pub fn from(in_files: Vec<String>) -> (r: SplitFiles)
        requires
            all_have_extension(strings_view(in_files@)),
        ensures
            strings_view(r.dll@) == strings_view(in_files@).filter(dll_pred()),
            strings_view(r.config@) == strings_view(in_files@).filter(cfg_pred()),
            strings_view(r.other@) == strings_view(in_files@).filter(other_pred()),
    {
        let mut dll: Vec<String> = Vec::new();
        let mut config: Vec<String> = Vec::new();
        let mut other: Vec<String> = Vec::new();
        let ghost fs = strings_view(in_files@);
        let mut i: usize = 0;
        while i < in_files.len()
            invariant
                i <= in_files@.len(),
                fs == strings_view(in_files@),
                all_have_extension(fs),
                strings_view(dll@) == fs.subrange(0, i as int).filter(dll_pred()),
                strings_view(config@) == fs.subrange(0, i as int).filter(cfg_pred()),
                strings_view(other@) == fs.subrange(0, i as int).filter(other_pred()),
            decreases in_files@.len() - i,
        {
            let f = &in_files[i];
            let ghost sub = fs.subrange(0, i + 1);
            assert(sub.drop_last() =~= fs.subrange(0, i as int));
            assert(sub.last() == f@);
            assert(has_extension(fs[i as int]));
            reveal_with_fuel(Seq::filter, 1);
            proof {
                reveal_strlit(".dll");
                reveal_strlit(".ini");
                assert(".dll"@ != ".ini"@) by {
                    assert(".dll"@[1] != ".ini"@[1]);
                }
            }
            let ghost (d0, c0, o0) = (strings_view(dll@), strings_view(config@), strings_view(other@));
            match get_correct_bucket(f.as_str()) {
                Bucket::Dll => {
                    dll.push(f.clone());
                    assert(strings_view(dll@) =~= d0.push(f@));
                },
                Bucket::Config => {
                    config.push(f.clone());
                    assert(strings_view(config@) =~= c0.push(f@));
                },
                Bucket::Other => {
                    other.push(f.clone());
                    assert(strings_view(other@) =~= o0.push(f@));
                },
            }
            i = i + 1;
        }
        assert(fs.subrange(0, in_files@.len() as int) =~= fs);
        SplitFiles { dll, config, other }
    }

    /// All files: `dll`, then `config`, then `other`.
    pub open spec fn all_files(self) -> Seq<Seq<char>> {
        strings_view(self.dll@) + strings_view(self.config@) + strings_view(self.other@)
    }

    /// returns references to all files
    pub fn file_refs(&self) -> (r: Vec<&str>)
        ensures
            crate::files::strs_view(r@) == self.all_files(),
    {
        let mut r: Vec<&str> = Vec::new();
        push_refs(&mut r, &self.dll);
        push_refs(&mut r, &self.config);
        push_refs(&mut r, &self.other);
        r
    }

    /// returns references to files in `self.dll`
    pub fn dll_refs(&self) -> (r: Vec<&str>)
        ensures
            crate::files::strs_view(r@) == strings_view(self.dll@),
    {
        let mut r: Vec<&str> = Vec::new();
        push_refs(&mut r, &self.dll);
        r
    }

    /// returns references to files in `self.config` and `self.other`
    pub fn other_file_refs(&self) -> (r: Vec<&str>)
        ensures
            crate::files::strs_view(r@) == strings_view(self.config@) + strings_view(self.other@),
    {
        let mut r: Vec<&str> = Vec::new();
        push_refs(&mut r, &self.config);
        push_refs(&mut r, &self.other);
        r
    }

    /// returns references to `files` + `self.config` + `self.other`
    pub fn add_other_files_to_files<'a>(&'a self, files: &'a Vec<String>) -> (r: Vec<&'a str>)
        ensures
            crate::files::strs_view(r@) == strings_view(files@) + strings_view(self.config@) + strings_view(self.other@),
    {
        let mut r: Vec<&str> = Vec::new();
        push_refs(&mut r, files);
        push_refs(&mut r, &self.config);
        push_refs(&mut r, &self.other);
        r
    }

    /// removes and returns entry using `swap_remove`
    pub fn remove(&mut self, path: &str) -> (r: Option<String>)
        requires
            has_extension(path@),
        ensures
            match bucket_spec(path@) {
                Bucket::Dll => remove_in(strings_view(old(self).dll@), strings_view(final(self).dll@), path@, r)
                    && final(self).config@ == old(self).config@ && final(self).other@ == old(self).other@,
                Bucket::Config => remove_in(strings_view(old(self).config@), strings_view(final(self).config@), path@, r)
                    && final(self).dll@ == old(self).dll@ && final(self).other@ == old(self).other@,
                Bucket::Other => remove_in(strings_view(old(self).other@), strings_view(final(self).other@), path@, r)
                    && final(self).dll@ == old(self).dll@ && final(self).config@ == old(self).config@,
            },
    {
        match get_correct_bucket(path) {
            Bucket::Dll => swap_remove_first(&mut self.dll, path),
            Bucket::Config => swap_remove_first(&mut self.config, path),
            Bucket::Other => swap_remove_first(&mut self.other, path),
        }
    }

    /// adds a path to the correct field within `Self`
    pub fn add(&mut self, path: &str)
        requires
            has_extension(path@),
        ensures
            match bucket_spec(path@) {
                Bucket::Dll => strings_view(final(self).dll@) == strings_view(old(self).dll@).push(path@)
                    && final(self).config@ == old(self).config@ && final(self).other@ == old(self).other@,
                Bucket::Config => strings_view(final(self).config@) == strings_view(old(self).config@).push(path@)
                    && final(self).dll@ == old(self).dll@ && final(self).other@ == old(self).other@,
                Bucket::Other => strings_view(final(self).other@) == strings_view(old(self).other@).push(path@)
                    && final(self).dll@ == old(self).dll@ && final(self).config@ == old(self).config@,
            },
    {
        match get_correct_bucket(path) {
            Bucket::Dll => {
                let ghost before = strings_view(self.dll@);
                self.dll.push(path.to_owned());
                assert(strings_view(self.dll@) =~= before.push(path@));
            },
            Bucket::Config => {
                let ghost before = strings_view(self.config@);
                self.config.push(path.to_owned());
                assert(strings_view(self.config@) =~= before.push(path@));
            },
            Bucket::Other => {
                let ghost before = strings_view(self.other@);
                self.other.push(path.to_owned());
                assert(strings_view(self.other@) =~= before.push(path@));
            },
        }
    }

    /// total number of files
    pub fn len(&self) -> (n: usize)
        requires
            self.dll@.len() + self.config@.len() + self.other@.len() <= usize::MAX,
        ensures
            n == self.dll@.len() + self.config@.len() + self.other@.len(),
    {
        self.dll.len() + self.config.len() + self.other.len()
    }

    /// returns true if all fields contain no paths
    pub fn is_empty(&self) -> (r: bool)
        ensures
            r == (self.dll@.len() == 0 && self.config@.len() == 0 && self.other@.len() == 0),
    {
        self.dll.len() == 0 && self.config.len() == 0 && self.other.len() == 0
    }

    /// number of `config` and `other`
    pub fn other_files_len(&self) -> (n: usize)
        requires
            self.config@.len() + self.other@.len() <= usize::MAX,
        ensures
            n == self.config@.len() + self.other@.len(),
    {
        self.config.len() + self.other.len()
    }
}

/// `after` is `before` without its first `x` (by `swap_remove`), and `r` is that `x`;
/// or `before` holds no `x`, nothing changes and `r` is `None`.
pub open spec fn remove_in(before: Seq<Seq<char>>, after: Seq<Seq<char>>, x: Seq<char>, r: Option<String>) -> bool {
    match first_pos(before, x) {
        Some(i) => after == swap_remove_spec(before, i) && r is Some && r->0@ == x,
        None => after == before && r is None,
    }
}

proof fn lemma_first_pos_at(v: Seq<Seq<char>>, x: Seq<char>)
    ensures
        first_pos(v, x) matches Some(i) ==> 0 <= i < v.len() && v[i] == x,
    decreases v.len(),
{
    if v.len() > 0 {
        lemma_first_pos_at(v.drop_last(), x);
    }
}

fn swap_remove_first(v: &mut Vec<String>, x: &str) -> (r: Option<String>)
    ensures
        remove_in(strings_view(old(v)@), strings_view(final(v)@), x@, r),
{
    match position_of(v, x) {
        Some(i) => {
            proof {
                lemma_first_pos_at(strings_view(v@), x@);
            }
            let ghost before = strings_view(v@);
            let e = v.swap_remove(i);
            assert(strings_view(v@) =~= swap_remove_spec(before, i as int));
            Some(e)
        },
        None => None,
    }
}

fn push_refs<'a>(r: &mut Vec<&'a str>, v: &'a Vec<String>)
    ensures
        crate::files::strs_view(final(r)@) == crate::files::strs_view(old(r)@) + strings_view(v@),
{
    let ghost start = crate::files::strs_view(r@);
    let mut i: usize = 0;
    while i < v.len()
        invariant
            i <= v@.len(),
            crate::files::strs_view(r@) == start + strings_view(v@).subrange(0, i as int),
        decreases v@.len() - i,
    {
        let ghost before = crate::files::strs_view(r@);
        r.push(v[i].as_str());
        assert(crate::files::strs_view(r@) =~= before.push(v@[i as int]@));
        assert(strings_view(v@).subrange(0, i + 1) =~= strings_view(v@).subrange(0, i as int).push(v@[i as int]@));
        i = i + 1;
    }
    assert(strings_view(v@).subrange(0, v@.len() as int) =~= strings_view(v@));
}

#[derive(Debug)]
pub struct LoadOrder {
    /// if one of `SplitFiles.dll` has a set load_order
    pub set: bool,
    /// the index of the selected `mod_file` within `SplitFiles.dll`
    pub i: usize,
    /// current set value of `load_order`
    /// `self.at` is stored as 0 index | front end uses 1 index
    pub at: usize,
}

impl Default for LoadOrder {
    fn default() -> (r: LoadOrder)
        ensures
            r.set == false && r.i == 0 && r.at == 0,
    {
        LoadOrder { set: false, i: 0, at: 0 }
    }
}

/// The name under which a `.dll` keeps its load order: its file name without `.disabled`.
pub open spec fn order_key(f: Seq<char>) -> Seq<char> {
    omit_off_state_spec(file_name_spec(f)->0)
}

/// The first of `dlls[i..]` whose order key has a value in `m`.
pub open spec fn first_ordered(dlls: Seq<Seq<char>>, m: Map<Seq<char>, usize>, i: int) -> (bool, int, int)
    decreases dlls.len() - i,
{
    if i < 0 || i >= dlls.len() {
        (false, 0, 0)
    } else if m.contains_key(order_key(dlls[i])) {
        (true, i, m[order_key(dlls[i])] as int)
    } else {
        first_ordered(dlls, m, i + 1)
    }
}

/// `LoadOrder::from`: the first `.dll` with a load order, when every `.dll` has a
/// file name; otherwise no order.
pub open spec fn load_order_spec(dlls: Seq<Seq<char>>, m: Map<Seq<char>, usize>) -> (bool, int, int) {
    if exists|i: int| 0 <= i < dlls.len() && file_name_spec(#[trigger] dlls[i]) is None {
        (false, 0, 0)
    } else {
        first_ordered(dlls, m, 0)
    }
}

impl LoadOrder {
    /// the load order of the first of `dll_files` found in `parsed_order_val`
    pub fn from(dll_files: &Vec<String>, parsed_order_val: &OrderMap) -> (r: LoadOrder)
        ensures
            (r.set, r.i as int, r.at as int) == load_order_spec(strings_view(dll_files@), parsed_order_val.view()),
    {
        let ghost dv = strings_view(dll_files@);
        let mut names: Vec<String> = Vec::new();
        let mut i: usize = 0;
        while i < dll_files.len()
            invariant
                i <= dll_files@.len(),
                dv == strings_view(dll_files@),
                names@.len() == i,
                forall|j: int| 0 <= j < i ==> file_name_spec(#[trigger] dv[j]) is Some
                    && names@[j]@ == order_key(dv[j]),
            decreases dll_files@.len() - i,
        {
            match file_name(dll_files[i].as_str()) {
                Some(f) => {
                    names.push(omit_off_state(f.as_str()).to_owned());
                },
                None => {
                    assert(file_name_spec(dv[i as int]) is None);
                    return LoadOrder::default();
                },
            }
            i = i + 1;
        }
        let mut k: usize = 0;
        while k < names.len()
            invariant
                k <= names@.len(),
                names@.len() == dv.len(),
                dv == strings_view(dll_files@),
                forall|j: int| 0 <= j < dv.len() ==> file_name_spec(#[trigger] dv[j]) is Some
                    && names@[j]@ == order_key(dv[j]),
                first_ordered(dv, parsed_order_val.view(), 0) == first_ordered(dv, parsed_order_val.view(), k as int),
            decreases names@.len() - k,
        {
            match parsed_order_val.get(names[k].as_str()) {
                Some(v) => {
                    return LoadOrder { set: true, i: k, at: v };
                },
                None => {},
            }
            k = k + 1;
        }
        LoadOrder::default()
    }
}

proof fn lemma_first_ordered(dlls: Seq<Seq<char>>, m: Map<Seq<char>, usize>, i: int)
    requires
        0 <= i <= dlls.len(),
    ensures
        ({
            let (set, at_i, at) = first_ordered(dlls, m, i);
            &&& set <==> exists|j: int| i <= j < dlls.len() && #[trigger] m.contains_key(order_key(dlls[j]))
            &&& set ==> i <= at_i < dlls.len() && m.contains_key(order_key(dlls[at_i]))
                && at == m[order_key(dlls[at_i])] as int
                && forall|k: int| i <= k < at_i ==> !#[trigger] m.contains_key(order_key(dlls[k]))
            &&& !set ==> at_i == 0 && at == 0
        }),
    decreases dlls.len() - i,
{
    if i < dlls.len() && !m.contains_key(order_key(dlls[i])) {
        lemma_first_ordered(dlls, m, i + 1);
        let (set, at_i, at) = first_ordered(dlls, m, i);
        if set {
            assert forall|k: int| i <= k < at_i implies !#[trigger] m.contains_key(order_key(dlls[k])) by {
                if k > i {
                    assert(i + 1 <= k < at_i);
                }
            }
        } else {
            assert forall|j: int| i <= j < dlls.len() implies !#[trigger] m.contains_key(order_key(dlls[j])) by {
                if j > i {
                    assert(i + 1 <= j < dlls.len());
                }
            }
        }
    }
}

/// The load order `LoadOrder::from` reads of a mod's `.dll` files: when every file has a
/// file name, the order is set exactly when the file name (without `.disabled`) of some
/// `.dll` has a value in the map; `i` is then the first such `.dll` and `at` its value.
/// Otherwise, or when no `.dll` has a value, the order is not set and `i` and `at` are 0.
pub proof fn load_order_is_first_ordered(dlls: Seq<Seq<char>>, m: Map<Seq<char>, usize>)
    ensures
        ({
            let (set, i, at) = load_order_spec(dlls, m);
            let named = forall|j: int| 0 <= j < dlls.len() ==> #[trigger] file_name_spec(dlls[j]) is Some;
            &&& set <==> named && exists|j: int| 0 <= j < dlls.len() && #[trigger] m.contains_key(order_key(dlls[j]))
            &&& set ==> 0 <= i < dlls.len() && m.contains_key(order_key(dlls[i]))
                && at == m[order_key(dlls[i])] as int
                && forall|k: int| 0 <= k < i ==> !#[trigger] m.contains_key(order_key(dlls[k]))
            &&& !set ==> i == 0 && at == 0
        }),
{
    lemma_first_ordered(dlls, m, 0);
}

#[derive(Debug)]
pub struct RegMod {
    /// user defined Key in snake_case
    pub name: String,
    /// true = enabled | false = disabled
    pub state: bool,
    /// files associated with the Registered Mod
    pub files: SplitFiles,
    /// contains properties related to if a mod has a set load order
    pub order: LoadOrder,
}

/// The key a mod is saved under: its name trimmed, with `_` for every space.
pub open spec fn mod_key(name: Seq<char>) -> Seq<char> {
    replace_char_spec(trim_spec(name), ' ', '_')
}

impl RegMod {
    /// this function omits the population of the `order` field
    pub fn new(name: &str, state: bool, in_files: Vec<String>) -> (r: RegMod)
        requires
            all_have_extension(strings_view(in_files@)),
        ensures
            r.name@ == mod_key(name@),
            r.state == state,
            strings_view(r.files.dll@) == strings_view(in_files@).filter(dll_pred()),
            strings_view(r.files.config@) == strings_view(in_files@).filter(cfg_pred()),
            strings_view(r.files.other@) == strings_view(in_files@).filter(other_pred()),
            !r.order.set && r.order.i == 0 && r.order.at == 0,
    {
        let t = trim(name);
        RegMod {
            name: replace_char(t.as_str(), ' ', '_'),
            state,
            files: SplitFiles::from(in_files),
            order: LoadOrder::default(),
        }
    }

    /// unlike `new` this function returns a `RegMod` with all fields populated
    /// `parsed_order_val` can be obtained from `ModLoaderCfg::parse_section()`
    pub fn with_load_order(name: &str, state: bool, in_files: Vec<String>, parsed_order_val: &OrderMap) -> (r: RegMod)
        requires
            all_have_extension(strings_view(in_files@)),
        ensures
            r.name@ == mod_key(name@),
            r.state == state,
            strings_view(r.files.dll@) == strings_view(in_files@).filter(dll_pred()),
            strings_view(r.files.config@) == strings_view(in_files@).filter(cfg_pred()),
            strings_view(r.files.other@) == strings_view(in_files@).filter(other_pred()),
            (r.order.set, r.order.i as int, r.order.at as int) == load_order_spec(strings_view(r.files.dll@), parsed_order_val.view()),
    {
        let split_files = SplitFiles::from(in_files);
        let load_order = LoadOrder::from(&split_files.dll, parsed_order_val);
        let t = trim(name);
        RegMod {
            name: replace_char(t.as_str(), ' ', '_'),
            state,
            files: split_files,
            order: load_order,
        }
    }

    /// manual constructor for RegMod, note does not convert name to _snake_case_
    pub fn from_split_files(name: &str, state: bool, files: SplitFiles, order: LoadOrder) -> (r: RegMod)
        ensures
            r.name@ == name@,
            r.state == state,
            r.files == files,
            r.order == order,
    {
        RegMod { name: name.to_owned(), state, files, order }
    }

    /// returns true if `Self` is _currently_ an array
    pub fn is_array(&self) -> (r: bool)
        ensures
            r == (self.files.dll@.len() + self.files.config@.len() + self.files.other@.len() > 1),
    {
        self.files.dll.len() > 1 || self.files.config.len() > 1 || self.files.other.len() > 1
            || (self.files.dll.len() + (self.files.config.len() > 0) as usize + (self.files.other.len() > 0) as usize) > 1
    }
}


/// The names of the sections that the document `v` lacks, in order.
pub open spec fn missing_sections(v: IniView, sections: Seq<Seq<char>>) -> Seq<Seq<char>> {
    sections.filter(|s: Seq<char>| section_of(v, Some(s)) is None)
}

/// The message of the error when sections are missing.
pub open spec fn missing_sections_msg(missing: Seq<Seq<char>>, file: Seq<char>) -> Seq<char> {
    "Could not find section(s): "@ + list_text(missing) + ", in: "@ + file
}

/// What `is_setup` gives for the file at `path` whose reading gave `content`.
pub open spec fn is_setup_spec(path: Seq<char>, content: Result<String, Error>, sections: Seq<Seq<char>>, r: Result<::ini::Ini, Error>) -> bool {
    match content {
        Err(e) => r matches Err(e2) && e2.kind == e.kind && e2.msg@ == e.msg@,
        Ok(c) => match ini_parse(c@) {
            Err(m) => r matches Err(e) && e.kind == ErrorKind::InvalidData && e.msg@ == m,
            Ok(v) => {
                let missing = missing_sections(v, sections);
                if missing.len() == 0 {
                    r matches Ok(ini) && ini_sections(ini) == v
                } else {
                    r matches Err(e) && e.kind == ErrorKind::InvalidData
                        && e.msg@ == missing_sections_msg(missing, file_name_spec(path)->0)
                }
            },
        },
    }
}

/// `true` when `path` names an `.ini` file.
pub open spec fn is_ini_path(path: Seq<char>) -> bool {
    has_extension(path) && file_data_spec(path).1 == ".ini"@ && file_name_spec(path) is Some
}

pub trait Setup {
    /// The path of the file.
    spec fn setup_path(&self) -> Seq<char>;

    /// returns `Ok(ini)` if `self` is the path of an `.ini` file that:
    /// - **could be read**: `content` is what reading it gave (`Err(NotFound)` or
    ///   `Err(PermissionDenied)` when it does not exist or cannot be opened)
    /// - **holds a document**
    /// - **contains all sections** - if not returns `Err(InvalidData)`
    fn is_setup(&self, content: Result<String, Error>, sections: &[&str]) -> (r: Result<::ini::Ini, Error>)
        requires
            is_ini_path(self.setup_path()),
        ensures
            is_setup_spec(self.setup_path(), content, crate::files::strs_view(sections@), r);
}

impl Setup for str {
    open spec fn setup_path(&self) -> Seq<char> {
        self@
    }

    fn is_setup(&self, content: Result<String, Error>, sections: &[&str]) -> (r: Result<::ini::Ini, Error>) {
        let text = match content {
            Ok(t) => t,
            Err(e) => return Err(e),
        };
        let ini = get_cfg(text.as_str())?;
        let ghost v = ini_sections(ini);
        let ghost sv = crate::files::strs_view(sections@);
        let ghost pred = |s: Seq<char>| section_of(v, Some(s)) is None;
        let mut not_found: Vec<&str> = Vec::new();
        let mut i: usize = 0;
        assert(sv.subrange(0, 0).filter(pred) =~= Seq::<Seq<char>>::empty()) by {
            reveal_with_fuel(Seq::filter, 1);
        }
        assert(crate::files::strs_view(not_found@) =~= Seq::<Seq<char>>::empty());
        while i < sections.len()
            invariant
                i <= sections@.len(),
                sv == crate::files::strs_view(sections@),
                v == ini_sections(ini),
                pred == (|s: Seq<char>| section_of(v, Some(s)) is None),
                crate::files::strs_view(not_found@) == sv.subrange(0, i as int).filter(pred),
            decreases sections@.len() - i,
        {
            let x = sections[i];
            let ghost before = crate::files::strs_view(not_found@);
            if ini_section(&ini, Some(x)).is_none() {
                not_found.push(x);
                assert(crate::files::strs_view(not_found@) =~= before.push(x@));
            }
            let ghost sub1 = sv.subrange(0, i + 1);
            assert(sub1.drop_last() =~= sv.subrange(0, i as int));
            assert(sub1.last() == x@);
            assert(sub1.filter(pred) == if pred(x@) {
                sv.subrange(0, i as int).filter(pred).push(x@)
            } else {
                sv.subrange(0, i as int).filter(pred)
            }) by {
                reveal_with_fuel(Seq::filter, 1);
            }
            i = i + 1;
        }
        assert(sv.subrange(0, sections@.len() as int) =~= sv);
        if not_found.len() > 0 {
            let list = DisplayVec(not_found.as_slice()).to_string();
            let name = match file_name(self) {
                Some(n) => n,
                None => vstd::pervasive::unreached(),
            };
            let mut m = concat("Could not find section(s): ", list.as_str());
            m.append(", in: ");
            m.append(name.as_str());
            proof {
                reveal_strlit("Could not find section(s): ");
                reveal_strlit(", in: ");
                assert(item_texts(not_found@) =~= crate::files::strs_view(not_found@));
            }
            return Err(Error::from_string(ErrorKind::InvalidData, m));
        }
        Ok(ini)
    }
}


/// What `RegMod::write_to_file` makes of the text of the app's configuration file: the
/// state saved under the mod's key, any array it had removed (`was_array`), then its files
/// saved, as an array when it has more than one.
pub open spec fn write_mod_spec(content: Seq<char>, name: Seq<char>, state: bool, files: Seq<Seq<char>>, was_array: bool) -> Result<Seq<char>, Seq<char>> {
    match set_value_text(content, Some(INI_SECTIONS[2]@), name, bool_text(state), WRITE_SEPARATOR@) {
        Err(m) => Err(m),
        Ok(t1) => {
            let t2 = if was_array { remove_array_spec(t1, name) } else { t1 };
            let value = if files.len() > 1 { array_value(files) } else { files[0] };
            set_value_text(t2, Some(INI_SECTIONS[3]@), name, value, WRITE_SEPARATOR@)
        },
    }
}

/// `text` parses as a plain document.
pub open spec fn plain_text(text: Seq<char>) -> bool {
    ini_parse(text) matches Ok(v) && plain_doc(v)
}

/// `text` is the text of a plain document (so `get_cfg` reads that document back from
/// it) in which the mod `name` reads back with `state` and `files`: its saved state,
/// and its saved files as `get_mod` reads them.
pub open spec fn mod_reads_back(text: Seq<char>, name: Seq<char>, state: bool, files: Seq<Seq<char>>) -> bool {
    exists|w: IniView| #[trigger] plain_doc(w) && text == ini_text(w, WRITE_SEPARATOR@)
        && read_bool_spec(w, Some(INI_SECTIONS[2]@), name) == Ok::<bool, (ErrorKind, Seq<char>)>(state)
        && mod_files_spec(w, name) == Ok::<Seq<Seq<char>>, (ErrorKind, Seq<char>)>(files)
}

/// The mod `name` has a saved state and saved files.
pub open spec fn mod_saved(v: IniView, name: Seq<char>) -> bool {
    &&& section_of(v, Some(INI_SECTIONS[2]@)) matches Some(p) && props_has(p, name)
    &&& section_of(v, Some(INI_SECTIONS[3]@)) matches Some(q) && props_has(q, name)
}

/// `text` is the text of a plain document (so `get_cfg` reads that document back from
/// it) in which the mod `name` has neither a saved state nor saved files.
pub open spec fn mod_gone(text: Seq<char>, name: Seq<char>) -> bool {
    exists|w: IniView| #[trigger] plain_doc(w) && text == ini_text(w, WRITE_SEPARATOR@)
        && lookup_spec(w, Some(INI_SECTIONS[2]@), name) is Err
        && mod_files_spec(w, name) is Err
}

/// Where the paths under `key` in "mod-files" read as `files`, `get_mod` reads them too.
proof fn lemma_array_lookup(w: IniView, sec: Seq<char>, key: Seq<char>, files: Seq<Seq<char>>)
    requires
        sec == INI_SECTIONS[3]@,
        read_paths_spec(w, Some(sec), key) == Ok::<Seq<Seq<char>>, (ErrorKind, Seq<char>)>(files),
    ensures
        mod_files_spec(w, key) == Ok::<Seq<Seq<char>>, (ErrorKind, Seq<char>)>(files),
{
    reveal_strlit("array");
    let p = section_of(w, Some(sec))->0;
    lemma_props_get_has(p, key);
}

/// Where the one path under `key` in "mod-files" reads as `f`, `get_mod` reads it too.
proof fn lemma_single_lookup(w: IniView, sec: Seq<char>, key: Seq<char>, f: Seq<char>)
    requires
        sec == INI_SECTIONS[3]@,
        lookup_spec(w, Some(sec), key) == Ok::<Seq<char>, (ErrorKind, Seq<char>)>(f),
        f != ARRAY_VALUE@,
    ensures
        mod_files_spec(w, key) == Ok::<Seq<Seq<char>>, (ErrorKind, Seq<char>)>(seq![f]),
{
    let p = section_of(w, Some(sec))->0;
    lemma_props_get_has(p, key);
}

/// The names of the two sections of registered mods are plain, and so are `true` and `false`.
proof fn lemma_mod_words_plain()
    ensures
        plain_name(INI_SECTIONS[2]@),
        plain_name(INI_SECTIONS[3]@),
        INI_SECTIONS[2]@ != INI_SECTIONS[3]@,
        plain_value(bool_text(true)),
        plain_value(bool_text(false)),
{
    reveal_strlit("registered-mods");
    reveal_strlit("mod-files");
    reveal_strlit("true");
    reveal_strlit("false");
    let a = INI_SECTIONS[2]@;
    let b = INI_SECTIONS[3]@;
    assert(a =~= seq!['r', 'e', 'g', 'i', 's', 't', 'e', 'r', 'e', 'd', '-', 'm', 'o', 'd', 's']);
    assert(b =~= seq!['m', 'o', 'd', '-', 'f', 'i', 'l', 'e', 's']);
    assert(a.len() != b.len());
    assert forall|i: int| 0 <= i < a.len() implies #[trigger] a[i] != ']' && a[i] != '\n' && a[i] != '\r' by {
        assert(a[i] == 'r' || a[i] == 'e' || a[i] == 'g' || a[i] == 'i' || a[i] == 's' || a[i] == 't'
            || a[i] == 'd' || a[i] == '-' || a[i] == 'm' || a[i] == 'o');
    }
    assert forall|i: int| 0 <= i < b.len() implies #[trigger] b[i] != ']' && b[i] != '\n' && b[i] != '\r' by {
        assert(b[i] == 'm' || b[i] == 'o' || b[i] == 'd' || b[i] == '-' || b[i] == 'f' || b[i] == 'i'
            || b[i] == 'l' || b[i] == 'e' || b[i] == 's');
    }
    let t = bool_text(true);
    let f = bool_text(false);
    assert(t =~= seq!['t', 'r', 'u', 'e']);
    assert(f =~= seq!['f', 'a', 'l', 's', 'e']);
    assert forall|i: int| 0 <= i < t.len() implies #[trigger] t[i] != '\n' && t[i] != '\r' by {
        assert(t[i] == 't' || t[i] == 'r' || t[i] == 'u' || t[i] == 'e');
    }
    assert forall|i: int| 0 <= i < f.len() implies #[trigger] f[i] != '\n' && f[i] != '\r' by {
        assert(f[i] == 'f' || f[i] == 'a' || f[i] == 'l' || f[i] == 's' || f[i] == 'e');
    }
}

/// `true` when line `i` of `ls` belongs to the array saved under `name`: it is the line
/// `name…array` that starts the array, or an `array[]` line right after such a line or
/// after another line of the array.
pub open spec fn in_old_array(ls: Seq<Seq<char>>, i: int, name: Seq<char>) -> bool
    decreases i,
{
    if i < 0 || i >= ls.len() {
        false
    } else {
        (starts_with_spec(ls[i], name) && ends_with_spec(ls[i], ARRAY_VALUE@))
            || (i > 0 && starts_with_spec(ls[i], ARRAY_KEY@) && in_old_array(ls, i - 1, name))
    }
}

/// The first `n` lines of `ls` that do not belong to the array saved under `name`.
pub open spec fn lines_outside_array(ls: Seq<Seq<char>>, name: Seq<char>, n: int) -> Seq<Seq<char>>
    decreases n,
{
    if n <= 0 || n > ls.len() {
        Seq::empty()
    } else {
        let r = lines_outside_array(ls, name, n - 1);
        if in_old_array(ls, n - 1, name) { r } else { r.push(ls[n - 1]) }
    }
}

/// The lines of `text` without the array saved under `name`.
pub open spec fn without_old_array(text: Seq<char>, name: Seq<char>) -> Seq<Seq<char>> {
    lines_outside_array(lines_spec(text), name, lines_spec(text).len() as int)
}

proof fn lemma_keep_lines_outside(ls: Seq<Seq<char>>, name: Seq<char>, i: int)
    requires
        0 <= i <= ls.len(),
    ensures
        lines_outside_array(ls, name, ls.len() as int) == lines_outside_array(ls, name, i)
            + keep_lines(ls.subrange(i, ls.len() as int), name, i > 0 && in_old_array(ls, i - 1, name)),
    decreases ls.len() - i,
{
    let rest = ls.subrange(i, ls.len() as int);
    if i == ls.len() {
        assert(rest.len() == 0);
        assert(lines_outside_array(ls, name, i) + Seq::<Seq<char>>::empty() =~= lines_outside_array(ls, name, i));
    } else {
        lemma_keep_lines_outside(ls, name, i + 1);
        assert(rest[0] == ls[i]);
        assert(rest.drop_first() =~= ls.subrange(i + 1, ls.len() as int));
        let a = lines_outside_array(ls, name, i);
        let tail = keep_lines(ls.subrange(i + 1, ls.len() as int), name, in_old_array(ls, i, name));
        if !in_old_array(ls, i, name) {
            assert(a.push(ls[i]) + tail =~= a + (seq![ls[i]] + tail));
        }
    }
}

proof fn lemma_outside_no_array_head(ls: Seq<Seq<char>>, name: Seq<char>, n: int)
    ensures
        forall|j: int| 0 <= j < lines_outside_array(ls, name, n).len() ==>
            !(starts_with_spec(#[trigger] lines_outside_array(ls, name, n)[j], name)
                && ends_with_spec(lines_outside_array(ls, name, n)[j], ARRAY_VALUE@)),
    decreases n,
{
    if 0 < n <= ls.len() {
        lemma_outside_no_array_head(ls, name, n - 1);
        let r = lines_outside_array(ls, name, n - 1);
        if !in_old_array(ls, n - 1, name) {
            assert forall|j: int| 0 <= j < r.push(ls[n - 1]).len() implies
                !(starts_with_spec(#[trigger] r.push(ls[n - 1])[j], name) && ends_with_spec(r.push(ls[n - 1])[j], ARRAY_VALUE@)) by {
                if j < r.len() {
                    assert(r.push(ls[n - 1])[j] == r[j]);
                }
            }
        }
    }
}

/// `write_to_file` with `was_array`: after the state is saved, the lines of the array the
/// mod was saved with before (its `name…array` line and the `array[]` lines after it)
/// leave the text, every other line stays, in order, and only then are its files saved
/// again. No line `name…array` is left in the text the files are saved into.
pub proof fn write_to_file_drops_old_array(content: Seq<char>, name: Seq<char>, state: bool, files: Seq<Seq<char>>)
    requires
        files.len() > 0,
    ensures
        write_mod_spec(content, name, state, files, true) == match set_value_text(content, Some(INI_SECTIONS[2]@), name, bool_text(state), WRITE_SEPARATOR@) {
            Err(m) => Err(m),
            Ok(t1) => set_value_text(
                joined_msgs(without_old_array(t1, name), "\r\n"@),
                Some(INI_SECTIONS[3]@),
                name,
                if files.len() > 1 { array_value(files) } else { files[0] },
                WRITE_SEPARATOR@,
            ),
        },
        forall|t1: Seq<char>| set_value_text(content, Some(INI_SECTIONS[2]@), name, bool_text(state), WRITE_SEPARATOR@) == Ok::<Seq<char>, Seq<char>>(t1)
            ==> forall|j: int| 0 <= j < without_old_array(t1, name).len() ==>
                !(starts_with_spec(#[trigger] without_old_array(t1, name)[j], name) && ends_with_spec(without_old_array(t1, name)[j], ARRAY_VALUE@)),
{
    match set_value_text(content, Some(INI_SECTIONS[2]@), name, bool_text(state), WRITE_SEPARATOR@) {
        Err(m) => {},
        Ok(t1) => {
            let ls = lines_spec(t1);
            lemma_keep_lines_outside(ls, name, 0);
            assert(ls.subrange(0, ls.len() as int) =~= ls);
            assert(lines_outside_array(ls, name, 0) + keep_lines(ls, name, false) =~= keep_lines(ls, name, false));
            lemma_outside_no_array_head(ls, name, ls.len() as int);
        },
    }
}

/// What `RegMod::remove_from_file` makes of the text of the app's configuration file.
pub open spec fn remove_mod_spec(content: Seq<char>, name: Seq<char>, is_array: bool) -> Result<Seq<char>, (ErrorKind, Seq<char>)> {
    match remove_entry_spec(content, INI_SECTIONS[2]@, name) {
        Err(e) => Err(e),
        Ok(t1) => if is_array {
            Ok(remove_array_spec(t1, name))
        } else {
            remove_entry_spec(t1, INI_SECTIONS[3]@, name)
        },
    }
}

impl RegMod {
    /// saves `self.state` and all `self.files` to the text of the app's configuration
    /// file and gives back the new text; `was_array` is whether the mod was saved with more
    /// than one file before, so the old array is removed
    pub fn write_to_file(&self, content: &str, was_array: bool) -> (r: Result<String, Error>)
        requires
            self.files.all_files().len() > 0,
        ensures
            set_result(r, write_mod_spec(content@, self.name@, self.state, self.files.all_files(), was_array)),
            (!was_array && plain_text(content@) && plain_key(self.name@) && self.name@ != ARRAY_KEY@
                && forall|i: int| 0 <= i < self.files.all_files().len()
                    ==> plain_value(#[trigger] self.files.all_files()[i]) && self.files.all_files()[i] != ARRAY_VALUE@)
                ==> (r matches Ok(t) && mod_reads_back(t@, self.name@, self.state, self.files.all_files())),
    {
        let ghost law = !was_array && plain_text(content@) && plain_key(self.name@) && self.name@ != ARRAY_KEY@
            && forall|i: int| 0 <= i < self.files.all_files().len()
                ==> plain_value(#[trigger] self.files.all_files()[i]) && self.files.all_files()[i] != ARRAY_VALUE@;
        let ghost all = self.files.all_files();
        let ghost sec2 = INI_SECTIONS[2]@;
        let ghost sec3 = INI_SECTIONS[3]@;
        proof {
            lemma_mod_words_plain();
        }
        let t1 = save_bool(content, Some(INI_SECTIONS[2]), self.name.as_str(), self.state)?;
        let ghost v1 = match ini_parse(content@) {
            Ok(v) => crate::ini_store::ini_set_spec(v, Some(sec2), self.name@, bool_text(self.state)),
            Err(_) => IniView::empty(),
        };
        proof {
            if law {
                let v = ini_parse(content@)->Ok_0;
                crate::ini_store::plain_after_set(v, Some(sec2), self.name@, bool_text(self.state));
                bool_read_after_set(v, sec2, self.name@, self.state);
                assert(t1@ == ini_text(v1, WRITE_SEPARATOR@));
                assert(plain_doc(v1));
            }
        }
        let t2 = if was_array { remove_array(t1.as_str(), self.name.as_str()) } else { t1 };
        let refs = self.files.file_refs();
        let is_array = self.is_array();
        if is_array {
            let mut files: Vec<String> = Vec::new();
            let mut i: usize = 0;
            while i < refs.len()
                invariant
                    i <= refs@.len(),
                    files@.map_values(|s: String| s@) == crate::files::strs_view(refs@.subrange(0, i as int)),
                decreases refs@.len() - i,
            {
                let ghost before = files@.map_values(|s: String| s@);
                files.push(refs[i].to_owned());
                assert(files@.map_values(|s: String| s@) =~= before.push(refs@[i as int]@));
                assert(crate::files::strs_view(refs@.subrange(0, i + 1)) =~= crate::files::strs_view(refs@.subrange(0, i as int)).push(refs@[i as int]@));
                i = i + 1;
            }
            assert(refs@.subrange(0, refs@.len() as int) =~= refs@);
            let r = save_paths(t2.as_str(), Some(INI_SECTIONS[3]), self.name.as_str(), files.as_slice());
            proof {
                if law {
                    reveal_strlit("=");
                    let fs = files@.map_values(|s: String| s@);
                    assert(fs == all);
                    assert(ini_parse(t2@) == Ok::<IniView, Seq<char>>(v1));
                    paths_read_after_save(v1, sec3, self.name@, all);
                    let w = set_array_spec(v1, Some(sec3), self.name@, all);
                    crate::utils::ini::writer::lemma_array_other_section(v1, sec3, sec2, self.name@, all);
                    assert(read_bool_spec(w, Some(sec2), self.name@) == read_bool_spec(v1, Some(sec2), self.name@));
                    lemma_array_lookup(w, sec3, self.name@, all);
                    assert(mod_reads_back(r->Ok_0@, self.name@, self.state, all));
                }
            }
            r
        } else {
            assert(crate::files::strs_view(refs@)[0] == refs@[0]@);
            let r = save_path(t2.as_str(), Some(INI_SECTIONS[3]), self.name.as_str(), refs[0]);
            proof {
                if law {
                    let f = all[0];
                    assert(ini_parse(t2@) == Ok::<IniView, Seq<char>>(v1));
                    let w = crate::ini_store::ini_set_spec(v1, Some(sec3), self.name@, f);
                    value_read_after_save(v1, sec3, self.name@, f);
                    crate::ini_store::lemma_set_other_section(v1, sec3, sec2, self.name@, f);
                    assert(read_bool_spec(w, Some(sec2), self.name@) == read_bool_spec(v1, Some(sec2), self.name@));
                    assert(all =~= seq![f]);
                    lemma_single_lookup(w, sec3, self.name@, f);
                    assert(mod_reads_back(r->Ok_0@, self.name@, self.state, all));
                }
            }
            r
        }
    }

    /// removes `self` from the text of the app's configuration file; its files are removed
    /// as an array when `self.is_array()`
    pub fn remove_from_file(&self, content: &str) -> (r: Result<String, Error>)
        ensures
            removed_result(r, remove_mod_spec(content@, self.name@, self.files.all_files().len() > 1)),
            (self.files.all_files().len() <= 1 && (ini_parse(content@) matches Ok(v) && plain_doc(v) && mod_saved(v, self.name@)))
                ==> (r matches Ok(t) && mod_gone(t@, self.name@)),
    {
        let ghost sec2 = INI_SECTIONS[2]@;
        let ghost sec3 = INI_SECTIONS[3]@;
        let ghost law = self.files.all_files().len() <= 1
            && (ini_parse(content@) matches Ok(v) && plain_doc(v) && mod_saved(v, self.name@));
        proof {
            lemma_mod_words_plain();
            if law {
                let v = ini_parse(content@)->Ok_0;
                lemma_props_get_has(section_of(v, Some(sec2))->0, self.name@);
            }
        }
        let t1 = remove_entry(content, Some(INI_SECTIONS[2]), self.name.as_str())?;
        let ghost v1 = match ini_parse(content@) {
            Ok(v) => crate::ini_store::ini_delete_spec(v, Some(sec2), self.name@),
            Err(_) => IniView::empty(),
        };
        proof {
            if law {
                let v = ini_parse(content@)->Ok_0;
                lemma_props_get_has(section_of(v, Some(sec2))->0, self.name@);
                read_after_delete(v, sec2, self.name@);
                assert(t1@ == ini_text(v1, WRITE_SEPARATOR@));
                crate::ini_store::lemma_delete_other_section(v, sec2, sec3, self.name@);
            }
        }
        if self.is_array() {
            Ok(remove_array(t1.as_str(), self.name.as_str()))
        } else {
            let r = remove_entry(t1.as_str(), Some(INI_SECTIONS[3]), self.name.as_str());
            proof {
                if law {
                    assert(ini_parse(t1@) == Ok::<IniView, Seq<char>>(v1));
                    lemma_props_get_has(section_of(v1, Some(sec3))->0, self.name@);
                    read_after_delete(v1, sec3, self.name@);
                    let w = crate::ini_store::ini_delete_spec(v1, Some(sec3), self.name@);
                    crate::ini_store::lemma_delete_other_section(v1, sec3, sec2, self.name@);
                    lemma_props_get_has(section_of(w, Some(sec3))->0, self.name@);
                    assert(mod_gone(r->Ok_0@, self.name@));
                }
            }
            r
        }
    }
}

/// The saved file paths of the "mod-files" entries (every value but `array`).
pub open spec fn saved_files(p: PropsView) -> Set<Seq<char>> {
    p.map_values(|e: (Seq<char>, Seq<char>)| e.1).filter(|v: Seq<char>| v != ARRAY_VALUE@).to_set()
}

impl Cfg {
    /// returns all the registered files (as _short_paths_) as a set
    pub fn files(&self) -> (r: StrSet)
        requires
            section_of(self.sections(), Some(INI_SECTIONS[3]@)) is Some,
        ensures
            r@ == saved_files(section_of(self.sections(), Some(INI_SECTIONS[3]@))->0),
    {
        let sec = match ini_section(self.data(), Some(INI_SECTIONS[3])) {
            Some(p) => p,
            None => vstd::pervasive::unreached(),
        };
        let pairs = props_pairs(sec);
        let ghost p = props_entries(*sec);
        let ghost vals = p.map_values(|e: (Seq<char>, Seq<char>)| e.1);
        let ghost pred = |v: Seq<char>| v != ARRAY_VALUE@;
        let mut set = StrSet::new();
        let mut i: usize = 0;
        assert(vals.subrange(0, 0).filter(pred) =~= Seq::<Seq<char>>::empty()) by {
            reveal_with_fuel(Seq::filter, 1);
        }
        assert(Seq::<Seq<char>>::empty().to_set() =~= Set::<Seq<char>>::empty());
        while i < pairs.len()
            invariant
                i <= pairs@.len(),
                pairs@.len() == p.len(),
                vals == p.map_values(|e: (Seq<char>, Seq<char>)| e.1),
                pred == (|v: Seq<char>| v != ARRAY_VALUE@),
                forall|j: int| 0 <= j < pairs@.len() ==> (#[trigger] pairs@[j]).0@ == p[j].0 && pairs@[j].1@ == p[j].1,
                set@ == vals.subrange(0, i as int).filter(pred).to_set(),
            decreases pairs@.len() - i,
        {
            let v = pairs[i].1;
            let ghost f0 = vals.subrange(0, i as int).filter(pred);
            let ghost sub1 = vals.subrange(0, i + 1);
            assert(sub1.drop_last() =~= vals.subrange(0, i as int));
            assert(sub1.last() == v@);
            assert(sub1.filter(pred) == if pred(v@) { f0.push(v@) } else { f0 }) by {
                reveal_with_fuel(Seq::filter, 1);
            }
            proof {
                reveal_strlit("array");
            }
            if !str_eq(v, ARRAY_VALUE) {
                let _ = set.insert(v);
                proof {
                    f0.lemma_push_to_set_commute(v@);
                }
            }
            i = i + 1;
        }
        assert(vals.subrange(0, pairs@.len() as int) =~= vals);
        set
    }
}


/// The files of the "mod-files" entry at `i`: the `array[]` values after it when its value
/// is `array`, else its value alone.
pub open spec fn files_of(p: PropsView, i: int) -> Seq<Seq<char>> {
    if p[i].1 == ARRAY_VALUE@ {
        p.subrange(i + 1, array_end(p, i + 1)).map_values(|e: (Seq<char>, Seq<char>)| e.1)
    } else {
        seq![p[i].1]
    }
}

/// The (key, files) of the "mod-files" entries from `i` on, skipping `array[]` entries.
pub open spec fn file_entries_from(p: PropsView, i: int) -> Seq<(Seq<char>, Seq<Seq<char>>)>
    decreases p.len() - i,
{
    if i < 0 || i >= p.len() {
        Seq::empty()
    } else if p[i].0 == ARRAY_KEY@ {
        file_entries_from(p, i + 1)
    } else {
        seq![(p[i].0, files_of(p, i))] + file_entries_from(p, i + 1)
    }
}

/// The (key, files) of every "mod-files" entry, in order.
pub open spec fn file_entries(p: PropsView) -> Seq<(Seq<char>, Seq<Seq<char>>)> {
    file_entries_from(p, 0)
}

/// The view of collected (key, files) pairs.
pub open spec fn file_pairs_view(v: Seq<(String, Vec<String>)>) -> Seq<(Seq<char>, Seq<Seq<char>>)> {
    v.map_values(|e: (String, Vec<String>)| (e.0@, strings_view(e.1@)))
}

/// the (key, files) of every entry of a "mod-files" section, in order
fn collect_paths(section: &::ini::Properties) -> (r: Vec<(String, Vec<String>)>)
    ensures
        file_pairs_view(r@) == file_entries(props_entries(*section)),
{
    let pairs = props_pairs(section);
    let ghost p = props_entries(*section);
    let n = pairs.len();
    let mut r: Vec<(String, Vec<String>)> = Vec::new();
    let mut i: usize = 0;
    proof {
        reveal_strlit("array[]");
        reveal_strlit("array");
    }
    assert(file_pairs_view(r@) =~= Seq::<(Seq<char>, Seq<Seq<char>>)>::empty());
    while i < n
        invariant
            n == p.len(),
            pairs@.len() == n,
            forall|j: int| 0 <= j < n ==> (#[trigger] pairs@[j]).0@ == p[j].0 && pairs@[j].1@ == p[j].1,
            i <= n,
            file_entries(p) == file_pairs_view(r@) + file_entries_from(p, i as int),
        decreases n - i,
    {
        let (k, v) = pairs[i];
        if !str_eq(k, ARRAY_KEY) {
            let mut files: Vec<String> = Vec::new();
            if str_eq(v, ARRAY_VALUE) {
                let mut j = i + 1;
                assert(p.subrange(i + 1, j as int).map_values(|e: (Seq<char>, Seq<char>)| e.1) =~= Seq::<Seq<char>>::empty());
                while j < n && str_eq(pairs[j].0, ARRAY_KEY)
                    invariant
                        n == p.len(),
                        pairs@.len() == n,
                        forall|q: int| 0 <= q < n ==> (#[trigger] pairs@[q]).0@ == p[q].0 && pairs@[q].1@ == p[q].1,
                        i < n,
                        i + 1 <= j <= n,
                        array_end(p, j as int) == array_end(p, i + 1),
                        strings_view(files@) == p.subrange(i + 1, j as int).map_values(|e: (Seq<char>, Seq<char>)| e.1),
                    decreases n - j,
                {
                    let ghost before = strings_view(files@);
                    files.push(pairs[j].1.to_owned());
                    assert(strings_view(files@) =~= before.push(p[j as int].1));
                    assert(p.subrange(i + 1, j + 1).map_values(|e: (Seq<char>, Seq<char>)| e.1)
                        =~= p.subrange(i + 1, j as int).map_values(|e: (Seq<char>, Seq<char>)| e.1).push(p[j as int].1));
                    j = j + 1;
                }
                assert(array_end(p, j as int) == j);
            } else {
                files.push(v.to_owned());
                assert(strings_view(files@) =~= seq![v@]);
            }
            let ghost before = file_pairs_view(r@);
            assert(strings_view(files@) == files_of(p, i as int));
            r.push((k.to_owned(), files));
            proof {
                let x = (k@, files_of(p, i as int));
                assert(file_pairs_view(r@) =~= before.push(x));
                assert(before + (seq![x] + file_entries_from(p, i + 1)) =~= before.push(x) + file_entries_from(p, i + 1));
            }
        }
        i = i + 1;
    }
    assert(file_pairs_view(r@) + file_entries_from(p, n as int) =~= file_pairs_view(r@));
    r
}

/// `f` is the path of one of `files` (as `Path`'s `==` compares them: part by part).
pub open spec fn among_paths(files: Seq<Seq<char>>, f: Seq<char>) -> bool {
    exists|j: int| 0 <= j < files.len() && crate::paths::parts(#[trigger] files[j]) == crate::paths::parts(f)
}

/// Every file of `mods`, in order.
pub open spec fn files_of_mods(mods: Seq<RegMod>) -> Seq<Seq<char>>
    decreases mods.len(),
{
    if mods.len() == 0 {
        Seq::empty()
    } else {
        files_of_mods(mods.drop_last()) + mods.last().files.all_files()
    }
}

/// The files of `fs` that are not among `found`, in order.
pub open spec fn not_among(fs: Seq<Seq<char>>, found: Seq<Seq<char>>) -> Seq<Seq<char>> {
    fs.filter(|f: Seq<char>| !among_paths(found, f))
}

/// The `.dll`s of `m` that are not among `found`.
pub open spec fn dlls_not_found(m: RegMod, found: Seq<Seq<char>>) -> Seq<Seq<char>> {
    not_among(strings_view(m.files.dll@), found)
}

/// A mod registered before a scan loses its load order entry: some of its `.dll`s were
/// not found again, the one its load order is set on among them.
pub open spec fn loses_order(m: RegMod, found: Seq<Seq<char>>) -> bool {
    &&& dlls_not_found(m, found).len() > 0
    &&& m.order.set
    &&& !among_paths(found, m.files.dll@[m.order.i as int]@)
}

/// A mod registered before a scan is enabled again: some of its `.dll`s that were not
/// found again are disabled.
pub open spec fn to_reenable(m: RegMod, found: Seq<Seq<char>>) -> bool {
    exists|j: int| 0 <= j < dlls_not_found(m, found).len() && !state_data_spec(#[trigger] dlls_not_found(m, found)[j]).0
}

/// The indices below `n` of which `pred` holds, in order.
pub open spec fn indices_where(n: int, pred: spec_fn(int) -> bool) -> Seq<int>
    decreases n,
{
    if n <= 0 {
        Seq::empty()
    } else if pred(n - 1) {
        indices_where(n - 1, pred).push(n - 1)
    } else {
        indices_where(n - 1, pred)
    }
}

/// `m` is the old mod `o` with only its `.dll`s that were not found again.
pub open spec fn left_over(m: RegMod, o: RegMod, found: Seq<Seq<char>>) -> bool {
    &&& m.name@ == o.name@
    &&& m.state == o.state
    &&& strings_view(m.files.dll@) == dlls_not_found(o, found)
    &&& strings_view(m.files.config@) == strings_view(o.files.config@)
    &&& strings_view(m.files.other@) == strings_view(o.files.other@)
    &&& m.order == o.order
}

/// What a scan leaves to do about the mods registered before it.
#[derive(Debug)]
pub struct LeftAfterScan {
    /// the old mods (by index) whose load order entry is to be removed
    pub order_removals: Vec<usize>,
    /// the old mods, with only their `.dll`s that were not found again, to enable again
    pub to_enable: Vec<RegMod>,
}

/// `true` when `f` is the path of one of `found`
fn among(found: &Vec<String>, f: &str) -> (r: bool)
    ensures
        r == among_paths(strings_view(found@), f@),
{
    let ghost fv = strings_view(found@);
    let mut j: usize = 0;
    while j < found.len()
        invariant
            j <= found@.len(),
            fv == strings_view(found@),
            forall|q: int| 0 <= q < j ==> crate::paths::parts(#[trigger] fv[q]) != crate::paths::parts(f@),
        decreases found@.len() - j,
    {
        assert(fv[j as int] == found@[j as int]@);
        if crate::paths::same_parts(found[j].as_str(), f) {
            return true;
        }
        j = j + 1;
    }
    false
}

/// a copy of the paths
fn copy_paths(v: &Vec<String>) -> (r: Vec<String>)
    ensures
        strings_view(r@) == strings_view(v@),
{
    let r = v.clone();
    assert(r@ == v@);
    r
}

/// After a scan registered `new_mods` afresh, what is left to do about `old_mods`, the
/// mods registered before it: the load order entries of the old mods that lose their
/// ordered `.dll` go, and the old mods with disabled `.dll`s that were not found again
/// are enabled again (only those `.dll`s)
pub fn left_after_scan(old_mods: &[RegMod], new_mods: &[RegMod]) -> (r: LeftAfterScan)
    requires
        forall|i: int| 0 <= i < old_mods@.len() && (#[trigger] old_mods@[i]).order.set
            ==> old_mods@[i].order.i < old_mods@[i].files.dll@.len(),
    ensures
        ({
            let found = files_of_mods(new_mods@);
            let idx = indices_where(old_mods@.len() as int, |i: int| to_reenable(old_mods@[i], found));
            &&& r.order_removals@.map_values(|i: usize| i as int)
                == indices_where(old_mods@.len() as int, |i: int| loses_order(old_mods@[i], found))
            &&& r.to_enable@.len() == idx.len()
            &&& forall|k: int| 0 <= k < idx.len() ==> left_over(#[trigger] r.to_enable@[k], old_mods@[idx[k]], found)
        }),
{
    let ghost nv = new_mods@;
    let mut found: Vec<String> = Vec::new();
    let mut n: usize = 0;
    assert(strings_view(found@) =~= files_of_mods(nv.subrange(0, 0)));
    while n < new_mods.len()
        invariant
            n <= nv.len(),
            nv == new_mods@,
            strings_view(found@) == files_of_mods(nv.subrange(0, n as int)),
        decreases nv.len() - n,
    {
        let refs = new_mods[n].files.file_refs();
        let ghost before = strings_view(found@);
        let mut q: usize = 0;
        while q < refs.len()
            invariant
                q <= refs@.len(),
                strings_view(found@) == before + crate::files::strs_view(refs@).subrange(0, q as int),
            decreases refs@.len() - q,
        {
            let ghost b2 = strings_view(found@);
            found.push(refs[q].to_owned());
            assert(strings_view(found@) =~= b2.push(refs@[q as int]@));
            assert(crate::files::strs_view(refs@).subrange(0, q + 1) =~= crate::files::strs_view(refs@).subrange(0, q as int).push(refs@[q as int]@));
            q = q + 1;
        }
        assert(crate::files::strs_view(refs@).subrange(0, refs@.len() as int) =~= crate::files::strs_view(refs@));
        assert(nv.subrange(0, n + 1).drop_last() =~= nv.subrange(0, n as int));
        assert(nv.subrange(0, n + 1).last() == nv[n as int]);
        n = n + 1;
    }
    assert(nv.subrange(0, nv.len() as int) =~= nv);
    let ghost fv = strings_view(found@);
    let ghost ov = old_mods@;
    let ghost lose = |i: int| loses_order(ov[i], fv);
    let ghost back = |i: int| to_reenable(ov[i], fv);
    let mut order_removals: Vec<usize> = Vec::new();
    let mut to_enable: Vec<RegMod> = Vec::new();
    let ghost mut idx: Seq<int> = Seq::empty();
    let mut i: usize = 0;
    while i < old_mods.len()
        invariant
            i <= ov.len(),
            ov == old_mods@,
            fv == strings_view(found@),
            fv == files_of_mods(new_mods@),
            lose == (|k: int| loses_order(ov[k], fv)),
            back == (|k: int| to_reenable(ov[k], fv)),
            forall|m: int| 0 <= m < ov.len() && (#[trigger] ov[m]).order.set ==> ov[m].order.i < ov[m].files.dll@.len(),
            order_removals@.map_values(|k: usize| k as int) == indices_where(i as int, lose),
            idx == indices_where(i as int, back),
            to_enable@.len() == idx.len(),
            forall|k: int| 0 <= k < idx.len() ==> left_over(#[trigger] to_enable@[k], ov[idx[k]], fv),
            forall|k: int| 0 <= k < idx.len() ==> 0 <= #[trigger] idx[k] < i,
        decreases ov.len() - i,
    {
        let o = &old_mods[i];
        let ghost dv = strings_view(o.files.dll@);
        let mut kept: Vec<String> = Vec::new();
        let mut any_disabled = false;
        let mut j: usize = 0;
        while j < o.files.dll.len()
            invariant
                j <= dv.len(),
                dv == strings_view(o.files.dll@),
                strings_view(kept@) == not_among(dv.subrange(0, j as int), fv),
                fv == strings_view(found@),
                any_disabled == exists|q: int| 0 <= q < kept@.len() && !state_data_spec(#[trigger] strings_view(kept@)[q]).0,
            decreases dv.len() - j,
        {
            let f = o.files.dll[j].as_str();
            assert(dv[j as int] == f@);
            let ghost b = strings_view(kept@);
            reveal_with_fuel(Seq::filter, 1);
            assert(dv.subrange(0, j + 1).drop_last() =~= dv.subrange(0, j as int));
            if !among(&found, f) {
                kept.push(f.to_owned());
                assert(strings_view(kept@) =~= b.push(f@));
                if FileData::is_disabled(f) {
                    any_disabled = true;
                    assert(strings_view(kept@)[b.len() as int] == f@);
                } else {
                    proof {
                        if any_disabled {
                            let q = choose|q: int| 0 <= q < b.len() && !state_data_spec(#[trigger] b[q]).0;
                            assert(strings_view(kept@)[q] == b[q]);
                        }
                        assert forall|q: int| 0 <= q < kept@.len() && !state_data_spec(#[trigger] strings_view(kept@)[q]).0
                            implies any_disabled by {
                            if q < b.len() {
                                assert(strings_view(kept@)[q] == b[q]);
                            }
                        }
                    }
                }
            }
            j = j + 1;
        }
        assert(dv.subrange(0, dv.len() as int) =~= dv);
        assert(strings_view(kept@) == dlls_not_found(*o, fv));
        proof {
            let dn = dlls_not_found(ov[i as int], fv);
            if any_disabled {
                let q = choose|q: int| 0 <= q < kept@.len() && !state_data_spec(#[trigger] strings_view(kept@)[q]).0;
                assert(dn[q] == strings_view(kept@)[q]);
            }
            if to_reenable(ov[i as int], fv) {
                let q = choose|q: int| 0 <= q < dn.len() && !state_data_spec(#[trigger] dn[q]).0;
                assert(strings_view(kept@)[q] == dn[q]);
            }
            assert(back(i as int) == any_disabled);
            assert(lose(i as int) == loses_order(ov[i as int], fv));
            assert(indices_where(i + 1, lose) == if lose(i as int) { indices_where(i as int, lose).push(i as int) } else { indices_where(i as int, lose) });
            assert(indices_where(i + 1, back) == if back(i as int) { indices_where(i as int, back).push(i as int) } else { indices_where(i as int, back) });
        }
        if kept.len() > 0 && o.order.set && !among(&found, o.files.dll[o.order.i].as_str()) {
            let ghost b = order_removals@.map_values(|k: usize| k as int);
            order_removals.push(i);
            assert(order_removals@.map_values(|k: usize| k as int) =~= b.push(i as int));
        }
        if any_disabled {
            let m = RegMod {
                name: o.name.clone(),
                state: o.state,
                files: SplitFiles { dll: kept, config: copy_paths(&o.files.config), other: copy_paths(&o.files.other) },
                order: LoadOrder { set: o.order.set, i: o.order.i, at: o.order.at },
            };
            to_enable.push(m);
            proof {
                idx = idx.push(i as int);
            }
        }
        i = i + 1;
    }
    LeftAfterScan { order_removals, to_enable }
}

/// `true` when `Path::extension` finds one: the file name has a `.` after its first
/// character.
pub open spec fn path_has_extension(p: Seq<char>) -> bool {
    &&& file_name_spec(p) is Some
    &&& exists|i: int| 1 <= i < file_name_spec(p)->0.len() && #[trigger] file_name_spec(p)->0[i] == '.'
}

/// The error checking a registered file gives, where `found` tells whether the file
/// `full` exists (`None` where that could not be read): none when it has an extension
/// and exists.
pub open spec fn validity_error_spec(full: Seq<char>, found: Option<bool>) -> Option<(ErrorKind, Seq<char>)> {
    let name = crate::files::file_name_from_str_spec(full);
    if !path_has_extension(full) {
        Some((ErrorKind::InvalidInput, "\""@ + name + "\" does not have an extention"@))
    } else {
        match found {
            Some(true) => None,
            Some(false) => Some((ErrorKind::NotFound, "'"@ + name + "' can not be found on machine"@)),
            None => Some((ErrorKind::PermissionDenied, "Path \""@ + full + "\"'s existance can neither be confirmed nor denied"@)),
        }
    }
}

/// the error checking the registered file `full` gives, where `found` tells whether it
/// exists (`None` where that could not be read)
pub fn validity_error(full: &str, found: Option<bool>) -> (r: Option<Error>)
    ensures
        match validity_error_spec(full@, found) {
            Some(e) => r matches Some(x) && err_view(x) == e,
            None => r is None,
        },
{
    let name = crate::files::file_name_from_str(full);
    let has_ext = match file_name(full) {
        Some(n) => {
            let v = crate::text::chars_of(n.as_str());
            let mut i: usize = 1;
            let mut seen = false;
            while i < v.len()
                invariant
                    1 <= i <= v@.len() || v@.len() == 0,
                    v@ == n@,
                    seen == exists|j: int| 1 <= j < i && v@[j] == '.',
                decreases v@.len() - i,
            {
                if v[i] == '.' {
                    seen = true;
                }
                i = i + 1;
            }
            proof {
                let fname = file_name_spec(full@)->0;
                assert(fname == n@);
                if seen {
                    let j = choose|j: int| 1 <= j < i && v@[j] == '.';
                    assert(fname[j] == '.');
                }
                if path_has_extension(full@) {
                    let j = choose|j: int| 1 <= j < fname.len() && #[trigger] fname[j] == '.';
                    assert(v@[j] == '.');
                }
            }
            seen
        },
        None => false,
    };
    assert(has_ext == path_has_extension(full@));
    if !has_ext {
        let m = concat("\"", name);
        return Some(Error::from_string(ErrorKind::InvalidInput, concat(m.as_str(), "\" does not have an extention")));
    }
    match found {
        Some(true) => None,
        Some(false) => {
            let m = concat("'", name);
            Some(Error::from_string(ErrorKind::NotFound, concat(m.as_str(), "' can not be found on machine")))
        },
        None => {
            let m = concat("Path \"", full);
            Some(Error::from_string(ErrorKind::PermissionDenied, concat(m.as_str(), "\"'s existance can neither be confirmed nor denied")))
        },
    }
}

/// The note added to the warning about a file dropped from the mod `name`.
pub open spec fn dropped_file_note(path: Seq<char>, name: Seq<char>) -> Seq<char> {
    "File: '"@ + path + "' was removed, and is no longer associated with: "@ + replace_char_spec(name, '_', ' ')
}

/// the note added to the warning about the file `path` dropped from the mod `name`
pub fn dropped_file_note_text(path: &str, name: &str) -> (r: String)
    ensures
        r@ == dropped_file_note(path@, name@),
{
    let m = concat("File: '", path);
    let m = concat(m.as_str(), "' was removed, and is no longer associated with: ");
    let n = replace_char(name, '_', ' ');
    concat(m.as_str(), n.as_str())
}

/// What becomes of a collected mod once its files were checked on disk.
#[derive(Debug)]
pub enum CollectStep {
    /// the mod can not be used: it is forgotten, as it then stands, and the error is shown
    Forget(Error, RegMod),
    /// the mod is kept, with the files that were dropped from it removed
    Keep(RegMod),
}

/// The files of a mod, by bucket: (`dll`, `config`, `other`).
pub open spec fn files_view(f: SplitFiles) -> (Seq<Seq<char>>, Seq<Seq<char>>, Seq<Seq<char>>) {
    (strings_view(f.dll@), strings_view(f.config@), strings_view(f.other@))
}

/// `SplitFiles::remove` of `path`: the files without it, or `None` when it is not there.
pub open spec fn remove_file_spec(fv: (Seq<Seq<char>>, Seq<Seq<char>>, Seq<Seq<char>>), path: Seq<char>)
    -> Option<(Seq<Seq<char>>, Seq<Seq<char>>, Seq<Seq<char>>)>
{
    match bucket_spec(path) {
        Bucket::Dll => match first_pos(fv.0, path) {
            Some(i) => Some((swap_remove_spec(fv.0, i), fv.1, fv.2)),
            None => None,
        },
        Bucket::Config => match first_pos(fv.1, path) {
            Some(i) => Some((fv.0, swap_remove_spec(fv.1, i), fv.2)),
            None => None,
        },
        Bucket::Other => match first_pos(fv.2, path) {
            Some(i) => Some((fv.0, fv.1, swap_remove_spec(fv.2, i))),
            None => None,
        },
    }
}

/// The (file, kind, message) of each file that failed its check.
pub open spec fn invalid_view(v: Seq<(String, Error)>) -> Seq<(Seq<char>, ErrorKind, Seq<char>)> {
    v.map_values(|e: (String, Error)| (e.0@, e.1.kind, e.1.msg@))
}

/// The (kind, message) of each failed file.
pub open spec fn kinds_msgs(v: Seq<(Seq<char>, ErrorKind, Seq<char>)>) -> Seq<(ErrorKind, Seq<char>)> {
    v.map_values(|e: (Seq<char>, ErrorKind, Seq<char>)| (e.1, e.2))
}

/// The (kind, message) of each error.
pub open spec fn errors_view(v: Seq<Error>) -> Seq<(ErrorKind, Seq<char>)> {
    v.map_values(|e: Error| (e.kind, e.msg@))
}

/// Screening the files that failed their check, from the last one back: each is
/// removed from the mod and its error, with a note that it was dropped, becomes a
/// warning; the first that can not be removed makes the mod be forgotten with its
/// error, the errors not yet looked at becoming warnings in their order. Gives
/// (kept, the files left, the error the mod is forgotten with, the warnings).
pub open spec fn screen_spec(
    fv: (Seq<Seq<char>>, Seq<Seq<char>>, Seq<Seq<char>>),
    name: Seq<char>,
    errs: Seq<(Seq<char>, ErrorKind, Seq<char>)>,
) -> (bool, (Seq<Seq<char>>, Seq<Seq<char>>, Seq<Seq<char>>), (ErrorKind, Seq<char>), Seq<(ErrorKind, Seq<char>)>)
    decreases errs.len(),
{
    if errs.len() == 0 {
        (true, fv, (ErrorKind::Other, Seq::empty()), Seq::empty())
    } else {
        let (file, kind, msg) = errs.last();
        match remove_file_spec(fv, file) {
            Some(fv2) => {
                let rest = screen_spec(fv2, name, errs.drop_last());
                (rest.0, rest.1, rest.2,
                    seq![(kind, msg + crate::error::msg_sep(true) + dropped_file_note(file, name))] + rest.3)
            },
            None => (false, fv, (kind, msg),
                kinds_msgs(errs.drop_last())),
        }
    }
}

/// Moves the errors of `errs` to the end of `warnings`, in their order.
fn push_errors(warnings: &mut Vec<Error>, errs: Vec<(String, Error)>)
    ensures
        errors_view(final(warnings)@) == errors_view(old(warnings)@)
            + kinds_msgs(invalid_view(errs@)),
{
    let ghost w0 = errors_view(warnings@);
    let ghost all = kinds_msgs(invalid_view(errs@));
    let mut rest = errs;
    let ghost n = rest@.len();
    while rest.len() > 0
        invariant
            n == all.len(),
            rest@.len() <= n,
            errors_view(warnings@) == w0 + all.subrange(0, n - rest@.len()),
            kinds_msgs(invalid_view(rest@)) == all.subrange(n - rest@.len(), n as int),
        decreases rest@.len(),
    {
        let ghost r0 = rest@;
        let ghost k = n - rest@.len();
        let (_, e) = rest.remove(0);
        let ghost wb = warnings@;
        let ghost iv0 = kinds_msgs(invalid_view(r0));
        assert(r0[0].1 == e);
        assert(iv0[0] == all.subrange(k, n as int)[0]);
        assert(iv0[0] == (e.kind, e.msg@));
        warnings.push(e);
        assert(warnings@ == wb.push(e));
        assert(errors_view(warnings@) =~= errors_view(wb).push((e.kind, e.msg@)));
        assert(all.subrange(0, k + 1) =~= all.subrange(0, k).push(all[k]));
        assert(errors_view(warnings@) =~= w0 + all.subrange(0, k + 1));
        assert(rest@ =~= r0.subrange(1, r0.len() as int));
        assert forall|j: int| 0 <= j < rest@.len() implies
            #[trigger] kinds_msgs(invalid_view(rest@))[j] == all[k + 1 + j] by {
            assert(rest@[j] == r0[j + 1]);
            assert(iv0[j + 1] == all.subrange(k, n as int)[j + 1]);
        }
        assert(kinds_msgs(invalid_view(rest@)) =~= all.subrange(k + 1, n as int));
    }
    assert(all.subrange(0, n as int) =~= all);
}

/// The step of collecting a mod after its state and its other files were checked on
/// disk: `verified` is the result of checking its state, `invalid_others` holds each
/// other file that failed its check with the error. A failed state check forgets the
/// mod with that error. Else the failed files are removed from the last one back,
/// each adding a warning with a note; the first that can not be removed forgets the
/// mod with its error, the errors not yet looked at becoming warnings. Else the mod is
/// kept without those files (it must be written again when any was removed).
pub fn screen_collected(reg_mod: RegMod, verified: Result<StateCheck, Error>, invalid_others: Vec<(String, Error)>)
    -> (r: (CollectStep, Vec<Error>))
    requires
        forall|j: int| 0 <= j < invalid_others@.len() ==> has_extension(#[trigger] invalid_others@[j].0@),
    ensures
        match verified {
            Err(e) => r.0 matches CollectStep::Forget(f, m) && f.kind == e.kind && f.msg@ == e.msg@ && r.1@.len() == 0
                && files_view(m.files) == files_view(reg_mod.files) && m.name@ == reg_mod.name@
                && m.state == reg_mod.state && m.order == reg_mod.order,
            Ok(_) => {
                let s = screen_spec(files_view(reg_mod.files), reg_mod.name@, invalid_view(invalid_others@));
                &&& errors_view(r.1@) == s.3
                &&& if s.0 {
                    r.0 matches CollectStep::Keep(m) && files_view(m.files) == s.1 && m.name@ == reg_mod.name@
                        && m.state == reg_mod.state && m.order == reg_mod.order
                } else {
                    r.0 matches CollectStep::Forget(f, m) && (f.kind, f.msg@) == s.2 && files_view(m.files) == s.1
                        && m.name@ == reg_mod.name@ && m.state == reg_mod.state && m.order == reg_mod.order
                }
            },
        },
{
    match verified {
        Err(e) => {
            return (CollectStep::Forget(e, reg_mod), Vec::new());
        },
        Ok(_) => {},
    }
    let ghost name = reg_mod.name@;
    let ghost total = screen_spec(files_view(reg_mod.files), name, invalid_view(invalid_others@));
    let ghost state = reg_mod.state;
    let ghost order = reg_mod.order;
    let mut m = reg_mod;
    let mut errs = invalid_others;
    let mut warnings: Vec<Error> = Vec::new();
    while errs.len() > 0
        invariant
            forall|j: int| 0 <= j < errs@.len() ==> has_extension(#[trigger] errs@[j].0@),
            verified is Ok,
            name == reg_mod.name@,
            state == reg_mod.state,
            order == reg_mod.order,
            total == screen_spec(files_view(reg_mod.files), reg_mod.name@, invalid_view(invalid_others@)),
            m.name@ == name,
            m.state == state,
            m.order == order,
            ({
                let s = screen_spec(files_view(m.files), name, invalid_view(errs@));
                total == (s.0, s.1, s.2, errors_view(warnings@) + s.3)
            }),
        decreases errs@.len(),
    {
        let ghost fv = files_view(m.files);
        let ghost e0 = errs@;
        let (file, mut err) = errs.pop().unwrap();
        assert(invalid_view(e0).last() == (file@, err.kind, err.msg@));
        assert(invalid_view(e0).drop_last() =~= invalid_view(errs@));
        assert(has_extension(e0[e0.len() - 1].0@));
        match m.files.remove(file.as_str()) {
            Some(removed) => {
                assert(remove_file_spec(fv, file@) == Some(files_view(m.files)));
                let note = dropped_file_note_text(removed.as_str(), m.name.as_str());
                err.add_msg(note.as_str(), true);
                let ghost w0 = warnings@;
                warnings.push(err);
                assert(errors_view(warnings@) =~= errors_view(w0) + seq![(err.kind, err.msg@)]) by {
                    assert(warnings@ == w0.push(err));
                }
                assert(errors_view(warnings@) =~= errors_view(w0).push(errors_view(warnings@).last()));
            },
            None => {
                assert(remove_file_spec(fv, file@) is None);
                let ghost w0 = errors_view(warnings@);
                let ghost rest = kinds_msgs(invalid_view(errs@));
                assert(rest =~= kinds_msgs(invalid_view(e0).drop_last()));
                assert(screen_spec(fv, name, invalid_view(e0)) == (false, fv, (err.kind, err.msg@), rest));
                push_errors(&mut warnings, errs);
                assert(files_view(m.files) == fv);
                return (CollectStep::Forget(err, m), warnings);
            },
        }
    }
    assert(errors_view(warnings@) + Seq::<(ErrorKind, Seq<char>)>::empty() =~= errors_view(warnings@));
    (CollectStep::Keep(m), warnings)
}

/// The mods read from the configuration and the warnings met on the way.
#[derive(Debug)]
pub struct CollectedMods {
    pub mods: Vec<RegMod>,
    pub warnings: Option<Error>,
}

impl Default for CollectedMods {
    fn default() -> (r: CollectedMods)
        ensures
            r.mods@.len() == 0,
            r.warnings is None,
    {
        CollectedMods { mods: Vec::new(), warnings: None }
    }
}

/// The state a saved state text reads as: `parse_bool`, and `true` when it is none.
pub open spec fn state_or_true(s: Seq<char>) -> bool {
    match parse_bool_spec(s) {
        Some(b) => b,
        None => true,
    }
}

/// `true` when `collect_mods` can read every mod: each "mod-files" key has a state in
/// "registered-mods" and each file has an extension.
pub open spec fn mods_readable(v: IniView) -> bool {
    &&& section_of(v, Some(INI_SECTIONS[2]@)) is Some
    &&& section_of(v, Some(INI_SECTIONS[3]@)) is Some
    &&& forall|i: int| 0 <= i < file_entries(section_of(v, Some(INI_SECTIONS[3]@))->0).len() ==> {
        let (k, fs) = #[trigger] file_entries(section_of(v, Some(INI_SECTIONS[3]@))->0)[i];
        &&& props_get(section_of(v, Some(INI_SECTIONS[2]@))->0, k) is Some
        &&& all_have_extension(fs)
    }
}

/// `true` when `m` is the mod `RegMod::new` makes of the key `k`, its saved state text
/// and its files.
pub open spec fn new_mod_spec(m: RegMod, k: Seq<char>, state: Seq<char>, fs: Seq<Seq<char>>) -> bool {
    &&& m.name@ == mod_key(k)
    &&& m.state == state_or_true(state)
    &&& strings_view(m.files.dll@) == fs.filter(dll_pred())
    &&& strings_view(m.files.config@) == fs.filter(cfg_pred())
    &&& strings_view(m.files.other@) == fs.filter(other_pred())
    &&& !m.order.set && m.order.i == 0 && m.order.at == 0
}

impl Cfg {
    /// returns every mod as saved, without checking its files on disk: one for each key of
    /// "mod-files", in order, with the state saved in "registered-mods"
    pub fn collect_mods(&self) -> (r: CollectedMods)
        requires
            mods_readable(self.sections()),
        ensures
            r.warnings is None,
            ({
                let v = self.sections();
                let fe = file_entries(section_of(v, Some(INI_SECTIONS[3]@))->0);
                &&& r.mods@.len() == fe.len()
                &&& forall|i: int| 0 <= i < fe.len() ==> new_mod_spec(#[trigger] r.mods@[i], fe[i].0,
                    props_get(section_of(v, Some(INI_SECTIONS[2]@))->0, fe[i].0)->0, fe[i].1)
            }),
    {
        let ghost v = self.sections();
        let state_sec = match ini_section(self.data(), Some(INI_SECTIONS[2])) {
            Some(p) => p,
            None => vstd::pervasive::unreached(),
        };
        let file_sec = match ini_section(self.data(), Some(INI_SECTIONS[3])) {
            Some(p) => p,
            None => vstd::pervasive::unreached(),
        };
        let entries = collect_paths(file_sec);
        let ghost fe = file_pairs_view(entries@);
        let ghost sp = props_entries(*state_sec);
        let mut mods: Vec<RegMod> = Vec::new();
        let mut i: usize = 0;
        while i < entries.len()
            invariant
                i <= entries@.len(),
                fe == file_pairs_view(entries@),
                fe == file_entries(section_of(v, Some(INI_SECTIONS[3]@))->0),
                sp == section_of(v, Some(INI_SECTIONS[2]@))->0,
                sp == props_entries(*state_sec),
                mods_readable(v),
                mods@.len() == i,
                forall|j: int| 0 <= j < i ==> new_mod_spec(#[trigger] mods@[j], fe[j].0, props_get(sp, fe[j].0)->0, fe[j].1),
            decreases entries@.len() - i,
        {
            let k = entries[i].0.as_str();
            assert(fe[i as int] == (k@, strings_view(entries@[i as int].1@)));
            assert(props_get(sp, fe[i as int].0) is Some && all_have_extension(fe[i as int].1));
            let s = match props_get_value(state_sec, k) {
                Some(s) => s,
                None => vstd::pervasive::unreached(),
            };
            let state = match parse_bool(s) {
                Ok(b) => b,
                Err(_) => true,
            };
            let files = entries[i].1.clone();
            assert(files@ == entries@[i as int].1@);
            let m = RegMod::new(k, state, files);
            assert(new_mod_spec(m, fe[i as int].0, props_get(sp, fe[i as int].0)->0, fe[i as int].1));
            mods.push(m);
            i = i + 1;
        }
        CollectedMods { mods, warnings: None }
    }
}


/// The keys of a sequence of pairs.
pub open spec fn keys_of<V>(p: Seq<(Seq<char>, V)>) -> Seq<Seq<char>> {
    p.map_values(|e: (Seq<char>, V)| e.0)
}

/// The distinct elements of `keys`, in the order they first appear.
pub open spec fn distinct(keys: Seq<Seq<char>>) -> Seq<Seq<char>>
    decreases keys.len(),
{
    if keys.len() == 0 {
        Seq::empty()
    } else {
        let d = distinct(keys.drop_last());
        if d.contains(keys.last()) {
            d
        } else {
            d.push(keys.last())
        }
    }
}

/// The value of the last pair with key `k`: what a map collected from the pairs holds.
pub open spec fn last_value<V>(p: Seq<(Seq<char>, V)>, k: Seq<char>) -> Option<V>
    decreases p.len(),
{
    if p.len() == 0 {
        None
    } else if p.last().0 == k {
        Some(p.last().1)
    } else {
        last_value(p.drop_last(), k)
    }
}

proof fn lemma_prefix_step<V>(p: Seq<(Seq<char>, V)>, i: int)
    requires
        0 <= i < p.len(),
    ensures
        p.subrange(0, i + 1).drop_last() == p.subrange(0, i),
        p.subrange(0, i + 1).last() == p[i],
        keys_of(p.subrange(0, i + 1)) == keys_of(p.subrange(0, i)).push(p[i].0),
        keys_of(p.subrange(0, i + 1)).drop_last() == keys_of(p.subrange(0, i)),
{
    assert(p.subrange(0, i + 1).drop_last() =~= p.subrange(0, i));
    assert(keys_of(p.subrange(0, i + 1)) =~= keys_of(p.subrange(0, i)).push(p[i].0));
    assert(keys_of(p.subrange(0, i + 1)).drop_last() =~= keys_of(p.subrange(0, i)));
}

proof fn lemma_distinct(keys: Seq<Seq<char>>)
    ensures
        distinct(keys).no_duplicates(),
        forall|x: Seq<char>| distinct(keys).contains(x) <==> keys.contains(x),
    decreases keys.len(),
{
    if keys.len() > 0 {
        let init = keys.drop_last();
        lemma_distinct(init);
        let d = distinct(init);
        let l = keys.last();
        assert forall|x: Seq<char>| distinct(keys).contains(x) <==> keys.contains(x) by {
            if keys.contains(x) {
                let q = choose|q: int| 0 <= q < keys.len() && keys[q] == x;
                if q < keys.len() - 1 {
                    assert(init[q] == x);
                }
            }
            if init.contains(x) {
                let q = choose|q: int| 0 <= q < init.len() && init[q] == x;
                assert(keys[q] == x);
            }
            if x == l {
                assert(keys[keys.len() - 1] == x);
            }
            if !d.contains(l) {
                let e = d.push(l);
                if e.contains(x) && x != l {
                    let q = choose|q: int| 0 <= q < e.len() && e[q] == x;
                    assert(d[q] == x);
                }
                if d.contains(x) {
                    let q = choose|q: int| 0 <= q < d.len() && d[q] == x;
                    assert(e[q] == x);
                }
                assert(e[e.len() - 1] == l);
            }
        }
        if !d.contains(l) {
            let e = d.push(l);
            assert forall|i: int, j: int| 0 <= i < e.len() && 0 <= j < e.len() && i != j implies e[i] != e[j] by {
                if i < d.len() && j < d.len() {
                    assert(e[i] == d[i] && e[j] == d[j]);
                } else if i < d.len() {
                    assert(e[i] == d[i]);
                } else if j < d.len() {
                    assert(e[j] == d[j]);
                }
            }
        }
    }
}

/// The position of `k` among the keys of `v`.
fn key_position<V>(v: &Vec<(String, V)>, k: &str) -> (r: Option<usize>)
    ensures
        match r {
            Some(j) => j < v@.len() && v@[j as int].0@ == k@,
            None => !v@.map_values(|e: (String, V)| e.0@).contains(k@),
        },
{
    let mut j: usize = 0;
    while j < v.len()
        invariant
            j <= v@.len(),
            forall|q: int| 0 <= q < j ==> v@[q].0@ != k@,
        decreases v@.len() - j,
    {
        if str_eq(v[j].0.as_str(), k) {
            return Some(j);
        }
        j = j + 1;
    }
    proof {
        let ks = v@.map_values(|e: (String, V)| e.0@);
        assert forall|q: int| 0 <= q < ks.len() implies #[trigger] ks[q] != k@ by {
            assert(ks[q] == v@[q].0@);
        }
    }
    None
}

/// The view of collected (key, state) pairs.
pub open spec fn state_pairs_view(v: Seq<(String, String)>) -> Seq<(Seq<char>, Seq<char>)> {
    v.map_values(|e: (String, String)| (e.0@, e.1@))
}

/// "registered-mods" collected into a map: each key once, in the order it first
/// appears, with the value of its last entry
fn collect_states(pairs: &Vec<(&str, &str)>) -> (r: Vec<(String, String)>)
    ensures
        keys_of(state_pairs_view(r@)) == distinct(keys_of(pairs@.map_values(|e: (&str, &str)| (e.0@, e.1@)))),
        forall|j: int| 0 <= j < r@.len() ==> Some(#[trigger] r@[j].1@) == last_value(pairs@.map_values(|e: (&str, &str)| (e.0@, e.1@)), r@[j].0@),
{
    let ghost pv = pairs@.map_values(|e: (&str, &str)| (e.0@, e.1@));
    let mut r: Vec<(String, String)> = Vec::new();
    let mut i: usize = 0;
    assert(keys_of(pv.subrange(0, 0)) =~= Seq::<Seq<char>>::empty());
    assert(keys_of(state_pairs_view(r@)) =~= Seq::<Seq<char>>::empty());
    while i < pairs.len()
        invariant
            i <= pairs@.len(),
            pv == pairs@.map_values(|e: (&str, &str)| (e.0@, e.1@)),
            keys_of(state_pairs_view(r@)) == distinct(keys_of(pv.subrange(0, i as int))),
            forall|j: int| 0 <= j < r@.len() ==> Some(#[trigger] r@[j].1@) == last_value(pv.subrange(0, i as int), r@[j].0@),
        decreases pairs@.len() - i,
    {
        let (k, v) = pairs[i];
        proof {
            lemma_prefix_step(pv, i as int);
            assert(pv[i as int] == (k@, v@));
        }
        let ghost before = r@;
        let ghost ks = keys_of(state_pairs_view(r@));
        assert(ks =~= r@.map_values(|e: (String, String)| e.0@));
        let ghost mut pos: int = before.len() as int;
        match key_position(&r, k) {
            Some(j) => {
                r.set(j, (k.to_owned(), v.to_owned()));
                proof {
                    pos = j as int;
                    assert(ks[j as int] == k@);
                    assert(ks.contains(k@));
                    assert(keys_of(state_pairs_view(r@)) =~= ks);
                }
            },
            None => {
                r.push((k.to_owned(), v.to_owned()));
                proof {
                    assert(keys_of(state_pairs_view(r@)) =~= ks.push(k@));
                }
            },
        }
        proof {
            lemma_distinct(keys_of(pv.subrange(0, i as int)));
        }
        assert forall|j: int| 0 <= j < r@.len() implies Some(#[trigger] r@[j].1@) == last_value(pv.subrange(0, i + 1), r@[j].0@) by {
            if j == pos {
                assert(r@[j].0@ == k@);
            } else {
                assert(r@[j] == before[j]);
                assert(ks[j] == before[j].0@);
                if pos < before.len() {
                    assert(ks[pos] == k@);
                }
                assert(before[j].0@ != k@);
                assert(Some(before[j].1@) == last_value(pv.subrange(0, i as int), before[j].0@));
            }
        }
        i = i + 1;
    }
    assert(pv.subrange(0, pairs@.len() as int) =~= pv);
    r
}

/// "mod-files" collected into a map: each key once, in the order it first appears,
/// with the files of its last entry
fn collect_files(entries: &Vec<(String, Vec<String>)>) -> (r: Vec<(String, Vec<String>)>)
    ensures
        keys_of(file_pairs_view(r@)) == distinct(keys_of(file_pairs_view(entries@))),
        forall|j: int| 0 <= j < r@.len() ==> Some(strings_view(#[trigger] r@[j].1@)) == last_value(file_pairs_view(entries@), r@[j].0@),
{
    let ghost pv = file_pairs_view(entries@);
    let mut r: Vec<(String, Vec<String>)> = Vec::new();
    let mut i: usize = 0;
    assert(keys_of(pv.subrange(0, 0)) =~= Seq::<Seq<char>>::empty());
    assert(keys_of(file_pairs_view(r@)) =~= Seq::<Seq<char>>::empty());
    while i < entries.len()
        invariant
            i <= entries@.len(),
            pv == file_pairs_view(entries@),
            keys_of(file_pairs_view(r@)) == distinct(keys_of(pv.subrange(0, i as int))),
            forall|j: int| 0 <= j < r@.len() ==> Some(strings_view(#[trigger] r@[j].1@)) == last_value(pv.subrange(0, i as int), r@[j].0@),
        decreases entries@.len() - i,
    {
        let k = entries[i].0.as_str();
        let fs = entries[i].1.clone();
        proof {
            lemma_prefix_step(pv, i as int);
            assert(pv[i as int] == (k@, strings_view(fs@)));
        }
        let ghost before = r@;
        let ghost ks = keys_of(file_pairs_view(r@));
        assert(ks =~= r@.map_values(|e: (String, Vec<String>)| e.0@));
        let ghost mut pos: int = before.len() as int;
        match key_position(&r, k) {
            Some(j) => {
                r.set(j, (k.to_owned(), fs));
                proof {
                    pos = j as int;
                    assert(ks[j as int] == k@);
                    assert(ks.contains(k@));
                    assert(keys_of(file_pairs_view(r@)) =~= ks);
                }
            },
            None => {
                r.push((k.to_owned(), fs));
                proof {
                    assert(keys_of(file_pairs_view(r@)) =~= ks.push(k@));
                }
            },
        }
        proof {
            lemma_distinct(keys_of(pv.subrange(0, i as int)));
        }
        assert forall|j: int| 0 <= j < r@.len() implies Some(strings_view(#[trigger] r@[j].1@)) == last_value(pv.subrange(0, i + 1), r@[j].0@) by {
            if j == pos {
                assert(r@[j].0@ == k@);
            } else {
                assert(r@[j] == before[j]);
                assert(ks[j] == before[j].0@);
                if pos < before.len() {
                    assert(ks[pos] == k@);
                }
                assert(before[j].0@ != k@);
                assert(Some(strings_view(before[j].1@)) == last_value(pv.subrange(0, i as int), before[j].0@));
            }
        }
        i = i + 1;
    }
    assert(pv.subrange(0, entries@.len() as int) =~= pv);
    r
}


proof fn lemma_last_value_keys<V>(p: Seq<(Seq<char>, V)>, k: Seq<char>)
    ensures
        last_value(p, k) is Some <==> keys_of(p).contains(k),
    decreases p.len(),
{
    if p.len() > 0 {
        lemma_last_value_keys(p.drop_last(), k);
        if keys_of(p).contains(k) && p.last().0 != k {
            let q = choose|q: int| 0 <= q < keys_of(p).len() && keys_of(p)[q] == k;
            assert(q < p.len() - 1);
            assert(keys_of(p.drop_last())[q] == k);
        }
        if keys_of(p.drop_last()).contains(k) {
            let q = choose|q: int| 0 <= q < keys_of(p.drop_last()).len() && keys_of(p.drop_last())[q] == k;
            assert(keys_of(p)[q] == k);
        }
        if p.last().0 == k {
            assert(keys_of(p)[p.len() - 1] == k);
        }
    }
}

/// The mods with both a state and files: (key, state, files) for each key `ks` lists
/// (those of "registered-mods") that "mod-files" also holds.
pub open spec fn synced_mods(ks: Seq<Seq<char>>, sp: PropsView, fe: Seq<(Seq<char>, Seq<Seq<char>>)>) -> Seq<(Seq<char>, Seq<char>, Seq<Seq<char>>)>
    decreases ks.len(),
{
    if ks.len() == 0 {
        Seq::empty()
    } else {
        let r = synced_mods(ks.drop_last(), sp, fe);
        let k = ks.last();
        match last_value(fe, k) {
            Some(fs) => r.push((k, last_value(sp, k)->0, fs)),
            None => r,
        }
    }
}

/// The keys of `ks` (those of "registered-mods") that "mod-files" lacks.
pub open spec fn keys_without_files(ks: Seq<Seq<char>>, fe: Seq<(Seq<char>, Seq<Seq<char>>)>) -> Seq<Seq<char>>
    decreases ks.len(),
{
    if ks.len() == 0 {
        Seq::empty()
    } else {
        let r = keys_without_files(ks.drop_last(), fe);
        if last_value(fe, ks.last()) is None {
            r.push(ks.last())
        } else {
            r
        }
    }
}

/// The keys of `kf` (those of "mod-files") that "registered-mods" lacks, each with
/// whether it holds more than one file (is saved as an array).
pub open spec fn keys_without_state(kf: Seq<Seq<char>>, sp: PropsView, fe: Seq<(Seq<char>, Seq<Seq<char>>)>) -> Seq<(Seq<char>, bool)>
    decreases kf.len(),
{
    if kf.len() == 0 {
        Seq::empty()
    } else {
        let r = keys_without_state(kf.drop_last(), sp, fe);
        let k = kf.last();
        if last_value(sp, k) is None {
            r.push((k, last_value(fe, k)->0.len() > 1))
        } else {
            r
        }
    }
}

/// The message given when a mod has no files saved.
pub open spec fn no_files_msg(key: Seq<char>) -> Seq<char> {
    key + " not found in section: "@ + INI_SECTIONS[3]@
}

/// The files saved for the mod `key` in "mod-files": the array that follows it, or its
/// one path; an error when it has none.
pub open spec fn mod_files_spec(v: IniView, key: Seq<char>) -> Result<Seq<Seq<char>>, (ErrorKind, Seq<char>)> {
    match section_of(v, Some(INI_SECTIONS[3]@)) {
        Some(p) => match props_get(p, key) {
            Some(val) => if val == ARRAY_VALUE@ {
                Ok(read_array_spec(p, key))
            } else {
                Ok(seq![val])
            },
            None => Err((ErrorKind::InvalidInput, no_files_msg(key))),
        },
        None => Err((ErrorKind::InvalidInput, no_files_msg(key))),
    }
}

impl Cfg {
    /// parses the data saved for the mod `name` (its spaces read as `_`) into a `RegMod`;
    /// its files are read as saved (below `game_dir`): checking them on disk is left to
    /// the caller
    pub fn get_mod(&self, name: &str, game_dir: &str, order_map: Option<&OrderMap>) -> (r: Result<RegMod, Error>)
        requires
            mod_files_spec(self.sections(), replace_char_spec(name@, ' ', '_')) matches Ok(fs)
                ==> all_have_extension(fs),
        ensures
            ({
                let key = replace_char_spec(name@, ' ', '_');
                let v = self.sections();
                match mod_files_spec(v, key) {
                    Err(e) => r matches Err(e2) && err_view(e2) == e,
                    Ok(fs) => match read_bool_spec(v, Some(INI_SECTIONS[2]@), key) {
                        Err(e) => r matches Err(e2) && err_view(e2) == e,
                        Ok(state) => r matches Ok(m) && {
                            &&& m.name@ == key
                            &&& m.state == state
                            &&& strings_view(m.files.dll@) == fs.filter(dll_pred())
                            &&& strings_view(m.files.config@) == fs.filter(cfg_pred())
                            &&& strings_view(m.files.other@) == fs.filter(other_pred())
                            &&& match order_map {
                                Some(map) => (m.order.set, m.order.i as int, m.order.at as int)
                                    == load_order_spec(strings_view(m.files.dll@), map.view()),
                                None => !m.order.set && m.order.i == 0 && m.order.at == 0,
                            }
                        },
                    },
                }
            }),
    {
        let key = replace_char(name, ' ', '_');
        let ghost v = self.sections();
        proof {
            reveal_strlit("array");
            reveal_strlit("mod-files");
            reveal_strlit("paths");
            assert(INI_SECTIONS[3]@ != "paths"@) by {
                assert(INI_SECTIONS[3]@.len() != "paths"@.len());
            }
            match section_of(v, Some(INI_SECTIONS[3]@)) {
                Some(p) => lemma_props_get_has(p, key@),
                None => {},
            }
        }
        let stored = match ini_section(self.data(), Some(INI_SECTIONS[3])) {
            Some(p) => props_get_value(p, key.as_str()),
            None => None,
        };
        let files: Vec<String> = match stored {
            None => {
                let msg = concat(key.as_str(), " not found in section: ");
                let msg = concat(msg.as_str(), INI_SECTIONS[3]);
                return Err(Error::from_string(ErrorKind::InvalidInput, msg));
            },
            Some(val) => {
                if str_eq(val, ARRAY_VALUE) {
                    match IniProperty::<Vec<String>>::read(self.data(), Some(INI_SECTIONS[3]), key.as_str()) {
                        Ok(p) => p.value,
                        Err(e) => return Err(e),
                    }
                } else {
                    match IniProperty::<String>::read(self.data(), Some(INI_SECTIONS[3]), key.as_str(), Some(game_dir)) {
                        Ok(p) => {
                            let mut one: Vec<String> = Vec::new();
                            one.push(p.value);
                            assert(strings_view(one@) =~= seq![val@]);
                            one
                        },
                        Err(e) => return Err(e),
                    }
                }
            },
        };
        let split_files = SplitFiles::from(files);
        let order = match order_map {
            Some(map) => LoadOrder::from(&split_files.dll, map),
            None => LoadOrder::default(),
        };
        let state = match IniProperty::<bool>::read(self.data(), Some(INI_SECTIONS[2]), key.as_str()) {
            Ok(p) => p.value,
            Err(e) => return Err(e),
        };
        Ok(RegMod { name: key, state, files: split_files, order })
    }
}

/// The mods whose state and files are both saved, and the keys saved in only one of
/// the two sections, which are to be removed from the file.
#[derive(Debug)]
pub struct SyncedKeys {
    /// (key, saved state, files) of each mod with both
    pub mods: Vec<(String, String, Vec<String>)>,
    /// keys of "registered-mods" with no files
    pub no_files: Vec<String>,
    /// keys of "mod-files" with no state, and whether their files are an array
    pub no_state: Vec<(String, bool)>,
}

pub open spec fn synced_view(v: Seq<(String, String, Vec<String>)>) -> Seq<(Seq<char>, Seq<char>, Seq<Seq<char>>)> {
    v.map_values(|e: (String, String, Vec<String>)| (e.0@, e.1@, strings_view(e.2@)))
}

pub open spec fn flagged_view(v: Seq<(String, bool)>) -> Seq<(Seq<char>, bool)> {
    v.map_values(|e: (String, bool)| (e.0@, e.1))
}

impl Cfg {
    /// pairs the state and the files saved for every mod; keys saved in only one of
    /// "registered-mods" and "mod-files" are listed for removal from the file
    pub fn sync_keys(&self) -> (r: SyncedKeys)
        requires
            section_of(self.sections(), Some(INI_SECTIONS[2]@)) is Some,
            section_of(self.sections(), Some(INI_SECTIONS[3]@)) is Some,
        ensures
            ({
                let sp = section_of(self.sections(), Some(INI_SECTIONS[2]@))->0;
                let fe = file_entries(section_of(self.sections(), Some(INI_SECTIONS[3]@))->0);
                &&& synced_view(r.mods@) == synced_mods(distinct(keys_of(sp)), sp, fe)
                &&& strings_view(r.no_files@) == keys_without_files(distinct(keys_of(sp)), fe)
                &&& flagged_view(r.no_state@) == keys_without_state(distinct(keys_of(fe)), sp, fe)
            }),
    {
        let state_sec = match ini_section(self.data(), Some(INI_SECTIONS[2])) {
            Some(p) => p,
            None => vstd::pervasive::unreached(),
        };
        let file_sec = match ini_section(self.data(), Some(INI_SECTIONS[3])) {
            Some(p) => p,
            None => vstd::pervasive::unreached(),
        };
        let pairs = props_pairs(state_sec);
        let ghost sp = props_entries(*state_sec);
        assert(pairs@.map_values(|e: (&str, &str)| (e.0@, e.1@)) =~= sp);
        let states = collect_states(&pairs);
        let entries = collect_paths(file_sec);
        let ghost fe = file_pairs_view(entries@);
        let files = collect_files(&entries);
        let ghost ks = distinct(keys_of(sp));
        let ghost kf = distinct(keys_of(fe));
        let mut mods: Vec<(String, String, Vec<String>)> = Vec::new();
        let mut no_files: Vec<String> = Vec::new();
        let mut j: usize = 0;
        assert(ks.subrange(0, 0) =~= Seq::<Seq<char>>::empty());
        assert(synced_view(mods@) =~= Seq::<(Seq<char>, Seq<char>, Seq<Seq<char>>)>::empty());
        assert(strings_view(no_files@) =~= Seq::<Seq<char>>::empty());
        while j < states.len()
            invariant
                j <= states@.len(),
                keys_of(state_pairs_view(states@)) == ks,
                forall|q: int| 0 <= q < states@.len() ==> Some(#[trigger] states@[q].1@) == last_value(sp, states@[q].0@),
                keys_of(file_pairs_view(files@)) == kf,
                forall|q: int| 0 <= q < files@.len() ==> Some(strings_view(#[trigger] files@[q].1@)) == last_value(fe, files@[q].0@),
                kf == distinct(keys_of(fe)),
                synced_view(mods@) == synced_mods(ks.subrange(0, j as int), sp, fe),
                strings_view(no_files@) == keys_without_files(ks.subrange(0, j as int), fe),
            decreases states@.len() - j,
        {
            let k = states[j].0.as_str();
            proof {
                assert(keys_of(state_pairs_view(states@))[j as int] == k@);
                let sub = ks.subrange(0, j + 1);
                assert(sub.drop_last() =~= ks.subrange(0, j as int));
                assert(sub.last() == k@);
                lemma_distinct(keys_of(fe));
                lemma_last_value_keys(fe, k@);
            }
            match key_position(&files, k) {
                Some(p) => {
                    let ghost before = synced_view(mods@);
                    assert(keys_of(file_pairs_view(files@))[p as int] == k@);
                    mods.push((k.to_owned(), states[j].1.clone(), files[p].1.clone()));
                    assert(synced_view(mods@) =~= before.push((k@, last_value(sp, k@)->0, last_value(fe, k@)->0)));
                },
                None => {
                    let ghost before = strings_view(no_files@);
                    assert(files@.map_values(|e: (String, Vec<String>)| e.0@) =~= kf);
                    no_files.push(k.to_owned());
                    assert(strings_view(no_files@) =~= before.push(k@));
                },
            }
            j = j + 1;
        }
        let mut no_state: Vec<(String, bool)> = Vec::new();
        let mut q: usize = 0;
        assert(kf.subrange(0, 0) =~= Seq::<Seq<char>>::empty());
        assert(flagged_view(no_state@) =~= Seq::<(Seq<char>, bool)>::empty());
        while q < files.len()
            invariant
                q <= files@.len(),
                keys_of(state_pairs_view(states@)) == ks,
                ks == distinct(keys_of(sp)),
                keys_of(file_pairs_view(files@)) == kf,
                forall|t: int| 0 <= t < files@.len() ==> Some(strings_view(#[trigger] files@[t].1@)) == last_value(fe, files@[t].0@),
                flagged_view(no_state@) == keys_without_state(kf.subrange(0, q as int), sp, fe),
            decreases files@.len() - q,
        {
            let k = files[q].0.as_str();
            proof {
                assert(keys_of(file_pairs_view(files@))[q as int] == k@);
                let sub = kf.subrange(0, q + 1);
                assert(sub.drop_last() =~= kf.subrange(0, q as int));
                assert(sub.last() == k@);
                lemma_distinct(keys_of(sp));
                lemma_last_value_keys(sp, k@);
            }
            match key_position(&states, k) {
                Some(p) => {
                    assert(keys_of(state_pairs_view(states@))[p as int] == k@);
                },
                None => {
                    let ghost before = flagged_view(no_state@);
                    assert(states@.map_values(|e: (String, String)| e.0@) =~= ks);
                    assert(strings_view(files@[q as int].1@).len() == files@[q as int].1@.len());
                    no_state.push((k.to_owned(), files[q].1.len() > 1));
                    assert(flagged_view(no_state@) =~= before.push((k@, last_value(fe, k@)->0.len() > 1)));
                },
            }
            q = q + 1;
        }
        assert(ks.subrange(0, ks.len() as int) =~= ks);
        assert(kf.subrange(0, kf.len() as int) =~= kf);
        SyncedKeys { mods, no_files, no_state }
    }
}


/// `a < b` for names: the order of `str`, character by character from `i` on.
pub open spec fn name_lt_from(a: Seq<char>, b: Seq<char>, i: int) -> bool
    decreases a.len() - i,
{
    if i < 0 || i >= a.len() {
        0 <= i < b.len()
    } else if i >= b.len() {
        false
    } else if a[i] != b[i] {
        (a[i] as u32) < (b[i] as u32)
    } else {
        name_lt_from(a, b, i + 1)
    }
}

/// `a < b` in the order of `str`.
pub open spec fn name_lt(a: Seq<char>, b: Seq<char>) -> bool {
    name_lt_from(a, b, 0)
}

/// `a < b` for two texts, in the order of `str`
fn str_lt(a: &str, b: &str) -> (r: bool)
    ensures
        r == name_lt(a@, b@),
{
    let n = a.unicode_len();
    let m = b.unicode_len();
    let mut i: usize = 0;
    while i < n && i < m && a.get_char(i) == b.get_char(i)
        invariant
            n == a@.len(),
            m == b@.len(),
            i <= n,
            i <= m,
            name_lt(a@, b@) == name_lt_from(a@, b@, i as int),
        decreases n - i,
    {
        i = i + 1;
    }
    if i >= n {
        i < m
    } else if i >= m {
        false
    } else {
        (a.get_char(i) as u32) < (b.get_char(i) as u32)
    }
}

/// The rank a mod is first sorted by: its load order, or `usize::MAX` when it has none.
pub open spec fn order_rank(m: RegMod) -> int {
    if m.order.set { m.order.at as int } else { usize::MAX as int }
}

/// The number of leading mods of `s` whose rank is at most `v`.
pub open spec fn count_rank_le(s: Seq<RegMod>, v: int) -> nat
    decreases s.len(),
{
    if s.len() == 0 {
        0
    } else if order_rank(s[0]) <= v {
        1 + count_rank_le(s.drop_first(), v)
    } else {
        0
    }
}

/// `sort_by_key` on the rank: a stable sort.
pub open spec fn sort_by_rank(s: Seq<RegMod>) -> Seq<RegMod>
    decreases s.len(),
{
    if s.len() == 0 {
        s
    } else {
        let t = sort_by_rank(s.drop_last());
        t.insert(count_rank_le(t, order_rank(s.last())) as int, s.last())
    }
}

/// The number of leading mods of `s` whose name is not above `x`.
pub open spec fn count_name_le(s: Seq<RegMod>, x: Seq<char>) -> nat
    decreases s.len(),
{
    if s.len() == 0 {
        0
    } else if !name_lt(x, s[0].name@) {
        1 + count_name_le(s.drop_first(), x)
    } else {
        0
    }
}

/// `sort_by_key` on the name: a stable sort.
pub open spec fn sort_by_name(s: Seq<RegMod>) -> Seq<RegMod>
    decreases s.len(),
{
    if s.len() == 0 {
        s
    } else {
        let t = sort_by_name(s.drop_last());
        t.insert(count_name_le(t, s.last().name@) as int, s.last())
    }
}

proof fn lemma_count_rank_le(s: Seq<RegMod>, v: int)
    ensures
        count_rank_le(s, v) <= s.len(),
    decreases s.len(),
{
    if s.len() > 0 {
        lemma_count_rank_le(s.drop_first(), v);
    }
}

proof fn lemma_sort_by_rank_len(s: Seq<RegMod>)
    ensures
        sort_by_rank(s).len() == s.len(),
    decreases s.len(),
{
    if s.len() > 0 {
        lemma_sort_by_rank_len(s.drop_last());
        lemma_count_rank_le(sort_by_rank(s.drop_last()), order_rank(s.last()));
    }
}

proof fn lemma_set_count(s: Seq<RegMod>)
    ensures
        set_count(s) <= s.len(),
    decreases s.len(),
{
    if s.len() > 0 {
        lemma_set_count(s.drop_last());
    }
}

/// The number of mods with a load order.
pub open spec fn set_count(s: Seq<RegMod>) -> nat
    decreases s.len(),
{
    if s.len() == 0 {
        0
    } else {
        set_count(s.drop_last()) + if s.last().order.set { 1nat } else { 0nat }
    }
}

/// The order the app shows mods in: sorted by load order, mods without one last; then
/// everything after the first `set_count` mods sorted by name.
pub open spec fn display_order(b: Seq<RegMod>) -> Seq<RegMod> {
    let t = sort_by_rank(b);
    let c = set_count(b) as int;
    t.subrange(0, c) + sort_by_name(t.subrange(c, t.len() as int))
}

/// From a common prefix of length `i` on, exactly one of two different names comes
/// first, and a name never comes before itself.
proof fn lemma_name_lt_from(a: Seq<char>, b: Seq<char>, i: int)
    requires
        0 <= i <= a.len(),
        i <= b.len(),
        forall|k: int| 0 <= k < i ==> a[k] == b[k],
    ensures
        a == b ==> !name_lt_from(a, b, i),
        a != b ==> name_lt_from(a, b, i) != name_lt_from(b, a, i),
    decreases a.len() - i,
{
    if i < a.len() && i < b.len() && a[i] == b[i] {
        lemma_name_lt_from(a, b, i + 1);
    } else if i == a.len() && i == b.len() {
        assert(a =~= b);
    } else if i < a.len() && i < b.len() {
        vstd::utf8::char_u32_cast(a[i], a[i] as u32);
        vstd::utf8::char_u32_cast(b[i], b[i] as u32);
    }
}

/// Coming first is transitive, from a common prefix of length `i` on.
proof fn lemma_name_lt_trans_from(a: Seq<char>, b: Seq<char>, c: Seq<char>, i: int)
    requires
        0 <= i <= a.len(),
        i <= b.len(),
        i <= c.len(),
        forall|k: int| 0 <= k < i ==> a[k] == b[k] && b[k] == c[k],
        name_lt_from(a, b, i),
        name_lt_from(b, c, i),
    ensures
        name_lt_from(a, c, i),
    decreases a.len() - i,
{
    if i < a.len() && i < b.len() && i < c.len() && a[i] == b[i] && b[i] == c[i] {
        lemma_name_lt_trans_from(a, b, c, i + 1);
    }
}

/// Names in the order of `str`: never before themselves, exactly one of two different
/// names first, and transitive.
proof fn lemma_name_order(a: Seq<char>, b: Seq<char>, c: Seq<char>)
    ensures
        !name_lt(a, a),
        a != b ==> name_lt(a, b) != name_lt(b, a),
        name_lt(a, b) ==> !name_lt(b, a),
        name_lt(a, b) && name_lt(b, c) ==> name_lt(a, c),
{
    lemma_name_lt_from(a, a, 0);
    lemma_name_lt_from(a, b, 0);
    if name_lt(a, b) && name_lt(b, c) {
        lemma_name_lt_trans_from(a, b, c, 0);
    }
}

/// The ranks of `s` do not go down.
pub open spec fn rank_sorted(s: Seq<RegMod>) -> bool {
    forall|i: int, j: int| 0 <= i < j < s.len() ==> order_rank(#[trigger] s[i]) <= order_rank(#[trigger] s[j])
}

/// No name of `s` comes before one ahead of it.
pub open spec fn name_sorted(s: Seq<RegMod>) -> bool {
    forall|i: int, j: int| 0 <= i < j < s.len() ==> !name_lt((#[trigger] s[j]).name@, (#[trigger] s[i]).name@)
}

proof fn lemma_count_rank_le_at(t: Seq<RegMod>, v: int)
    ensures
        count_rank_le(t, v) <= t.len(),
        forall|i: int| 0 <= i < count_rank_le(t, v) ==> order_rank(#[trigger] t[i]) <= v,
        count_rank_le(t, v) < t.len() ==> order_rank(t[count_rank_le(t, v) as int]) > v,
    decreases t.len(),
{
    if t.len() > 0 && order_rank(t[0]) <= v {
        lemma_count_rank_le_at(t.drop_first(), v);
        assert forall|i: int| 0 <= i < count_rank_le(t, v) implies order_rank(#[trigger] t[i]) <= v by {
            if i > 0 {
                assert(t[i] == t.drop_first()[i - 1]);
            }
        }
    }
}

proof fn lemma_count_name_le_at(t: Seq<RegMod>, x: Seq<char>)
    ensures
        count_name_le(t, x) <= t.len(),
        forall|i: int| 0 <= i < count_name_le(t, x) ==> !name_lt(x, (#[trigger] t[i]).name@),
        count_name_le(t, x) < t.len() ==> name_lt(x, t[count_name_le(t, x) as int].name@),
    decreases t.len(),
{
    if t.len() > 0 && !name_lt(x, t[0].name@) {
        lemma_count_name_le_at(t.drop_first(), x);
        assert forall|i: int| 0 <= i < count_name_le(t, x) implies !name_lt(x, (#[trigger] t[i]).name@) by {
            if i > 0 {
                assert(t[i] == t.drop_first()[i - 1]);
            }
        }
    }
}

/// Inserting a mod counts it among those with a load order when it has one.
proof fn lemma_set_count_insert(s: Seq<RegMod>, p: int, x: RegMod)
    requires
        0 <= p <= s.len(),
    ensures
        set_count(s.insert(p, x)) == set_count(s) + if x.order.set { 1nat } else { 0nat },
    decreases s.len(),
{
    if p == s.len() {
        assert(s.insert(p, x) =~= s.push(x));
        assert(s.push(x).drop_last() =~= s);
    } else {
        lemma_set_count_insert(s.drop_last(), p, x);
        assert(s.insert(p, x).drop_last() =~= s.drop_last().insert(p, x));
        assert(s.insert(p, x).last() == s.last());
    }
}

/// The mods with a load order in `a + b`.
proof fn lemma_set_count_concat(a: Seq<RegMod>, b: Seq<RegMod>)
    ensures
        set_count(a + b) == set_count(a) + set_count(b),
    decreases b.len(),
{
    if b.len() == 0 {
        assert(a + b =~= a);
    } else {
        lemma_set_count_concat(a, b.drop_last());
        assert((a + b).drop_last() =~= a + b.drop_last());
        assert((a + b).last() == b.last());
    }
}

/// When none of `s` has a load order, none is counted.
proof fn lemma_set_count_none(s: Seq<RegMod>)
    requires
        forall|i: int| 0 <= i < s.len() ==> !(#[trigger] s[i]).order.set,
    ensures
        set_count(s) == 0,
    decreases s.len(),
{
    if s.len() > 0 {
        lemma_set_count_none(s.drop_last());
    }
}

/// When none is counted, none of `s` has a load order.
proof fn lemma_set_count_zero(s: Seq<RegMod>)
    requires
        set_count(s) == 0,
    ensures
        forall|i: int| 0 <= i < s.len() ==> !(#[trigger] s[i]).order.set,
    decreases s.len(),
{
    if s.len() > 0 {
        lemma_set_count_zero(s.drop_last());
        assert forall|i: int| 0 <= i < s.len() implies !(#[trigger] s[i]).order.set by {
            if i < s.len() - 1 {
                assert(s[i] == s.drop_last()[i]);
            }
        }
    }
}

/// Sorting by rank keeps the mods, puts them in rank order and counts the same mods with
/// a load order.
proof fn lemma_sort_by_rank(s: Seq<RegMod>)
    ensures
        sort_by_rank(s).len() == s.len(),
        sort_by_rank(s).to_multiset() == s.to_multiset(),
        rank_sorted(sort_by_rank(s)),
        set_count(sort_by_rank(s)) == set_count(s),
    decreases s.len(),
{
    broadcast use vstd::seq_lib::to_multiset_build, vstd::seq_lib::to_multiset_insert;
    if s.len() == 0 {
    } else {
        let s0 = s.drop_last();
        let x = s.last();
        lemma_sort_by_rank(s0);
        let t0 = sort_by_rank(s0);
        let v = order_rank(x);
        let p = count_rank_le(t0, v) as int;
        lemma_count_rank_le_at(t0, v);
        let t = t0.insert(p, x);
        assert(s0.push(x) =~= s);
        lemma_set_count_insert(t0, p, x);
        assert forall|i: int, j: int| 0 <= i < j < t.len() implies order_rank(#[trigger] t[i]) <= order_rank(#[trigger] t[j]) by {
            if j < p {
                assert(t[i] == t0[i] && t[j] == t0[j]);
            } else if j == p {
                assert(t[i] == t0[i]);
            } else if i < p {
                assert(t[i] == t0[i] && t[j] == t0[j - 1]);
                assert(order_rank(t0[p]) > v);
                if j - 1 > p {
                    assert(order_rank(t0[p]) <= order_rank(t0[j - 1]));
                }
            } else if i == p {
                assert(t[j] == t0[j - 1]);
                assert(order_rank(t0[p]) > v);
                if j - 1 > p {
                    assert(order_rank(t0[p]) <= order_rank(t0[j - 1]));
                }
            } else {
                assert(t[i] == t0[i - 1] && t[j] == t0[j - 1]);
            }
        }
    }
}

/// Sorting by name keeps the mods, puts them in name order and counts the same mods
/// with a load order.
proof fn lemma_sort_by_name(s: Seq<RegMod>)
    ensures
        sort_by_name(s).len() == s.len(),
        sort_by_name(s).to_multiset() == s.to_multiset(),
        name_sorted(sort_by_name(s)),
        set_count(sort_by_name(s)) == set_count(s),
    decreases s.len(),
{
    broadcast use vstd::seq_lib::to_multiset_build, vstd::seq_lib::to_multiset_insert;
    if s.len() == 0 {
    } else {
        let s0 = s.drop_last();
        let x = s.last();
        lemma_sort_by_name(s0);
        let t0 = sort_by_name(s0);
        let xn = x.name@;
        let p = count_name_le(t0, xn) as int;
        lemma_count_name_le_at(t0, xn);
        let t = t0.insert(p, x);
        assert(s0.push(x) =~= s);
        lemma_set_count_insert(t0, p, x);
        assert forall|i: int, j: int| 0 <= i < j < t.len() implies !name_lt((#[trigger] t[j]).name@, (#[trigger] t[i]).name@) by {
            if j < p {
                assert(t[i] == t0[i] && t[j] == t0[j]);
            } else if j == p {
                assert(t[i] == t0[i]);
                lemma_name_order(xn, t0[i].name@, xn);
            } else if i <= p {
                let a = if i == p { xn } else { t0[i].name@ };
                assert(t[j] == t0[j - 1]);
                assert(i < p ==> t[i] == t0[i]);
                let tp = t0[p].name@;
                let tj = t0[j - 1].name@;
                assert(name_lt(xn, tp));
                if j - 1 > p {
                    assert(!name_lt(tj, tp));
                    lemma_name_order(tp, tj, tp);
                    if tp != tj {
                        assert(name_lt(tp, tj));
                        lemma_name_order(xn, tp, tj);
                    }
                }
                assert(name_lt(xn, tj));
                if i < p {
                    assert(!name_lt(xn, a));
                    lemma_name_order(a, xn, tj);
                    if a != xn {
                        lemma_name_order(a, xn, a);
                        assert(name_lt(a, xn));
                        lemma_name_order(a, xn, tj);
                        assert(name_lt(a, tj));
                        lemma_name_order(a, tj, a);
                    }
                } else {
                    lemma_name_order(xn, tj, xn);
                }
            } else {
                assert(t[i] == t0[i - 1] && t[j] == t0[j - 1]);
            }
        }
    }
}

/// The list of mods shows every mod once: first the mods with a load order, by load
/// order, then the others by name.
pub proof fn display_order_sorted(b: Seq<RegMod>)
    requires
        forall|i: int| 0 <= i < b.len() && (#[trigger] b[i]).order.set ==> b[i].order.at < usize::MAX,
    ensures
        ({
            let d = display_order(b);
            let c = set_count(b) as int;
            &&& d.to_multiset() == b.to_multiset()
            &&& forall|i: int| 0 <= i < c ==> (#[trigger] d[i]).order.set
            &&& forall|i: int| c <= i < d.len() ==> !(#[trigger] d[i]).order.set
            &&& forall|i: int, j: int| 0 <= i < j < c ==> (#[trigger] d[i]).order.at <= (#[trigger] d[j]).order.at
            &&& forall|i: int, j: int| c <= i < j < d.len() ==> !name_lt((#[trigger] d[j]).name@, (#[trigger] d[i]).name@)
        }),
{
    broadcast use vstd::seq_lib::lemma_multiset_commutative;
    lemma_sort_by_rank(b);
    let t = sort_by_rank(b);
    let c = set_count(b) as int;
    lemma_set_count(t);
    assert forall|i: int| 0 <= i < t.len() && (#[trigger] t[i]).order.set implies t[i].order.at < usize::MAX by {
        vstd::seq_lib::to_multiset_contains(t, t[i]);
        vstd::seq_lib::to_multiset_contains(b, t[i]);
        assert(t.contains(t[i]));
        let k = choose|k: int| 0 <= k < b.len() && b[k] == t[i];
        assert(b[k].order.set);
    }
    // every mod of `t` before the first without a load order has one
    assert forall|i: int| 0 <= i < c implies (#[trigger] t[i]).order.set by {
        if !t[i].order.set {
            assert forall|j: int| 0 <= j < t.subrange(i, t.len() as int).len() implies !(#[trigger] t.subrange(i, t.len() as int)[j]).order.set by {
                assert(t.subrange(i, t.len() as int)[j] == t[i + j]);
                if j > 0 {
                    assert(order_rank(t[i]) <= order_rank(t[i + j]));
                }
            }
            lemma_set_count_none(t.subrange(i, t.len() as int));
            assert(t =~= t.subrange(0, i) + t.subrange(i, t.len() as int));
            lemma_set_count_concat(t.subrange(0, i), t.subrange(i, t.len() as int));
            lemma_set_count(t.subrange(0, i));
        }
    }
    let head = t.subrange(0, c);
    let tail = t.subrange(c, t.len() as int);
    assert(t =~= head + tail);
    lemma_set_count_concat(head, tail);
    assert forall|i: int| 0 <= i < head.len() implies (#[trigger] head[i]).order.set by {
        assert(head[i] == t[i]);
    }
    assert(set_count(head) == c) by {
        lemma_set_count_all(head);
    }
    assert(set_count(tail) == 0);
    lemma_sort_by_name(tail);
    let n = sort_by_name(tail);
    lemma_set_count_zero(n);
    let d = display_order(b);
    assert(d == head + n);
    assert forall|i: int| 0 <= i < c implies (#[trigger] d[i]).order.set by {
        assert(d[i] == head[i]);
    }
    assert forall|i: int| c <= i < d.len() implies !(#[trigger] d[i]).order.set by {
        assert(d[i] == n[i - c]);
    }
    assert forall|i: int, j: int| 0 <= i < j < c implies (#[trigger] d[i]).order.at <= (#[trigger] d[j]).order.at by {
        assert(d[i] == t[i] && d[j] == t[j]);
        assert(order_rank(t[i]) <= order_rank(t[j]));
    }
    assert forall|i: int, j: int| c <= i < j < d.len() implies !name_lt((#[trigger] d[j]).name@, (#[trigger] d[i]).name@) by {
        assert(d[i] == n[i - c] && d[j] == n[j - c]);
    }
    assert(d.to_multiset() == head.to_multiset().add(n.to_multiset()));
    assert(t.to_multiset() == head.to_multiset().add(tail.to_multiset()));
}

/// When every one of `s` has a load order, all are counted.
proof fn lemma_set_count_all(s: Seq<RegMod>)
    requires
        forall|i: int| 0 <= i < s.len() ==> (#[trigger] s[i]).order.set,
    ensures
        set_count(s) == s.len(),
    decreases s.len(),
{
    if s.len() > 0 {
        lemma_set_count_all(s.drop_last());
    }
}

/// The view of an optional order map.
pub open spec fn order_map_view(o: Option<&OrderMap>) -> Option<Map<Seq<char>, usize>> {
    match o {
        Some(m) => Some(m.view()),
        None => None,
    }
}

/// `true` when `m` is the mod made of the saved `(key, state, files)` with the order
/// data `pov`.
pub open spec fn combined_mod(m: RegMod, d: (Seq<char>, Seq<char>, Seq<Seq<char>>), pov: Option<Map<Seq<char>, usize>>) -> bool {
    &&& m.name@ == d.0
    &&& m.state == state_or_true(d.1)
    &&& strings_view(m.files.dll@) == d.2.filter(dll_pred())
    &&& strings_view(m.files.config@) == d.2.filter(cfg_pred())
    &&& strings_view(m.files.other@) == d.2.filter(other_pred())
    &&& (m.order.set, m.order.i as int, m.order.at as int) == match pov {
        Some(map) => load_order_spec(d.2.filter(dll_pred()), map),
        None => (false, 0, 0),
    }
}

/// `true` when `b` holds the mods made of `data`, one for one.
pub open spec fn combined_mods(b: Seq<RegMod>, data: Seq<(Seq<char>, Seq<char>, Seq<Seq<char>>)>, pov: Option<Map<Seq<char>, usize>>) -> bool {
    &&& b.len() == data.len()
    &&& forall|i: int| 0 <= i < b.len() ==> combined_mod(#[trigger] b[i], data[i], pov)
}

/// the rank of a mod (see `order_rank`)
fn rank_of(m: &RegMod) -> (r: usize)
    ensures
        r as int == order_rank(*m),
{
    if m.order.set {
        m.order.at
    } else {
        usize::MAX
    }
}

fn count_rank_le_exec(s: &Vec<RegMod>, x: usize) -> (n: usize)
    ensures
        n as int == count_rank_le(s@, x as int),
        n <= s@.len(),
{
    let mut n: usize = 0;
    assert(s@.subrange(0, s@.len() as int) =~= s@);
    while n < s.len() && rank_of(&s[n]) <= x
        invariant
            n <= s@.len(),
            count_rank_le(s@, x as int) == n + count_rank_le(s@.subrange(n as int, s@.len() as int), x as int),
        decreases s@.len() - n,
    {
        let ghost rest = s@.subrange(n as int, s@.len() as int);
        assert(rest.drop_first() =~= s@.subrange(n + 1, s@.len() as int));
        assert(rest[0] == s@[n as int]);
        n = n + 1;
    }
    proof {
        let rest = s@.subrange(n as int, s@.len() as int);
        if n < s@.len() {
            assert(rest[0] == s@[n as int]);
        }
    }
    n
}

fn count_name_le_exec(s: &Vec<RegMod>, x: &str) -> (n: usize)
    ensures
        n as int == count_name_le(s@, x@),
        n <= s@.len(),
{
    let mut n: usize = 0;
    assert(s@.subrange(0, s@.len() as int) =~= s@);
    while n < s.len() && !str_lt(x, s[n].name.as_str())
        invariant
            n <= s@.len(),
            count_name_le(s@, x@) == n + count_name_le(s@.subrange(n as int, s@.len() as int), x@),
        decreases s@.len() - n,
    {
        let ghost rest = s@.subrange(n as int, s@.len() as int);
        assert(rest.drop_first() =~= s@.subrange(n + 1, s@.len() as int));
        assert(rest[0] == s@[n as int]);
        n = n + 1;
    }
    proof {
        let rest = s@.subrange(n as int, s@.len() as int);
        if n < s@.len() {
            assert(rest[0] == s@[n as int]);
        }
    }
    n
}

/// the mods of `synced` in the order the app shows them (see `display_order`), each
/// with its load order from `parsed_order_val`; their files are not yet checked on disk
pub fn combine_map_data(synced: &SyncedKeys, parsed_order_val: Option<&OrderMap>) -> (r: Vec<RegMod>)
    requires
        forall|i: int| 0 <= i < synced.mods@.len() ==> all_have_extension(strings_view(#[trigger] synced.mods@[i].2@)),
    ensures
        exists|b: Seq<RegMod>| combined_mods(b, synced_view(synced.mods@), order_map_view(parsed_order_val))
            && #[trigger] display_order(b) == r@,
{
    let ghost data = synced_view(synced.mods@);
    let ghost pov = order_map_view(parsed_order_val);
    let ghost mut built: Seq<RegMod> = Seq::empty();
    let mut sorted: Vec<RegMod> = Vec::new();
    let mut count: usize = 0;
    let mut i: usize = 0;
    while i < synced.mods.len()
        invariant
            i <= synced.mods@.len(),
            data == synced_view(synced.mods@),
            pov == order_map_view(parsed_order_val),
            forall|q: int| 0 <= q < synced.mods@.len() ==> all_have_extension(strings_view(#[trigger] synced.mods@[q].2@)),
            built.len() == i,
            forall|q: int| 0 <= q < i ==> combined_mod(#[trigger] built[q], data[q], pov),
            sorted@ == sort_by_rank(built),
            count as int == set_count(built),
            count <= i,
        decreases synced.mods@.len() - i,
    {
        let files = synced.mods[i].2.clone();
        assert(files@ == synced.mods@[i as int].2@);
        let split = SplitFiles::from(files);
        let order = match parsed_order_val {
            Some(map) => LoadOrder::from(&split.dll, map),
            None => LoadOrder::default(),
        };
        let state = match parse_bool(synced.mods[i].1.as_str()) {
            Ok(b) => b,
            Err(_) => true,
        };
        let m = RegMod::from_split_files(synced.mods[i].0.as_str(), state, split, order);
        let rank = rank_of(&m);
        if m.order.set {
            count = count + 1;
        }
        let pos = count_rank_le_exec(&sorted, rank);
        proof {
            let d = data[i as int];
            assert(d == (synced.mods@[i as int].0@, synced.mods@[i as int].1@, strings_view(synced.mods@[i as int].2@)));
            assert(combined_mod(m, d, pov));
            let nb = built.push(m);
            assert(nb.drop_last() =~= built);
            assert(nb.last() == m);
            assert forall|q: int| 0 <= q < i + 1 implies combined_mod(#[trigger] nb[q], data[q], pov) by {
                if q < i {
                    assert(nb[q] == built[q]);
                }
            }
            built = nb;
        }
        sorted.insert(pos, m);
        i = i + 1;
    }
    proof {
        lemma_sort_by_rank_len(built);
        lemma_set_count(built);
    }
    let ghost ranked = sorted@;
    let mut tail = sorted.split_off(count);
    let ghost tail0 = tail@;
    assert(tail0 == ranked.subrange(count as int, ranked.len() as int));
    let mut named: Vec<RegMod> = Vec::new();
    let mut j: usize = 0;
    let total = tail.len();
    assert(tail0.subrange(0, 0) =~= Seq::<RegMod>::empty());
    assert(tail0.subrange(0, tail0.len() as int) =~= tail0);
    while tail.len() > 0
        invariant
            total == tail0.len(),
            j <= total,
            tail@ == tail0.subrange(j as int, total as int),
            named@ == sort_by_name(tail0.subrange(0, j as int)),
        decreases tail@.len(),
    {
        let m = tail.remove(0);
        let pos = count_name_le_exec(&named, m.name.as_str());
        proof {
            let sub = tail0.subrange(0, j + 1);
            assert(sub.drop_last() =~= tail0.subrange(0, j as int));
            assert(sub.last() == m);
        }
        named.insert(pos, m);
        j = j + 1;
        proof {
            assert(tail@ =~= tail0.subrange(j as int, total as int));
        }
    }
    assert(j == total);
    sorted.append(&mut named);
    assert(sorted@ =~= display_order(built));
    sorted
}


/// The keys, lower-cased, as a set.
pub open spec fn lower_set(ks: Seq<Seq<char>>) -> Set<Seq<char>> {
    ks.map_values(|k: Seq<char>| lowercase(k)).to_set()
}

/// The keys of "mod-files" entries other than `array[]`.
pub open spec fn mod_file_keys(p: PropsView) -> Seq<Seq<char>> {
    keys_of(p).filter(|k: Seq<char>| k != ARRAY_KEY@)
}

/// `true` when every key of "mod-files" (lower-cased) is a key of "registered-mods".
pub open spec fn keys_in_sync(sp: PropsView, fp: PropsView) -> bool {
    forall|i: int| 0 <= i < mod_file_keys(fp).len() ==> lower_set(keys_of(sp)).contains(lowercase(#[trigger] mod_file_keys(fp)[i]))
}

/// inserts the lower-cased `k` into `set`, whose members are the lower-cased `ks`
fn insert_lower(set: &mut StrSet, k: &str, Ghost(ks): Ghost<Seq<Seq<char>>>)
    requires
        old(set)@ == lower_set(ks),
    ensures
        final(set)@ == lower_set(ks.push(k@)),
{
    let l = to_lowercase(k);
    let _ = set.insert(l.as_str());
    proof {
        assert(ks.push(k@).map_values(|x: Seq<char>| lowercase(x)) =~= ks.map_values(|x: Seq<char>| lowercase(x)).push(lowercase(k@)));
        ks.map_values(|x: Seq<char>| lowercase(x)).lemma_push_to_set_commute(lowercase(k@));
    }
}

impl Cfg {
    /// returns all the keys (lower-cased) as a set; when a key of "mod-files" is not a key
    /// of "registered-mods", the keys are those of the mods with both (see `sync_keys`)
    /// and the flag says that the file must be synced and read again
    pub fn keys(&self) -> (r: (StrSet, bool))
        requires
            section_of(self.sections(), Some(INI_SECTIONS[2]@)) is Some,
            section_of(self.sections(), Some(INI_SECTIONS[3]@)) is Some,
        ensures
            ({
                let sp = section_of(self.sections(), Some(INI_SECTIONS[2]@))->0;
                let fp = section_of(self.sections(), Some(INI_SECTIONS[3]@))->0;
                if keys_in_sync(sp, fp) {
                    r.0@ == lower_set(keys_of(sp)) && !r.1
                } else {
                    &&& r.0@ == lower_set(synced_mods(distinct(keys_of(sp)), sp, file_entries(fp)).map_values(
                        |e: (Seq<char>, Seq<char>, Seq<Seq<char>>)| e.0))
                    &&& r.1
                }
            }),
    {
        let state_sec = match ini_section(self.data(), Some(INI_SECTIONS[2])) {
            Some(p) => p,
            None => vstd::pervasive::unreached(),
        };
        let file_sec = match ini_section(self.data(), Some(INI_SECTIONS[3])) {
            Some(p) => p,
            None => vstd::pervasive::unreached(),
        };
        let ghost sp = props_entries(*state_sec);
        let ghost fp = props_entries(*file_sec);
        let sk = props_pairs(state_sec);
        let mut set = StrSet::new();
        let mut i: usize = 0;
        assert(keys_of(sp).subrange(0, 0) =~= Seq::<Seq<char>>::empty());
        assert(lower_set(Seq::<Seq<char>>::empty()) =~= Set::<Seq<char>>::empty());
        while i < sk.len()
            invariant
                i <= sk@.len(),
                sk@.len() == sp.len(),
                forall|j: int| 0 <= j < sk@.len() ==> (#[trigger] sk@[j]).0@ == sp[j].0 && sk@[j].1@ == sp[j].1,
                set@ == lower_set(keys_of(sp).subrange(0, i as int)),
            decreases sk@.len() - i,
        {
            insert_lower(&mut set, sk[i].0, Ghost(keys_of(sp).subrange(0, i as int)));
            assert(keys_of(sp).subrange(0, i as int).push(sk@[i as int].0@) =~= keys_of(sp).subrange(0, i + 1));
            i = i + 1;
        }
        assert(keys_of(sp).subrange(0, sp.len() as int) =~= keys_of(sp));
        let fk = props_pairs(file_sec);
        let ghost mk = mod_file_keys(fp);
        let ghost pred = |k: Seq<char>| k != ARRAY_KEY@;
        let mut ok = true;
        let mut q: usize = 0;
        proof {
            reveal_strlit("array[]");
        }
        assert(keys_of(fp).subrange(0, 0).filter(pred) =~= Seq::<Seq<char>>::empty()) by {
            reveal_with_fuel(Seq::filter, 1);
        }
        while q < fk.len() && ok
            invariant
                q <= fk@.len(),
                fk@.len() == fp.len(),
                forall|j: int| 0 <= j < fk@.len() ==> (#[trigger] fk@[j]).0@ == fp[j].0 && fk@[j].1@ == fp[j].1,
                set@ == lower_set(keys_of(sp)),
                pred == (|k: Seq<char>| k != ARRAY_KEY@),
                ok == forall|j: int| 0 <= j < keys_of(fp).subrange(0, q as int).filter(pred).len()
                    ==> set@.contains(lowercase(#[trigger] keys_of(fp).subrange(0, q as int).filter(pred)[j])),
            decreases fk@.len() - q,
        {
            let k = fk[q].0;
            let ghost f0 = keys_of(fp).subrange(0, q as int).filter(pred);
            let ghost sub = keys_of(fp).subrange(0, q + 1);
            assert(sub.drop_last() =~= keys_of(fp).subrange(0, q as int));
            assert(sub.last() == k@);
            assert(sub.filter(pred) == if pred(k@) { f0.push(k@) } else { f0 }) by {
                reveal_with_fuel(Seq::filter, 1);
            }
            if !str_eq(k, ARRAY_KEY) {
                let l = to_lowercase(k);
                if !set.contains(l.as_str()) {
                    ok = false;
                    assert(f0.push(k@)[f0.len() as int] == k@);
                }
                proof {
                    if ok {
                        assert forall|j: int| 0 <= j < f0.push(k@).len() implies set@.contains(lowercase(#[trigger] f0.push(k@)[j])) by {
                            if j < f0.len() {
                                assert(f0.push(k@)[j] == f0[j]);
                            }
                        }
                    }
                }
            }
            q = q + 1;
        }
        proof {
            if ok {
                assert(q == fk@.len());
                assert(keys_of(fp).subrange(0, q as int) =~= keys_of(fp));
            } else {
                let f = keys_of(fp).subrange(0, q as int).filter(pred);
                let j = choose|j: int| 0 <= j < f.len() && !set@.contains(lowercase(#[trigger] f[j]));
                let x = f[j];
                assert(f.contains(x));
                keys_of(fp).subrange(0, q as int).lemma_filter_contains_rev(pred, x);
                keys_of(fp).subrange(0, q as int).lemma_filter_pred(pred, j);
                let t = choose|t: int| 0 <= t < q && keys_of(fp).subrange(0, q as int)[t] == x;
                assert(keys_of(fp)[t] == x);
                keys_of(fp).lemma_filter_contains(pred, t);
                assert(mk.contains(x));
                let u = choose|u: int| 0 <= u < mk.len() && mk[u] == x;
                assert(!lower_set(keys_of(sp)).contains(lowercase(mk[u])));
                assert(!keys_in_sync(sp, fp));
            }
        }
        if ok {
            return (set, false);
        }
        let synced = self.sync_keys();
        let ghost sm = synced_view(synced.mods@).map_values(|e: (Seq<char>, Seq<char>, Seq<Seq<char>>)| e.0);
        let mut set2 = StrSet::new();
        let mut t: usize = 0;
        assert(sm.subrange(0, 0) =~= Seq::<Seq<char>>::empty());
        while t < synced.mods.len()
            invariant
                t <= synced.mods@.len(),
                sm == synced_view(synced.mods@).map_values(|e: (Seq<char>, Seq<char>, Seq<Seq<char>>)| e.0),
                set2@ == lower_set(sm.subrange(0, t as int)),
            decreases synced.mods@.len() - t,
        {
            insert_lower(&mut set2, synced.mods[t].0.as_str(), Ghost(sm.subrange(0, t as int)));
            assert(sm.subrange(0, t as int).push(synced.mods@[t as int].0@) =~= sm.subrange(0, t + 1));
            t = t + 1;
        }
        assert(sm.subrange(0, sm.len() as int) =~= sm);
        (set2, true)
    }
}


/// The number of elements equal to `x`.
pub open spec fn count_found(v: Seq<Option<bool>>, x: Option<bool>) -> nat
    decreases v.len(),
{
    if v.len() == 0 {
        0
    } else {
        count_found(v.drop_last(), x) + if v.last() == x { 1nat } else { 0nat }
    }
}

/// The files of `d` whose name in the other state was not found.
pub open spec fn missing_alts(d: Seq<Seq<char>>, alt_found: Seq<bool>) -> Seq<Seq<char>>
    decreases d.len(),
{
    if d.len() == 0 {
        Seq::empty()
    } else {
        let r = missing_alts(d.drop_last(), alt_found);
        if !alt_found[d.len() - 1] {
            r.push(d.last())
        } else {
            r
        }
    }
}

/// `true` when some file name does not match the state `state`.
pub open spec fn needs_toggle(state: bool, d: Seq<Seq<char>>) -> bool {
    (!state && exists|i: int| 0 <= i < d.len() && state_data_spec(#[trigger] d[i]).0)
        || (state && exists|i: int| 0 <= i < d.len() && !state_data_spec(#[trigger] d[i]).0)
}

/// The state opposite to that of the first `.dll`.
pub open spec fn alt_state(d: Seq<Seq<char>>) -> bool {
    !state_data_spec(d[0]).0
}

/// The message of the error when files are in neither state on disk.
pub open spec fn not_found_msg(files: Seq<Seq<char>>) -> Seq<char> {
    "File(s): "@ + list_text(files) + ", can not be found on machine"@
}

/// The message of the error when the existence of the files could not be checked.
pub open spec fn unsure_msg(files: Seq<Seq<char>>) -> Seq<char> {
    "One or more of: "@ + list_text(files) + ", existance can neither be confirmed nor denied"@
}

/// What is left to do on disk after `verify_state`.
#[derive(Debug)]
pub struct StateCheck {
    /// `Some(was_array)`: the recovered state and file names must be written to file
    pub rewrite: Option<bool>,
    /// the files must be toggled to `self.state`
    pub toggle: bool,
}

impl RegMod {
    /// the state opposite to that of the first `.dll`, and the names the `.dll` files
    /// have in that state (see `toggle_name_state`)
    pub fn alt_state_files(&self) -> (r: (bool, Vec<String>))
        ensures
            self.files.dll@.len() > 0 ==> r.0 == alt_state(strings_view(self.files.dll@)),
            r.1@.len() == self.files.dll@.len(),
            forall|i: int| 0 <= i < r.1@.len() ==> (#[trigger] r.1@[i])@ == toggle_name_spec(self.files.dll@[i]@, r.0),
    {
        let alt = if self.files.dll.len() > 0 { !FileData::state_data_chars(self.files.dll[0].as_str()).0 } else { true };
        (alt, toggle_name_state(self.files.dll.as_slice(), alt))
    }

    /// checks the state and file names of `self` against what is on disk: `found[i]` tells
    /// whether `self.files.dll[i]` exists (`None`: it could not be checked), `alt_found[i]`
    /// whether its name in the other state (`alt_state_files`) exists. When files are
    /// missing but all are found in the other state, the state and names are recovered
    /// and must be written to file; the result says whether the files must then be
    /// toggled to `self.state`
    pub fn verify_state(&mut self, found: &[Option<bool>], alt_found: &[bool]) -> (r: Result<StateCheck, Error>)
        requires
            found@.len() == old(self).files.dll@.len(),
            alt_found@.len() == old(self).files.dll@.len(),
        ensures
            ({
                let d = strings_view(old(self).files.dll@);
                let no_exist = count_found(found@, Some(false));
                let errors = count_found(found@, None);
                if no_exist != 0 && errors == 0 {
                    let alt = alt_state(d);
                    let miss = missing_alts(d, alt_found@);
                    if miss.len() == 0 {
                        let nd = d.map_values(|f: Seq<char>| toggle_name_spec(f, alt));
                        &&& final(self).state == alt
                        &&& strings_view(final(self).files.dll@) == nd
                        &&& final(self).name == old(self).name
                        &&& final(self).files.config == old(self).files.config
                        &&& final(self).files.other == old(self).files.other
                        &&& final(self).order == old(self).order
                        &&& r matches Ok(c) && c.rewrite == Some(d.len() + old(self).files.config@.len()
                            + old(self).files.other@.len() > 1) && c.toggle == needs_toggle(alt, nd)
                    } else {
                        &&& *final(self) == *old(self)
                        &&& r matches Err(e) && e.kind == ErrorKind::NotFound && e.msg@ == not_found_msg(miss)
                    }
                } else if errors != 0 {
                    &&& *final(self) == *old(self)
                    &&& r matches Err(e) && e.kind == ErrorKind::PermissionDenied && e.msg@ == unsure_msg(d)
                } else {
                    &&& *final(self) == *old(self)
                    &&& r matches Ok(c) && c.rewrite is None && c.toggle == needs_toggle(old(self).state, d)
                }
            }),
    {
        let ghost d = strings_view(self.files.dll@);
        let n = found.len();
        let mut no_exist: usize = 0;
        let mut errors: usize = 0;
        let mut i: usize = 0;
        assert(found@.subrange(0, 0) =~= Seq::<Option<bool>>::empty());
        while i < n
            invariant
                n == found@.len(),
                i <= n,
                no_exist == count_found(found@.subrange(0, i as int), Some(false)),
                errors == count_found(found@.subrange(0, i as int), None),
                no_exist <= i,
                errors <= i,
            decreases n - i,
        {
            let ghost sub = found@.subrange(0, i + 1);
            assert(sub.drop_last() =~= found@.subrange(0, i as int));
            assert(sub.last() == found@[i as int]);
            match found[i] {
                Some(false) => {
                    no_exist = no_exist + 1;
                },
                None => {
                    errors = errors + 1;
                },
                Some(true) => {},
            }
            i = i + 1;
        }
        assert(found@.subrange(0, n as int) =~= found@);
        let mut rewrite: Option<bool> = None;
        if no_exist != 0 && errors == 0 {
            let was_array = self.is_array();
            let (alt, toggled) = self.alt_state_files();
            let mut missing: Vec<&str> = Vec::new();
            let mut j: usize = 0;
            assert(d.subrange(0, 0) =~= Seq::<Seq<char>>::empty());
            assert(crate::files::strs_view(missing@) =~= Seq::<Seq<char>>::empty());
            while j < alt_found.len()
                invariant
                    j <= alt_found@.len(),
                    alt_found@.len() == d.len(),
                    d == strings_view(self.files.dll@),
                    crate::files::strs_view(missing@) == missing_alts(d.subrange(0, j as int), alt_found@),
                decreases alt_found@.len() - j,
            {
                let ghost sub = d.subrange(0, j + 1);
                assert(sub.drop_last() =~= d.subrange(0, j as int));
                assert(sub.last() == d[j as int]);
                if !alt_found[j] {
                    let ghost before = crate::files::strs_view(missing@);
                    missing.push(self.files.dll[j].as_str());
                    assert(crate::files::strs_view(missing@) =~= before.push(d[j as int]));
                }
                j = j + 1;
            }
            assert(d.subrange(0, d.len() as int) =~= d);
            if missing.len() > 0 {
                let list = DisplayVec(missing.as_slice()).to_string();
                let mut m = concat("File(s): ", list.as_str());
                m.append(", can not be found on machine");
                proof {
                    reveal_strlit("File(s): ");
                    reveal_strlit(", can not be found on machine");
                    assert(item_texts(missing@) =~= crate::files::strs_view(missing@));
                }
                return Err(Error::from_string(ErrorKind::NotFound, m));
            }
            self.state = alt;
            self.files.dll = toggled;
            proof {
                assert(strings_view(self.files.dll@) =~= d.map_values(|f: Seq<char>| toggle_name_spec(f, alt)));
            }
            rewrite = Some(was_array);
        } else if errors != 0 {
            let list = DisplayVec(self.files.dll.as_slice()).to_string();
            let mut m = concat("One or more of: ", list.as_str());
            m.append(", existance can neither be confirmed nor denied");
            proof {
                reveal_strlit("One or more of: ");
                reveal_strlit(", existance can neither be confirmed nor denied");
                assert(item_texts(self.files.dll@) =~= d);
            }
            return Err(Error::from_string(ErrorKind::PermissionDenied, m));
        }
        let ghost nd = strings_view(self.files.dll@);
        let mut any_enabled = false;
        let mut any_disabled = false;
        let mut k: usize = 0;
        while k < self.files.dll.len()
            invariant
                k <= self.files.dll@.len(),
                nd == strings_view(self.files.dll@),
                any_enabled == exists|q: int| 0 <= q < k && state_data_spec(#[trigger] nd[q]).0,
                any_disabled == exists|q: int| 0 <= q < k && !state_data_spec(#[trigger] nd[q]).0,
            decreases self.files.dll@.len() - k,
        {
            let e = FileData::is_enabled(self.files.dll[k].as_str());
            assert(nd[k as int] == self.files.dll@[k as int]@);
            if e {
                any_enabled = true;
            } else {
                any_disabled = true;
            }
            k = k + 1;
        }
        let toggle = (!self.state && any_enabled) || (self.state && any_disabled);
        Ok(StateCheck { rewrite, toggle })
    }
}


/// Reading a key right after it was set gives back the value set.
pub proof fn read_after_set(v: IniView, section: Seq<char>, key: Seq<char>, value: Seq<char>)
    ensures
        lookup_spec(ini_set_spec(v, Some(section), key, value), Some(section), key)
            == Ok::<Seq<char>, (ErrorKind, Seq<char>)>(value),
{
    crate::ini_store::get_after_set(v, Some(section), key, value);
}

/// A plain value saved under a plain key, in a section with a plain name of a plain
/// document, gives the text of a plain document (so `get_cfg` reads that document back
/// from it), and reading the key there gives back the value.
pub proof fn value_read_after_save(v: IniView, section: Seq<char>, key: Seq<char>, value: Seq<char>)
    requires
        plain_doc(v),
        plain_name(section),
        plain_key(key),
        plain_value(value),
    ensures
        plain_doc(ini_set_spec(v, Some(section), key, value)),
        lookup_spec(ini_set_spec(v, Some(section), key, value), Some(section), key)
            == Ok::<Seq<char>, (ErrorKind, Seq<char>)>(value),
{
    crate::ini_store::plain_after_set(v, Some(section), key, value);
    read_after_set(v, section, key, value);
}

/// Reading a key right after it was removed from a section finds it missing; removing
/// keeps a plain document plain (so the text written of it reads back, see `get_cfg`).
pub proof fn read_after_delete(v: IniView, section: Seq<char>, key: Seq<char>)
    requires
        section_of(v, Some(section)) is Some,
    ensures
        lookup_spec(crate::ini_store::ini_delete_spec(v, Some(section), key), Some(section), key)
            == Err::<Seq<char>, (ErrorKind, Seq<char>)>((ErrorKind::NotFound, key_missing_msg(key))),
        plain_doc(v) ==> plain_doc(crate::ini_store::ini_delete_spec(v, Some(section), key)),
{
    let name = Some(section);
    lemma_section_index(v, name);
    let i = section_index(v, name);
    let p = props_without(v[i].1, key);
    lemma_without_no_key(v[i].1, key);
    lemma_section_update(v, name, p);
    let w = crate::ini_store::ini_delete_spec(v, name, key);
    assert(section_of(w, name) == Some(p));
    assert(!props_has(p, key));
    if plain_doc(v) {
        assert(plain_props(v[i].1));
        lemma_without_plain(v[i].1, key);
        assert forall|j: int| 0 <= j < w.len() implies plain_props(#[trigger] w[j].1) by {
            if j != i {
                assert(w[j] == v[j]);
            }
        }
        assert forall|j: int| 1 <= j < w.len() implies plain_header(#[trigger] w[j].0) by {
            assert(w[j].0 == v[j].0);
        }
    }
}

/// Reading a `bool` right after it was saved as `true` or `false` gives back the `bool`.
pub proof fn bool_read_after_set(v: IniView, section: Seq<char>, key: Seq<char>, b: bool)
    ensures
        read_bool_spec(ini_set_spec(v, Some(section), key, bool_text(b)), Some(section), key)
            == Ok::<bool, (ErrorKind, Seq<char>)>(b),
{
    read_after_set(v, section, key, bool_text(b));
    reveal_strlit("true");
    reveal_strlit("false");
    let t = bool_text(b);
    assert(is_ascii_text(t));
    assert(ascii_lowercase(t) =~= t);
    assert(t != seq!['0'] && t != seq!['1']);
    if b {
        assert(t =~= "true"@);
    } else {
        assert(t != "true"@);
        assert(t =~= "false"@);
    }
}


/// Reading a `u32` right after it was saved as its decimal text gives back the number.
pub proof fn u32_read_after_set(v: IniView, section: Seq<char>, key: Seq<char>, n: u32)
    ensures
        read_u32_spec(ini_set_spec(v, Some(section), key, decimal(n as nat)), Some(section), key)
            == Ok::<u32, (ErrorKind, Seq<char>)>(n),
{
    read_after_set(v, section, key, decimal(n as nat));
    crate::text::decimal_reads_back(n as nat, u32::MAX as nat);
}

/// The entries from `i` on all have key `array[]`: the array runs to the end.
proof fn lemma_array_end_all(p: PropsView, i: int)
    requires
        0 <= i <= p.len(),
        forall|j: int| i <= j < p.len() ==> p[j].0 == "array[]"@,
    ensures
        array_end(p, i) == p.len(),
    decreases p.len() - i,
{
    if i < p.len() {
        lemma_array_end_all(p, i + 1);
    }
}

/// `array[]` is a plain key and `array` a plain value.
proof fn lemma_array_words_plain()
    ensures
        plain_key(ARRAY_KEY@),
        plain_value(ARRAY_VALUE@),
{
    reveal_strlit("array[]");
    reveal_strlit("array");
    let k = ARRAY_KEY@;
    assert(k =~= seq!['a', 'r', 'r', 'a', 'y', '[', ']']);
    assert forall|i: int| 0 <= i < k.len() implies #[trigger] k[i] != '=' && k[i] != ':' && k[i] != '\n' && k[i] != '\r' by {
        assert(k[i] == 'a' || k[i] == 'r' || k[i] == 'y' || k[i] == '[' || k[i] == ']');
    }
    let v = ARRAY_VALUE@;
    assert(v =~= seq!['a', 'r', 'r', 'a', 'y']);
    assert forall|i: int| 0 <= i < v.len() implies #[trigger] v[i] != '\n' && v[i] != '\r' by {
        assert(v[i] == 'a' || v[i] == 'r' || v[i] == 'y');
    }
}

/// Paths saved as an array (at least one, each a plain value) under a plain key other
/// than `array[]`, in a section with a plain name of a plain document, give the text of
/// a plain document (so `get_cfg` reads that document back from it), and reading the
/// key there gives back the paths.
pub proof fn paths_read_after_save(v: IniView, section: Seq<char>, key: Seq<char>, files: Seq<Seq<char>>)
    requires
        plain_doc(v),
        plain_name(section),
        plain_key(key),
        key != ARRAY_KEY@,
        files.len() > 0,
        forall|i: int| 0 <= i < files.len() ==> plain_value(#[trigger] files[i]),
    ensures
        ini_text(ini_set_spec(v, Some(section), key, array_value(files)), WRITE_SEPARATOR@)
            == ini_text(set_array_spec(v, Some(section), key, files), WRITE_SEPARATOR@),
        plain_doc(set_array_spec(v, Some(section), key, files)),
        read_paths_spec(set_array_spec(v, Some(section), key, files), Some(section), key)
            == Ok::<Seq<Seq<char>>, (ErrorKind, Seq<char>)>(files),
{
    reveal_strlit("array[]");
    reveal_strlit("array");
    saved_array_lines(v, Some(section), key, files);
    lemma_array_words_plain();
    let name = Some(section);
    let entries = array_entries(key, files);
    let lines = array_lines(files);
    assert(entries[0] == (key, ARRAY_VALUE@));
    assert forall|j: int| 0 <= j < entries.len() implies plain_key(#[trigger] entries[j].0) && plain_value(entries[j].1) by {
        if j > 0 {
            assert(entries[j] == lines[j - 1]);
            assert(lines[j - 1] == (ARRAY_KEY@, files[j - 1]));
        }
    }
    lemma_section_index(v, name);
    let i = section_index(v, name);
    let w = set_array_spec(v, name, key, files);
    let pw = if i < v.len() { props_without(v[i].1, key) + entries } else { entries };
    let pre = if i < v.len() { props_without(v[i].1, key) } else { PropsView::empty() };
    assert(pw =~= pre + entries);
    if i < v.len() {
        assert(plain_props(v[i].1));
        lemma_without_plain(v[i].1, key);
        lemma_without_no_key(v[i].1, key);
        lemma_section_update(v, name, pw);
        assert forall|j: int| 0 <= j < w.len() implies plain_props(#[trigger] w[j].1) by {
            if j == i {
                assert forall|m: int| 0 <= m < pw.len() implies plain_key(#[trigger] pw[m].0) && plain_value(pw[m].1) by {
                    if m < pre.len() {
                        assert(pw[m] == pre[m]);
                    } else {
                        assert(pw[m] == entries[m - pre.len()]);
                    }
                }
            } else {
                assert(w[j] == v[j]);
            }
        }
        assert forall|j: int| 1 <= j < w.len() implies plain_header(#[trigger] w[j].0) by {
            assert(w[j].0 == v[j].0);
        }
    } else {
        lemma_section_index_push(v, name, (name, entries));
        assert forall|j: int| 0 <= j < w.len() implies plain_props(#[trigger] w[j].1) by {
            if j < v.len() {
                assert(w[j] == v[j]);
            }
        }
        assert forall|j: int| 1 <= j < w.len() implies plain_header(#[trigger] w[j].0) by {
            if j < v.len() {
                assert(w[j] == v[j]);
            }
        }
    }
    assert(section_of(w, name) == Some(pw));
    let m = pre.len() as int;
    lemma_key_index_concat(pre, entries, key);
    assert(key_index(pw, key) == m);
    assert(pw[m] == entries[0]);
    assert(pw[m].0 == key);
    assert(props_has(pw, key));
    assert(props_get(pw, key) == Some(ARRAY_VALUE@));
    assert(ARRAY_VALUE@ == "array"@);
    assert(pw[m + 1] == lines[0]);
    assert(skip_key(pw, m + 1, key) == m + 1);
    assert(skip_key(pw, m, key) == m + 1);
    assert forall|j: int| m + 1 <= j < pw.len() implies pw[j].0 == "array[]"@ by {
        assert(pw[j] == lines[j - m - 1]);
    }
    lemma_array_end_all(pw, m + 1);
    assert(pw.subrange(m + 1, pw.len() as int).map_values(|e: (Seq<char>, Seq<char>)| e.1) =~= files) by {
        assert forall|j: int| 0 <= j < files.len() implies pw.subrange(m + 1, pw.len() as int)[j].1 == files[j] by {
            assert(pw[m + 1 + j] == lines[j]);
        }
    }
}

} // verus!
