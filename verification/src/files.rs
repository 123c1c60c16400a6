//! File names and their enabled/disabled state, and checks of a directory listing.
use vstd::prelude::*;
use vstd::utf8::encode_utf8;
use crate::error::{Error, ErrorKind};
use crate::paths::{
    file_name, file_name_spec, parent, parent_spec, set_file_name, set_file_name_spec,
    strip_prefix, strip_prefix_spec,
};
use crate::text::{
    concat, find, rfind_char, spec_find, spec_rfind, str_eq, to_ascii_lowercase,
};
use crate::OFF_STATE;
use crate::paths::{last_part, lemma_seg_start_bounds, seg_start, trim_end_seps};
use crate::text::{ascii_lowercase, occurs_at};

verus! {

/// The text that marks a disabled file: `.disabled`.
pub open spec fn off_state() -> Seq<char> {
    seq!['.', 'd', 'i', 's', 'a', 'b', 'l', 'e', 'd']
}

proof fn lemma_off_state()
    ensures
        OFF_STATE@ == off_state(),
{
    reveal_strlit(".disabled");
    assert(OFF_STATE@ =~= off_state());
}

/// `FileData::state_data`: `(enabled, index)`; a name is disabled when the first
/// `.disabled` in it ends it, and `index` is where that `.disabled` starts.
pub open spec fn state_data_spec(s: Seq<char>) -> (bool, int) {
    match spec_find(s, off_state()) {
        Some(i) => (i != s.len() - off_state().len(), i),
        None => (true, 0),
    }
}

/// `true` when `FileData::from` can split the name: its file part holds a `.`.
pub open spec fn has_extension(s: Seq<char>) -> bool {
    let (enabled, idx) = state_data_spec(s);
    if enabled {
        spec_rfind(s, '.') is Some
    } else {
        spec_rfind(s.subrange(0, idx), '.') is Some
    }
}

/// `FileData::from`: `(name, extension, enabled)`; the extension starts at the last
/// `.` before any `.disabled` that ends the name.
pub open spec fn file_data_spec(s: Seq<char>) -> (Seq<char>, Seq<char>, bool) {
    let (enabled, idx) = state_data_spec(s);
    if enabled {
        let d = spec_rfind(s, '.')->0;
        (s.subrange(0, d), s.subrange(d, s.len() as int), true)
    } else {
        let d = spec_rfind(s.subrange(0, idx), '.')->0;
        (s.subrange(0, d), s.subrange(d, idx), false)
    }
}

proof fn lemma_find_bounds(s: Seq<char>, p: Seq<char>, i: int)
    requires
        0 <= i,
    ensures
        crate::text::find_from(s, p, i) matches Some(j) ==> i <= j && j + p.len() <= s.len()
            && crate::text::occurs_at(s, p, j),
    decreases s.len() + 1 - i,
{
    if i + p.len() <= s.len() && !crate::text::occurs_at(s, p, i) {
        lemma_find_bounds(s, p, i + 1);
    }
}

proof fn lemma_rfind_bounds(s: Seq<char>, c: char)
    ensures
        spec_rfind(s, c) matches Some(j) ==> 0 <= j < s.len() && s[j] == c,
    decreases s.len(),
{
    if s.len() > 0 && s.last() != c {
        lemma_rfind_bounds(s.drop_last(), c);
    }
}

pub struct FileData<'a> {
    pub name: &'a str,
    pub extension: &'a str,
    pub enabled: bool,
}

impl<'a> FileData<'a> {
    /// To get an accurate `FileData.name` function input needs `file_name()` called before hand
    /// `FileData.extension` && `FileData.enabled` are accurate with any path str as input
    pub fn from(name: &'a str) -> (r: FileData<'a>)
        requires
            has_extension(name@),
        ensures
            (r.name@, r.extension@, r.enabled) == file_data_spec(name@),
    {
        let n = name.unicode_len();
        let (enabled, index) = FileData::state_data_chars(name);
        proof {
            lemma_off_state();
            lemma_find_bounds(name@, off_state(), 0);
        }
        if enabled {
            let d = rfind_char(name, '.').unwrap();
            proof {
                lemma_rfind_bounds(name@, '.');
            }
            FileData {
                name: name.substring_char(0, d),
                extension: name.substring_char(d, n),
                enabled: true,
            }
        } else {
            let head = name.substring_char(0, index);
            let d = rfind_char(head, '.').unwrap();
            proof {
                lemma_rfind_bounds(head@, '.');
            }
            FileData {
                name: name.substring_char(0, d),
                extension: name.substring_char(d, index),
                enabled: false,
            }
        }
    }

    /// index is only used in the _disabled_ state to locate where `OFF_STATE` begins
    /// saftey check to make sure `OFF_STATE` is found at the end of a `&str`
    ///
    /// The index is a byte offset into `path`, as `str::find` gives it: the length of
    /// the UTF-8 encoding of the characters before the first `.disabled`.
    pub fn state_data(path: &str) -> (r: (bool, usize))
        ensures
            r.0 == state_data_spec(path@).0,
            r.1 == encode_utf8(path@.subrange(0, state_data_spec(path@).1)).len() as usize,
    {
        let (state, index) = FileData::state_data_chars(path);
        proof {
            lemma_off_state();
            lemma_find_bounds(path@, off_state(), 0);
        }
        let head = path.substring_char(0, index);
        assert(head@ == path@.subrange(0, state_data_spec(path@).1));
        (state, head.len())
    }

    /// `state_data` with the index counted in characters.
    pub(crate) fn state_data_chars(path: &str) -> (r: (bool, usize))
        ensures
            (r.0, r.1 as int) == state_data_spec(path@),
    {
        proof {
            lemma_off_state();
        }
        match find(path, OFF_STATE) {
            Some(index) => {
                proof {
                    lemma_find_bounds(path@, off_state(), 0);
                }
                let state = index != path.unicode_len() - OFF_STATE.unicode_len();
                (state, index)
            },
            None => (true, 0),
        }
    }

    /// `true` when `FileData::from` can split `path`: its name holds a `.` before any
    /// `.disabled` that ends it
    pub fn has_extension(path: &str) -> (r: bool)
        ensures
            r == has_extension(path@),
    {
        let (enabled, index) = FileData::state_data_chars(path);
        if enabled {
            rfind_char(path, '.').is_some()
        } else {
            proof {
                lemma_off_state();
                lemma_find_bounds(path@, off_state(), 0);
            }
            let v = crate::text::chars_of(path);
            let head = crate::text::string_of(&v, 0, index);
            assert(head@ == path@.subrange(0, index as int));
            rfind_char(head.as_str(), '.').is_some()
        }
    }

    /// returns `true` if the file is in the enabled state
    pub fn is_enabled(path: &str) -> (r: bool)
        ensures
            r == state_data_spec(path@).0,
    {
        FileData::state_data_chars(path).0
    }

    /// returns `true` if the file is in the disabled state
    pub fn is_disabled(path: &str) -> (r: bool)
        ensures
            r == !state_data_spec(path@).0,
    {
        !FileData::state_data_chars(path).0
    }
}

/// `omit_off_state`: the name without its `.disabled` when it is disabled.
pub open spec fn omit_off_state_spec(s: Seq<char>) -> Seq<char> {
    let (enabled, idx) = state_data_spec(s);
    if enabled {
        s
    } else {
        s.subrange(0, idx)
    }
}

/// removes the off_state if the file name is in the off_state
/// to get an accurate `FileData.name` function input needs `file_name()` called before hand
pub fn omit_off_state(name: &str) -> (r: &str)
    ensures
        r@ == omit_off_state_spec(name@),
{
    let (file_state, index) = FileData::state_data_chars(name);
    if file_state {
        name
    } else {
        proof {
            lemma_off_state();
            lemma_find_bounds(name@, off_state(), 0);
        }
        name.substring_char(0, index)
    }
}

/// `file_name_from_str`: what is right of the last `\`, or the whole text when it
/// has none.
pub open spec fn file_name_from_str_spec(s: Seq<char>) -> Seq<char> {
    match spec_rfind(s, '\\') {
        Some(i) => s.subrange(i + 1, s.len() as int),
        None => s,
    }
}

// returns whats right of the right most '\' or does nothing
pub fn file_name_from_str(s: &str) -> (r: &str)
    ensures
        r@ == file_name_from_str_spec(s@),
{
    let n = s.unicode_len();
    match rfind_char(s, '\\') {
        Some(split) => {
            proof {
                lemma_rfind_bounds(s@, '\\');
            }
            s.substring_char(split + 1, n)
        },
        None => s,
    }
}

/// `toggle_name_state` of one path: the file name (or the whole path when there is
/// none) loses its first `.disabled`, found in any ASCII case, when `new_state` is
/// `true`, or gains a trailing `.disabled` when `new_state` is `false` and it has none.
pub open spec fn toggle_name_spec(p: Seq<char>, new_state: bool) -> Seq<char> {
    let f = match file_name_spec(p) {
        Some(f) => f,
        None => p,
    };
    let new_name = match spec_find(ascii_lowercase(f), off_state()) {
        Some(i) => if new_state && i + off_state().len() <= f.len() {
            f.subrange(0, i) + f.subrange(i + off_state().len(), f.len() as int)
        } else {
            f
        },
        None => if !new_state {
            f + off_state()
        } else {
            f
        },
    };
    set_file_name_spec(p, new_name)
}

/// The new name of one path (see `toggle_name_spec`).
fn toggle_one(path: &str, new_state: bool) -> (r: String)
    ensures
        r@ == toggle_name_spec(path@, new_state),
{
    proof {
        lemma_off_state();
    }
    let name = match file_name(path) {
        Some(f) => f,
        None => path.to_owned(),
    };
    let lower = to_ascii_lowercase(name.as_str());
    let new_name = match find(lower.as_str(), OFF_STATE) {
        Some(index) => {
            let n = name.unicode_len();
            if new_state && index <= n && 9 <= n - index {
                let mut s = name.as_str().substring_char(0, index).to_owned();
                s.append(name.as_str().substring_char(index + 9, n));
                s
            } else {
                name
            }
        },
        None => {
            if !new_state {
                concat(name.as_str(), OFF_STATE)
            } else {
                name
            }
        },
    };
    set_file_name(path, new_name.as_str())
}

/// Takes in a potential path, finds file_name name and outputs the new_state version
pub fn toggle_name_state(file_paths: &[String], new_state: bool) -> (r: Vec<String>)
    ensures
        r@.len() == file_paths@.len(),
        forall|i: int| 0 <= i < r@.len() ==> (#[trigger] r@[i])@ == toggle_name_spec(file_paths@[i]@, new_state),
{
    let mut r: Vec<String> = Vec::new();
    let mut i: usize = 0;
    while i < file_paths.len()
        invariant
            i <= file_paths@.len(),
            r@.len() == i,
            forall|j: int| 0 <= j < i ==> (#[trigger] r@[j])@ == toggle_name_spec(file_paths@[j]@, new_state),
        decreases file_paths@.len() - i,
    {
        r.push(toggle_one(file_paths[i].as_str(), new_state));
        i = i + 1;
    }
    r
}

/// The paths of `paths` whose parts begin with those of `remove`, shortened.
pub open spec fn shortened(paths: Seq<Seq<char>>, remove: Seq<char>) -> Seq<Seq<char>>
    decreases paths.len(),
{
    if paths.len() == 0 {
        Seq::empty()
    } else {
        let rest = shortened(paths.drop_last(), remove);
        match strip_prefix_spec(paths.last(), remove) {
            Some(s) => rest.push(s),
            None => rest,
        }
    }
}

/// The paths of `paths` whose parts do not begin with those of `remove`.
pub open spec fn not_shortened(paths: Seq<Seq<char>>, remove: Seq<char>) -> Seq<Seq<char>>
    decreases paths.len(),
{
    if paths.len() == 0 {
        Seq::empty()
    } else {
        let rest = not_shortened(paths.drop_last(), remove);
        match strip_prefix_spec(paths.last(), remove) {
            Some(s) => rest,
            None => rest.push(paths.last()),
        }
    }
}

pub open spec fn strings_view(v: Seq<String>) -> Seq<Seq<char>> {
    v.map_values(|s: String| s@)
}

#[derive(Debug)]
pub struct PathErrors {
    pub ok_paths_short: Vec<String>,
    pub err_paths_long: Vec<String>,
}

impl PathErrors {
    fn new() -> (r: PathErrors)
        ensures
            r.ok_paths_short@.len() == 0,
            r.err_paths_long@.len() == 0,
    {
        PathErrors { ok_paths_short: Vec::new(), err_paths_long: Vec::new() }
    }
}

/// returns `Ok(Vec<Path>)` if the remove path is a valid prefix of all input paths
/// if not returns `Err(PathErrors)` that contains:
/// - `PathErrors.ok_paths_short` - sucessful strip_prefix() calls
/// - `PathErrors.err_paths_long` - paths that remove path was not valid prefix
pub fn shorten_paths(paths: &[String], remove: &str) -> (r: Result<Vec<String>, PathErrors>)
    ensures
        match r {
            Ok(v) => not_shortened(strings_view(paths@), remove@).len() == 0
                && strings_view(v@) == shortened(strings_view(paths@), remove@),
            Err(e) => not_shortened(strings_view(paths@), remove@).len() > 0
                && strings_view(e.ok_paths_short@) == shortened(strings_view(paths@), remove@)
                && strings_view(e.err_paths_long@) == not_shortened(strings_view(paths@), remove@),
        },
{
    let mut results = PathErrors::new();
    let mut i: usize = 0;
    while i < paths.len()
        invariant
            i <= paths@.len(),
            strings_view(results.ok_paths_short@) == shortened(strings_view(paths@).subrange(0, i as int), remove@),
            strings_view(results.err_paths_long@) == not_shortened(strings_view(paths@).subrange(0, i as int), remove@),
        decreases paths@.len() - i,
    {
        let ghost pre = strings_view(paths@).subrange(0, i as int);
        let ghost nxt = strings_view(paths@).subrange(0, i + 1);
        assert(nxt.drop_last() =~= pre);
        match strip_prefix(paths[i].as_str(), remove) {
            Some(short) => {
                let ghost before = strings_view(results.ok_paths_short@);
                results.ok_paths_short.push(short);
                assert(strings_view(results.ok_paths_short@) =~= before.push(short@));
            },
            None => {
                let ghost before = strings_view(results.err_paths_long@);
                results.err_paths_long.push(paths[i].clone());
                assert(strings_view(results.err_paths_long@) =~= before.push(paths@[i as int]@));
            },
        }
        i = i + 1;
    }
    assert(strings_view(paths@).subrange(0, paths@.len() as int) =~= strings_view(paths@));
    if results.err_paths_long.len() == 0 {
        Ok(results.ok_paths_short)
    } else {
        Err(results)
    }
}

/// convenience function to map a missing parent to an `Error`
pub fn parent_or_err(path: &str) -> (r: Result<String, Error>)
    ensures
        match r {
            Ok(p) => parent_spec(path@) == Some(p@),
            Err(e) => parent_spec(path@) is None && e.kind == ErrorKind::InvalidData
                && e.msg@ == "Could not get parent_dir"@,
        },
{
    match parent(path) {
        Some(p) => Ok(p),
        None => Err(Error::new(ErrorKind::InvalidData, "Could not get parent_dir")),
    }
}

/// convenience function to map a missing file name to an `Error`
pub fn file_name_or_err(path: &str) -> (r: Result<String, Error>)
    ensures
        match r {
            Ok(f) => file_name_spec(path@) == Some(f@),
            Err(e) => file_name_spec(path@) is None && e.kind == ErrorKind::InvalidData
                && e.msg@ == "Could not get file_name"@,
        },
{
    match file_name(path) {
        Some(f) => Ok(f),
        None => Err(Error::new(ErrorKind::InvalidData, "Could not get file_name")),
    }
}

#[derive(Debug)]
pub enum Operation {
    All,
    Any,
    Count,
}

#[derive(Debug)]
pub enum OperationResult<'a> {
    Bool(bool),
    Count((usize, Vec<&'a str>)),
}

/// `true` when `x` is one of the entries.
pub open spec fn in_listing(entries: Seq<String>, x: Seq<char>) -> bool {
    exists|i: int| 0 <= i < entries.len() && (#[trigger] entries[i])@ == x
}

/// `true` when `y` is one of the entries and one of `list[..i]`.
pub open spec fn found_upto(entries: Seq<String>, list: Seq<&str>, i: int, y: Seq<char>) -> bool {
    in_listing(entries, y) && exists|j: int| 0 <= j < i && (#[trigger] list[j])@ == y
}

/// The members of `list` found in `entries`.
pub open spec fn found_in(entries: Seq<String>, list: Seq<&str>) -> Set<Seq<char>> {
    Set::new(|x: Seq<char>| in_listing(entries, x) && exists|i: int| 0 <= i < list.len() && (#[trigger] list[i])@ == x)
}

pub open spec fn strs_view(v: Seq<&str>) -> Seq<Seq<char>> {
    v.map_values(|s: &str| s@)
}

/// `true` when `x` is one of the directory entries.
pub fn listed_in(entries: &[String], x: &str) -> (r: bool)
    ensures
        r == in_listing(entries@, x@),
{
    let mut i: usize = 0;
    while i < entries.len()
        invariant
            i <= entries@.len(),
            forall|j: int| 0 <= j < i ==> entries@[j]@ != x@,
        decreases entries@.len() - i,
    {
        if str_eq(entries[i].as_str(), x) {
            return true;
        }
        i = i + 1;
    }
    false
}

#[verifier::loop_isolation(false)]
/// `Operation::All` and `Operation::Any` map to `OperationResult::Bool(result)`
/// `Operation::Count` maps to `OperationResult::Count((num_found, found))` where `found`
/// holds, once each, the members of `list` found among `entries`
/// (`entries` is the listing of the directory: the names it holds)
pub fn does_dir_contain<'a>(entries: &[String], operation: Operation, list: &[&'a str]) -> (r: OperationResult<'a>)
    ensures
        match operation {
            Operation::All => r == OperationResult::Bool(
                forall|i: int| 0 <= i < list@.len() ==> in_listing(entries@, #[trigger] list@[i]@),
            ),
            Operation::Any => r == OperationResult::Bool(
                exists|i: int| 0 <= i < list@.len() && in_listing(entries@, #[trigger] list@[i]@),
            ),
            Operation::Count => match r {
                OperationResult::Count((n, found)) => n == found@.len()
                    && crate::collections::no_dups(strs_view(found@))
                    && strs_view(found@).to_set() == found_in(entries@, list@),
                OperationResult::Bool(_) => false,
            },
        },
{
    match operation {
        Operation::All => {
            let mut i: usize = 0;
            while i < list.len()
                invariant
                    i <= list@.len(),
                    forall|j: int| 0 <= j < i ==> in_listing(entries@, #[trigger] list@[j]@),
                decreases list@.len() - i,
            {
                if !listed_in(entries, list[i]) {
                    return OperationResult::Bool(false);
                }
                i = i + 1;
            }
            OperationResult::Bool(true)
        },
        Operation::Any => {
            let mut i: usize = 0;
            while i < list.len()
                invariant
                    i <= list@.len(),
                    forall|j: int| 0 <= j < i ==> !in_listing(entries@, #[trigger] list@[j]@),
                decreases list@.len() - i,
            {
                if listed_in(entries, list[i]) {
                    return OperationResult::Bool(true);
                }
                i = i + 1;
            }
            OperationResult::Bool(false)
        },
        Operation::Count => {
            let mut found: Vec<&'a str> = Vec::new();
            let mut i: usize = 0;
            while i < list.len()
                invariant
                    i <= list@.len(),
                    crate::collections::no_dups(strs_view(found@)),
                    forall|y: Seq<char>| strs_view(found@).contains(y) == #[trigger] found_upto(entries@, list@, i as int, y),
                decreases list@.len() - i,
            {
                let x = list[i];
                let ghost before = strs_view(found@);
                if listed_in(entries, x) && !listed_str(&found, x) {
                    found.push(x);
                    assert(strs_view(found@) =~= before.push(x@));
                    assert(strs_view(found@)[before.len() as int] == x@);
                    assert forall|a: int, b: int| 0 <= a < strs_view(found@).len() && 0 <= b < strs_view(found@).len() && a != b
                        implies strs_view(found@)[a] != strs_view(found@)[b] by {
                        if a == before.len() {
                            assert(strs_view(found@)[b] == before[b]);
                        } else if b == before.len() {
                            assert(strs_view(found@)[a] == before[a]);
                        }
                    }
                }
                assert forall|y: Seq<char>| strs_view(found@).contains(y) == #[trigger] found_upto(entries@, list@, i + 1, y) by {
                    if strs_view(found@).contains(y) {
                        let k = choose|k: int| 0 <= k < strs_view(found@).len() && strs_view(found@)[k] == y;
                        if k < before.len() {
                            assert(before[k] == y);
                            assert(before.contains(y));
                            assert(found_upto(entries@, list@, i as int, y));
                            let j = choose|j: int| 0 <= j < i && (#[trigger] list@[j])@ == y;
                            assert(list@[j]@ == y);
                        } else {
                            assert(y == x@);
                            assert(list@[i as int]@ == y);
                        }
                    }
                    if found_upto(entries@, list@, i + 1, y) {
                        let j = choose|j: int| 0 <= j < i + 1 && (#[trigger] list@[j])@ == y;
                        if j < i {
                            assert(found_upto(entries@, list@, i as int, y));
                            assert(before.contains(y));
                        }
                        if before.contains(y) {
                            let k = choose|k: int| 0 <= k < before.len() && before[k] == y;
                            assert(strs_view(found@)[k] == y);
                        }
                    }
                }
                i = i + 1;
            }
            assert forall|y: Seq<char>| strs_view(found@).to_set().contains(y) == found_in(entries@, list@).contains(y) by {
                assert(found_upto(entries@, list@, list@.len() as int, y) == found_in(entries@, list@).contains(y));
            }
            assert(strs_view(found@).to_set() =~= found_in(entries@, list@));
            OperationResult::Count((found.len(), found))
        },
    }
}

/// `true` when `x` is among `v`.
fn listed_str(v: &Vec<&str>, x: &str) -> (r: bool)
    ensures
        r == strs_view(v@).contains(x@),
{
    let mut i: usize = 0;
    while i < v.len()
        invariant
            i <= v@.len(),
            forall|j: int| 0 <= j < i ==> v@[j]@ != x@,
        decreases v@.len() - i,
    {
        if str_eq(v[i], x) {
            assert(strs_view(v@)[i as int] == x@);
            return true;
        }
        i = i + 1;
    }
    assert forall|j: int| 0 <= j < strs_view(v@).len() implies strs_view(v@)[j] != x@ by {
        assert(strs_view(v@)[j] == v@[j]@);
    }
    false
}

/// The texts that are not among the entries.
pub open spec fn not_listed(entries: Seq<String>) -> spec_fn(Seq<char>) -> bool {
    |x: Seq<char>| !in_listing(entries, x)
}

/// The members of `list` not found among `entries`, in order.
pub open spec fn not_found_spec(entries: Seq<String>, list: Seq<&str>) -> Seq<Seq<char>> {
    strs_view(list).filter(not_listed(entries))
}

#[verifier::loop_isolation(false)]
/// returns the entries of `list` that are not among the directory `entries`, in order
/// returns an empty Vec if all files were found
pub fn files_not_found<'a>(entries: &[String], list: &[&'a str]) -> (r: Vec<&'a str>)
    ensures
        strs_view(r@) == not_found_spec(entries@, list@),
{
    let mut r: Vec<&'a str> = Vec::new();
    let mut i: usize = 0;
    while i < list.len()
        invariant
            i <= list@.len(),
            strs_view(r@) == strs_view(list@.subrange(0, i as int)).filter(not_listed(entries@)),
        decreases list@.len() - i,
    {
        let ghost before = strs_view(r@);
        let x = list[i];
        if !listed_in(entries, x) {
            r.push(x);
            assert(strs_view(r@) =~= before.push(x@));
        }
        assert(strs_view(list@.subrange(0, i + 1)) =~= strs_view(list@.subrange(0, i as int)).push(x@));
        let ghost sub1 = strs_view(list@.subrange(0, i + 1));
        assert(sub1.drop_last() =~= strs_view(list@.subrange(0, i as int)));
        assert(sub1.last() == x@);
        reveal_with_fuel(Seq::filter, 1);
        assert(sub1.filter(not_listed(entries@)) == if not_listed(entries@)(x@) {
            strs_view(list@.subrange(0, i as int)).filter(not_listed(entries@)).push(x@)
        } else {
            strs_view(list@.subrange(0, i as int)).filter(not_listed(entries@))
        });
        i = i + 1;
    }
    assert(list@.subrange(0, list@.len() as int) =~= list@);
    r
}


/// No occurrence of `p` from `j` on when `find_from` finds none.
proof fn lemma_find_none(s: Seq<char>, p: Seq<char>, j: int, i: int)
    requires
        0 <= j <= i,
        crate::text::find_from(s, p, j) is None,
    ensures
        !crate::text::occurs_at(s, p, i),
    decreases i - j,
{
    if j < i && j + p.len() <= s.len() {
        lemma_find_none(s, p, j + 1, i);
    }
}

/// `find_from` skips positions where `p` does not occur.
proof fn lemma_find_skip(s: Seq<char>, p: Seq<char>, j: int, i: int)
    requires
        0 <= j <= i,
        i + p.len() <= s.len(),
        forall|m: int| j <= m < i ==> !crate::text::occurs_at(s, p, m),
    ensures
        crate::text::find_from(s, p, j) == crate::text::find_from(s, p, i),
    decreases i - j,
{
    if j < i {
        lemma_find_skip(s, p, j + 1, i);
    }
}

/// The last part of a path that does not end in a separator keeps its start when
/// characters other than separators are appended.
proof fn lemma_seg_start_append(s: Seq<char>, x: Seq<char>)
    requires
        forall|m: int| 0 <= m < x.len() ==> !crate::paths::is_sep(#[trigger] x[m]),
    ensures
        crate::paths::seg_start(s + x) == crate::paths::seg_start(s),
    decreases x.len(),
{
    if x.len() > 0 {
        assert((s + x).drop_last() =~= s + x.drop_last());
        assert((s + x).last() == x[x.len() - 1]);
        lemma_seg_start_append(s, x.drop_last());
    } else {
        assert(s + x =~= s);
    }
}

/// Appending characters other than separators to a path that ends in its file name
/// appends them to the file name.
proof fn lemma_append_to_name(p: Seq<char>, x: Seq<char>)
    requires
        p.len() > 0,
        !crate::paths::is_sep(p.last()),
        file_name_spec(p) is Some,
        x.len() > 2,
        forall|m: int| 0 <= m < x.len() ==> !crate::paths::is_sep(#[trigger] x[m]),
    ensures
        0 <= seg_start(p) <= p.len(),
        file_name_spec(p)->0 == p.subrange(seg_start(p), p.len() as int),
        set_file_name_spec(p, file_name_spec(p)->0 + x) == p + x,
        file_name_spec(p + x) == Some(file_name_spec(p)->0 + x),
        forall|n: Seq<char>| #[trigger] set_file_name_spec(p + x, n) == p.subrange(0, seg_start(p)) + n,
{
    let f = file_name_spec(p)->0;
    assert(trim_end_seps(p) == p);
    let st = seg_start(p);
    lemma_seg_start_bounds(p);
    assert(f == p.subrange(st, p.len() as int));
    assert(p.subrange(0, st) + (f + x) =~= p + x);
    lemma_seg_start_append(p, x);
    let q = p + x;
    assert(q.last() == x[x.len() - 1]);
    assert(trim_end_seps(q) == q);
    assert(last_part(q) =~= f + x);
    assert((f + x).len() > 2);
    assert(f + x != seq!['.', '.']);
    assert(file_name_spec(q) == Some(f + x));
    assert forall|n: Seq<char>| #[trigger] set_file_name_spec(q, n) == p.subrange(0, st) + n by {
        assert(q.subrange(0, seg_start(q)) =~= p.subrange(0, st));
    }
}

/// Lower-casing a name followed by `.disabled` lowers the name and keeps `.disabled`.
proof fn lemma_lower_off(f: Seq<char>)
    ensures
        ascii_lowercase(f + off_state()) == ascii_lowercase(f) + off_state(),
        ascii_lowercase(f).len() == f.len(),
{
    let off = off_state();
    let g = f + off;
    assert(ascii_lowercase(off) =~= off);
    assert(ascii_lowercase(g) =~= ascii_lowercase(f) + ascii_lowercase(off));
}

/// The first `.disabled` of a text without one, followed by `.disabled`, is that last one.
proof fn lemma_first_off(lf: Seq<char>)
    requires
        spec_find(lf, off_state()) is None,
    ensures
        spec_find(lf + off_state(), off_state()) == Some(lf.len() as int),
{
    let off = off_state();
    let h = lf + off;
    assert forall|m: int| 0 <= m < lf.len() implies !#[trigger] occurs_at(h, off, m) by {
        if m + off.len() <= lf.len() {
            lemma_find_none(lf, off, 0, m);
            if occurs_at(h, off, m) {
                assert(h.subrange(m, m + off.len()) =~= lf.subrange(m, m + off.len()));
            }
        } else {
            let d = lf.len() - m;
            if occurs_at(h, off, m) {
                assert(h.subrange(m, m + off.len())[d] == h[lf.len() as int]);
                assert(h[lf.len() as int] == '.');
                assert(off[d] != '.');
            }
        }
    }
    assert(occurs_at(h, off, lf.len() as int)) by {
        assert(h.subrange(lf.len() as int, (lf.len() + off.len()) as int) =~= off);
    }
    lemma_find_skip(h, off, 0, lf.len() as int);
}

/// Disabling a file and enabling it again gives back its path: for a path that does not
/// end in a separator, whose file name holds no `.disabled` in any ASCII case.
pub proof fn toggle_round_trip(p: Seq<char>)
    requires
        p.len() > 0,
        !crate::paths::is_sep(p.last()),
        file_name_spec(p) is Some,
        spec_find(ascii_lowercase(file_name_spec(p)->0), off_state()) is None,
    ensures
        toggle_name_spec(toggle_name_spec(p, false), true) == p,
{
    let off = off_state();
    let f = file_name_spec(p)->0;
    assert forall|m: int| 0 <= m < off.len() implies !crate::paths::is_sep(#[trigger] off[m]) by {}
    lemma_append_to_name(p, off);
    let q = toggle_name_spec(p, false);
    assert(q == p + off);
    let g = f + off;
    assert(file_name_spec(q) == Some(g));
    lemma_lower_off(f);
    lemma_first_off(ascii_lowercase(f));
    assert(spec_find(ascii_lowercase(g), off) == Some(f.len() as int));
    let back = g.subrange(0, f.len() as int) + g.subrange((f.len() + off.len()) as int, g.len() as int);
    assert(back =~= f);
    assert(set_file_name_spec(q, f) == p.subrange(0, seg_start(p)) + f);
    assert(p.subrange(0, seg_start(p)) + f =~= p);
}


/// `FileData::from` splits a name without losing anything: the name, then the
/// extension, then (when disabled) `.disabled` give back the input.
pub proof fn file_data_parts(s: Seq<char>)
    requires
        has_extension(s),
    ensures
        ({
            let (name, ext, enabled) = file_data_spec(s);
            s == name + ext + if enabled { Seq::empty() } else { off_state() }
        }),
{
    let (enabled, idx) = state_data_spec(s);
    lemma_find_bounds(s, off_state(), 0);
    if enabled {
        lemma_rfind_bounds(s, '.');
        let d = spec_rfind(s, '.')->0;
        assert(s =~= s.subrange(0, d) + s.subrange(d, s.len() as int) + Seq::<char>::empty());
    } else {
        let head = s.subrange(0, idx);
        lemma_rfind_bounds(head, '.');
        let d = spec_rfind(head, '.')->0;
        assert(idx == s.len() - off_state().len());
        assert(occurs_at(s, off_state(), idx));
        assert(s.subrange(idx, s.len() as int) == off_state());
        assert(s =~= s.subrange(0, d) + s.subrange(d, idx) + off_state());
    }
}


/// `true` when the mod is in `new_state` and so are all its `.dll` files.
pub open spec fn already_in_state(state: bool, dlls: Seq<Seq<char>>, new_state: bool) -> bool {
    state == new_state && forall|i: int| 0 <= i < dlls.len() ==> state_data_spec(#[trigger] dlls[i]).0 == new_state
}

/// what de-registering `reg_mod` first does to its `.dll` files: when any of them is
/// disabled, the new names that set them all enabled (see `toggle_files`); else `None`
pub fn enable_before_deregister(reg_mod: &crate::utils::ini::parser::RegMod) -> (r: Option<Vec<String>>)
    ensures
        (exists|i: int| 0 <= i < reg_mod.files.dll@.len() && !state_data_spec(#[trigger] reg_mod.files.dll@[i]@).0) <==> r is Some,
        r matches Some(v) ==> v@.len() == reg_mod.files.dll@.len()
            && forall|i: int| 0 <= i < v@.len() ==> (#[trigger] v@[i])@ == toggle_name_spec(reg_mod.files.dll@[i]@, true),
{
    let mut i: usize = 0;
    while i < reg_mod.files.dll.len()
        invariant
            i <= reg_mod.files.dll@.len(),
            forall|j: int| 0 <= j < i ==> state_data_spec(#[trigger] reg_mod.files.dll@[j]@).0,
        decreases reg_mod.files.dll@.len() - i,
    {
        if FileData::is_disabled(reg_mod.files.dll[i].as_str()) {
            assert(!state_data_spec(reg_mod.files.dll@[i as int]@).0);
            let r = toggle_files(true, reg_mod);
            assert(!already_in_state(reg_mod.state, strings_view(reg_mod.files.dll@), true)) by {
                assert(strings_view(reg_mod.files.dll@)[i as int] == reg_mod.files.dll@[i as int]@);
            }
            return r;
        }
        i = i + 1;
    }
    None
}

/// the new names of the `.dll` files of `reg_mod` in `new_state`, or `None` when the mod
/// and its files are already in that state; the caller renames each file to its new
/// name, then sets `reg_mod.files.dll` and `reg_mod.state` and saves the mod
pub fn toggle_files(new_state: bool, reg_mod: &crate::utils::ini::parser::RegMod) -> (r: Option<Vec<String>>)
    ensures
        already_in_state(reg_mod.state, strings_view(reg_mod.files.dll@), new_state) <==> r is None,
        r matches Some(v) ==> v@.len() == reg_mod.files.dll@.len()
            && forall|i: int| 0 <= i < v@.len() ==> (#[trigger] v@[i])@ == toggle_name_spec(reg_mod.files.dll@[i]@, new_state),
{
    let ghost d = strings_view(reg_mod.files.dll@);
    let mut all_in_state = true;
    let mut i: usize = 0;
    while i < reg_mod.files.dll.len()
        invariant
            i <= reg_mod.files.dll@.len(),
            d == strings_view(reg_mod.files.dll@),
            all_in_state == forall|j: int| 0 <= j < i ==> state_data_spec(#[trigger] d[j]).0 == new_state,
        decreases reg_mod.files.dll@.len() - i,
    {
        assert(d[i as int] == reg_mod.files.dll@[i as int]@);
        if FileData::state_data_chars(reg_mod.files.dll[i].as_str()).0 != new_state {
            all_in_state = false;
        }
        i = i + 1;
    }
    if reg_mod.state == new_state && all_in_state {
        return None;
    }
    Some(toggle_name_state(reg_mod.files.dll.as_slice(), new_state))
}

/// The files the app never takes from the user: the mod loader's and the game's own.
pub open spec fn restricted_names() -> Set<Seq<char>> {
    set![
        crate::LOADER_FILES[0]@, crate::LOADER_FILES[1]@, crate::LOADER_FILES[2]@, crate::LOADER_FILES[3]@,
        crate::REQUIRED_GAME_FILES[0]@, crate::REQUIRED_GAME_FILES[1]@, crate::REQUIRED_GAME_FILES[2]@
    ]
}

/// the names of the files the app never takes from the user
pub fn populate_restricted_files() -> (r: crate::collections::StrSet)
    ensures
        r@ == restricted_names(),
{
    let mut r = crate::collections::StrSet::new();
    let mut i: usize = 0;
    while i < 4
        invariant
            i <= 4,
            r@ == Set::new(|n: Seq<char>| exists|j: int| 0 <= j < i && n == #[trigger] crate::LOADER_FILES[j]@),
        decreases 4 - i,
    {
        let ghost before = r@;
        r.insert(crate::LOADER_FILES[i]);
        assert(r@ =~= Set::new(|n: Seq<char>| exists|j: int| 0 <= j < i + 1 && n == #[trigger] crate::LOADER_FILES[j]@)) by {
            assert forall|n: Seq<char>| r@.contains(n) implies (exists|j: int| 0 <= j < i + 1 && n == #[trigger] crate::LOADER_FILES[j]@) by {
                if n == crate::LOADER_FILES[i as int]@ {
                } else {
                    assert(before.contains(n));
                }
            }
        }
        i = i + 1;
    }
    let mut k: usize = 0;
    while k < 3
        invariant
            k <= 3,
            r@ == Set::new(|n: Seq<char>| (exists|j: int| 0 <= j < 4 && n == #[trigger] crate::LOADER_FILES[j]@)
                || (exists|j: int| 0 <= j < k && n == #[trigger] crate::REQUIRED_GAME_FILES[j]@)),
        decreases 3 - k,
    {
        let ghost before = r@;
        r.insert(crate::REQUIRED_GAME_FILES[k]);
        assert(r@ =~= Set::new(|n: Seq<char>| (exists|j: int| 0 <= j < 4 && n == #[trigger] crate::LOADER_FILES[j]@)
                || (exists|j: int| 0 <= j < k + 1 && n == #[trigger] crate::REQUIRED_GAME_FILES[j]@))) by {
            assert forall|n: Seq<char>| r@.contains(n) implies ((exists|j: int| 0 <= j < 4 && n == #[trigger] crate::LOADER_FILES[j]@)
                || (exists|j: int| 0 <= j < k + 1 && n == #[trigger] crate::REQUIRED_GAME_FILES[j]@)) by {
                if n == crate::REQUIRED_GAME_FILES[k as int]@ {
                } else {
                    assert(before.contains(n));
                }
            }
        }
        k = k + 1;
    }
    assert(r@ =~= restricted_names()) by {
        assert forall|n: Seq<char>| r@.contains(n) == restricted_names().contains(n) by {
            if r@.contains(n) {
                if exists|j: int| 0 <= j < 4 && n == #[trigger] crate::LOADER_FILES[j]@ {
                    let j = choose|j: int| 0 <= j < 4 && n == #[trigger] crate::LOADER_FILES[j]@;
                    assert(j == 0 || j == 1 || j == 2 || j == 3);
                } else {
                    let j = choose|j: int| 0 <= j < 3 && n == #[trigger] crate::REQUIRED_GAME_FILES[j]@;
                    assert(j == 0 || j == 1 || j == 2);
                }
            }
        }
    }
    r
}

/// `true` when one of `files` has a name in `restricted`.
pub open spec fn holds_restricted(files: Seq<Seq<char>>, restricted: Set<Seq<char>>) -> bool {
    exists|i: int| 0 <= i < files.len() && restricted.contains(#[trigger] file_name_spec(files[i])->0)
}

/// refuses files the user picked when one of them is in `restricted` (see
/// `populate_restricted_files`)
pub fn check_user_files(files: &[String], restricted: &crate::collections::StrSet) -> (r: Result<(), Error>)
    requires
        forall|i: int| 0 <= i < files@.len() ==> file_name_spec(#[trigger] files@[i]@) is Some,
    ensures
        holds_restricted(strings_view(files@), restricted@) ==> (r matches Err(e) && e.kind == ErrorKind::InvalidData
            && e.msg@ == "Tried to add a restricted file"@),
        !holds_restricted(strings_view(files@), restricted@) ==> r is Ok,
{
    let ghost fv = strings_view(files@);
    let mut i: usize = 0;
    while i < files.len()
        invariant
            i <= files@.len(),
            fv == strings_view(files@),
            forall|j: int| 0 <= j < files@.len() ==> file_name_spec(#[trigger] files@[j]@) is Some,
            forall|j: int| 0 <= j < i ==> !restricted@.contains(#[trigger] file_name_spec(fv[j])->0),
        decreases files@.len() - i,
    {
        assert(fv[i as int] == files@[i as int]@);
        match file_name(files[i].as_str()) {
            Some(n) => {
                if restricted.contains(n.as_str()) {
                    return Err(Error::new(ErrorKind::InvalidData, "Tried to add a restricted file"));
                }
            },
            None => {},
        }
        i = i + 1;
    }
    Ok(())
}

} // verus!
