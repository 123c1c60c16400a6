//! The mod loader: what is installed, and the load order kept in its configuration.
use vstd::prelude::*;
use crate::collections::{OrderMap, StrSet};
use crate::utils::display::{item_texts, list_text, DisplayVec};
use crate::utils::ini::common::section_is_empty;
use crate::error::{Error, ErrorKind};
use crate::files::{found_in, in_listing, does_dir_contain, strs_view, Operation, OperationResult};
use crate::ini_store::{
    key_count, props_insert, props_insert_kv, lemma_section_index, lemma_section_update, props_append, props_contains_key,
    props_entries, props_has, props_len, props_new, props_pairs, props_remove, props_without,
    section_index, PropsView,
};
use crate::paths::{push_path, push_spec};
use crate::text::{concat, decimal, decimal_reads_back, parse_unsigned, parse_usize, str_eq, usize_to_string};
use crate::utils::ini::common::{Config, ModLoaderCfg};
use crate::utils::ini::parser::RegMod;
use crate::{ANTI_CHEAT_EXE, LOADER_EXAMPLE, LOADER_FILES, LOADER_SECTIONS};

verus! {

#[derive(Debug)]
pub struct ModLoader {
    installed: bool,
    disabled: bool,
    anti_cheat_toggle_installed: bool,
    anti_cheat_enabled: bool,
    path: String,
}

/// What has to be done on disk after `ModLoader::properties` looked at the game directory.
#[derive(Debug)]
pub struct LoaderFixes {
    /// rename `LOADER_FILES[2]` to `LOADER_FILES[0]` (anti-cheat toggled without its exe)
    pub rename_anti_cheat: bool,
    /// write a default loader configuration to the returned path
    pub create_cfg: bool,
}

/// `true` when `LOADER_FILES[i]` (or the anti-cheat exe, for `i == 4`) is listed.
pub open spec fn has_file(entries: Seq<String>, name: Seq<char>) -> bool {
    in_listing(entries, name)
}

impl ModLoader {
    /// The flags `(installed, disabled, anti_cheat_toggle_installed, anti_cheat_enabled)`.
    pub closed spec fn flags(self) -> (bool, bool, bool, bool) {
        (self.installed, self.disabled, self.anti_cheat_toggle_installed, self.anti_cheat_enabled)
    }

    /// The path of the loader's configuration (empty when none is known).
    pub closed spec fn path_view(self) -> Seq<char> {
        self.path@
    }

    /// returns struct `ModLoader` that contains properties about the current installation of
    /// the _elden_mod_loader_ dll hook by TechieW, from the names `entries` the game
    /// directory holds; `LoaderFixes` says what is left to do on disk
    pub fn properties(game_dir: &str, entries: &[String]) -> (r: (ModLoader, LoaderFixes))
        ensures
            ({
                let e = entries@;
                let f0 = has_file(e, LOADER_FILES[0]@);
                let f1 = has_file(e, LOADER_FILES[1]@);
                let f2 = has_file(e, LOADER_FILES[2]@);
                let f3 = has_file(e, LOADER_FILES[3]@);
                let ac = has_file(e, ANTI_CHEAT_EXE@);
                let (installed, disabled, ac_on) = if f1 && !f0 && !f2 {
                    (true, false, false)
                } else if f0 && !f1 && !f2 {
                    (true, true, false)
                } else if f2 && !f1 && !f0 {
                    (true, true, true)
                } else {
                    (false, false, false)
                };
                &&& r.0.flags() == (installed, disabled, ac, ac_on && ac)
                &&& r.1.rename_anti_cheat == (ac_on && !ac)
                &&& r.1.create_cfg == (installed && !f3)
                &&& r.0.path_view() == if f3 || installed {
                    push_spec(game_dir@, LOADER_FILES[3]@)
                } else {
                    Seq::<char>::empty()
                }
            }),
    {
        let f0 = crate::files::listed_in(entries, LOADER_FILES[0]);
        let f1 = crate::files::listed_in(entries, LOADER_FILES[1]);
        let f2 = crate::files::listed_in(entries, LOADER_FILES[2]);
        let f3 = crate::files::listed_in(entries, LOADER_FILES[3]);
        let ac = crate::files::listed_in(entries, ANTI_CHEAT_EXE);
        let mut installed = false;
        let mut disabled = false;
        let mut anti_cheat_enabled = false;
        if f1 && !f0 && !f2 {
            installed = true;
        } else if f0 && !f1 && !f2 {
            installed = true;
            disabled = true;
        } else if f2 && !f1 && !f0 {
            installed = true;
            disabled = true;
            anti_cheat_enabled = true;
        }
        let mut rename_anti_cheat = false;
        if anti_cheat_enabled && !ac {
            rename_anti_cheat = true;
            anti_cheat_enabled = false;
        }
        let path = if f3 || installed {
            push_path(game_dir, LOADER_FILES[3])
        } else {
            String::new()
        };
        (
            ModLoader {
                installed,
                disabled,
                anti_cheat_toggle_installed: ac,
                anti_cheat_enabled,
                path,
            },
            LoaderFixes { rename_anti_cheat, create_cfg: installed && !f3 },
        )
    }

    /// only use this if `ModLoader::properties()` returns err and you have an idea of the current state
    pub fn new(disabled: bool) -> (r: ModLoader)
        ensures
            r.flags() == (true, disabled, false, false),
            r.path_view() == Seq::<char>::empty(),
    {
        ModLoader {
            installed: true,
            disabled,
            anti_cheat_toggle_installed: false,
            anti_cheat_enabled: false,
            path: String::new(),
        }
    }

    pub fn installed(&self) -> (r: bool)
        ensures
            r == self.flags().0,
    {
        self.installed
    }

    pub fn disabled(&self) -> (r: bool)
        ensures
            r == self.flags().1,
    {
        self.disabled
    }

    pub fn anti_cheat_toggle_installed(&self) -> (r: bool)
        ensures
            r == self.flags().2,
    {
        self.anti_cheat_toggle_installed
    }

    pub fn anti_cheat_enabled(&self) -> (r: bool)
        ensures
            r == self.flags().3,
    {
        self.anti_cheat_enabled
    }

    pub fn path(&self) -> (r: &str)
        ensures
            r@ == self.path_view(),
    {
        self.path.as_str()
    }

    pub fn own_path(self) -> (r: String)
        ensures
            r@ == self.path_view(),
    {
        self.path
    }
}

#[derive(Debug)]
pub struct OrdMetaData {
    /// (`max_order`, `high_val.count() > 1`)
    pub max_order: (usize, bool),
    pub missing_vals: Option<Vec<usize>>,
}

impl OrdMetaData {
    pub fn with_ord(max_order: (usize, bool)) -> (r: OrdMetaData)
        ensures
            r.max_order == max_order,
            r.missing_vals is None,
    {
        OrdMetaData { max_order, missing_vals: None }
    }
}

/// it is safe to update the global unknown order keys with `unknown_keys` if `is_some()`
/// this is because of the case a write to file fails `unknown_keys` will be `None`
#[derive(Debug)]
pub struct UnknownKeyErr {
    pub err: Error,
    pub unknown_keys: Option<StrSet>,
    pub update_ord_data: Option<OrdMetaData>,
}

impl UnknownKeyErr {
    pub fn empty_with_err(err: Error) -> (r: UnknownKeyErr)
        ensures
            r.err == err,
            r.unknown_keys is None,
            r.update_ord_data is None,
    {
        UnknownKeyErr { err, unknown_keys: None, update_ord_data: None }
    }
}

/// The value an order entry is read as: its number, or, when it is none, the largest
/// value for a key not registered with the app and half of it for one that is.
pub open spec fn entry_val(k: Seq<char>, v: Seq<char>, unknown: Set<Seq<char>>) -> int {
    match parse_unsigned(v, usize::MAX as nat) {
        Some(n) => n as int,
        None => if unknown.contains(k) {
            usize::MAX as int
        } else {
            (usize::MAX / 2) as int
        },
    }
}

/// What `update_order_entries` gathers from the entries before sorting: the
/// (key, value) pairs other than the stable key and the example, the set of values
/// seen, and the stable key with its value (`""` and 69420 when it is absent).
pub open spec fn gather(p: PropsView, stable: Option<Seq<char>>, unknown: Set<Seq<char>>) -> (Seq<(Seq<char>, int)>, Set<int>, Seq<char>, int)
    decreases p.len(),
{
    if p.len() == 0 {
        (Seq::empty(), Set::empty(), Seq::empty(), 69420)
    } else {
        let (kv, vals, sk, sv) = gather(p.drop_last(), stable, unknown);
        let (k, v) = p.last();
        if k == LOADER_EXAMPLE@ {
            (kv, vals, sk, sv)
        } else {
            let cv = entry_val(k, v, unknown);
            if stable == Some(k) {
                (kv, vals.insert(cv), k, cv)
            } else {
                (kv.push((k, cv)), vals.insert(cv), sk, sv)
            }
        }
    }
}

/// The number of elements of a sorted `s` whose value is at most `v`.
pub open spec fn count_le(s: Seq<(Seq<char>, int)>, v: int) -> nat
    decreases s.len(),
{
    if s.len() == 0 {
        0
    } else if s[0].1 <= v {
        1 + count_le(s.drop_first(), v)
    } else {
        0
    }
}

/// `x` put into the sorted `s` after every element whose value is at most its own.
pub open spec fn insert_sorted(s: Seq<(Seq<char>, int)>, x: (Seq<char>, int)) -> Seq<(Seq<char>, int)> {
    let i = count_le(s, x.1) as int;
    s.subrange(0, i).push(x) + s.subrange(i, s.len() as int)
}

/// `sort_by_key` on the values: a stable sort.
pub open spec fn sort_by_val(s: Seq<(Seq<char>, int)>) -> Seq<(Seq<char>, int)>
    decreases s.len(),
{
    if s.len() == 0 {
        s
    } else {
        insert_sorted(sort_by_val(s.drop_last()), s.last())
    }
}

/// The state `update_order_entries` carries through the sorted entries.
pub struct OrdState {
    pub section: PropsView,
    pub offset: int,
    pub last_user: int,
    pub stable_k: Seq<char>,
    pub missing: Seq<int>,
    pub vals: Set<int>,
}

/// A value above zero not seen before is recorded as missing.
pub open spec fn check_missing(st: OrdState) -> OrdState {
    if st.offset > 0 && !st.vals.contains(st.offset) {
        OrdState { vals: st.vals.insert(st.offset), missing: st.missing.push(st.offset), ..st }
    } else {
        st
    }
}

/// One step of `update_order_entries` over the sorted entry `kv[idx]`.
pub open spec fn order_step(kv: Seq<(Seq<char>, int)>, idx: int, sv: int, unknown: Set<Seq<char>>, st: OrdState) -> OrdState {
    let (k, v) = kv[idx];
    let s1 = check_missing(st);
    let s2 = if s1.stable_k.len() > 0 && (sv == s1.offset || sv == v) {
        let t = OrdState {
            last_user: s1.offset,
            section: s1.section.push((s1.stable_k, decimal(s1.offset as nat))),
            stable_k: Seq::empty(),
            ..s1
        };
        let t2 = if v != sv && v > t.offset { OrdState { offset: t.offset + 1, ..t } } else { t };
        check_missing(t2)
    } else {
        s1
    };
    let s3 = if !unknown.contains(k) {
        OrdState { last_user: s2.offset, ..s2 }
    } else if s2.offset == s2.last_user {
        OrdState { offset: s2.offset + 1, ..s2 }
    } else {
        s2
    };
    let s4 = OrdState { section: s3.section.push((k, decimal(s3.offset as nat))), ..s3 };
    if idx + 1 < kv.len() {
        let nv = kv[idx + 1].1;
        if v != nv && nv > s4.offset { OrdState { offset: s4.offset + 1, ..s4 } } else { s4 }
    } else if s4.stable_k.len() > 0 && v != sv && sv > s4.offset {
        OrdState { offset: s4.offset + 1, ..s4 }
    } else {
        s4
    }
}

/// The steps of `update_order_entries` from `kv[idx]` on.
pub open spec fn order_run(kv: Seq<(Seq<char>, int)>, idx: int, sv: int, unknown: Set<Seq<char>>, st: OrdState) -> OrdState
    decreases kv.len() - idx,
{
    if idx < 0 || idx >= kv.len() {
        st
    } else {
        order_run(kv, idx + 1, sv, unknown, order_step(kv, idx, sv, unknown, st))
    }
}

/// The number of entries whose value is `v`.
pub open spec fn count_value(p: PropsView, v: Seq<char>) -> nat
    decreases p.len(),
{
    if p.len() == 0 {
        0
    } else {
        count_value(p.drop_last(), v) + if p.last().1 == v { 1nat } else { 0nat }
    }
}

/// `true` when `update_order_entries` can run on the entries: there is nothing to do,
/// or something other than the example remains to be ordered.
pub open spec fn update_order_defined(p: PropsView, stable: Option<Seq<char>>, unknown: Set<Seq<char>>) -> bool {
    let (kv, vals, sk, sv) = gather(p, stable, unknown);
    p.len() == 0 || kv.len() > 0 || sk.len() > 0
}

/// `update_order_entries`: the new entries of "loadorder", `max_order` and the missing values.
pub open spec fn update_order_spec(p: PropsView, stable: Option<Seq<char>>, unknown: Set<Seq<char>>) -> (PropsView, (int, bool), Option<Seq<int>>) {
    if p.len() == 0 {
        (p, (0, false), None)
    } else {
        let (kv0, vals, sk, sv) = gather(p, stable, unknown);
        let kv = sort_by_val(kv0);
        if kv.len() == 0 && sk.len() > 0 {
            let val: Seq<char> = if sv == 0 { seq!['0'] } else { seq!['1'] };
            let missing: Seq<int> = if sv == 0 || sv == 1 { Seq::empty() } else { seq![1] };
            (seq![(sk, val)], (1, false), if missing.len() > 0 { Some(missing) } else { None })
        } else {
            let st0 = OrdState {
                section: Seq::empty(),
                offset: if (kv.len() > 0 && kv[0].1 == 0) || sv == 0 { 0 } else { 1 },
                last_user: 0,
                stable_k: sk,
                missing: Seq::empty(),
                vals,
            };
            let st = order_run(kv, 0, sv, unknown, st0);
            let st2 = if st.stable_k.len() > 0 {
                OrdState { last_user: st.offset, section: st.section.push((st.stable_k, decimal(st.offset as nat))), ..st }
            } else {
                st
            };
            let last_key = st2.section.last().0;
            let max_order = if count_value(st2.section, decimal(st2.last_user as nat)) <= 1 {
                (st2.last_user, false)
            } else {
                (st2.last_user + 1, true)
            };
            let missing = if st2.missing.len() > 0 {
                let m = if st2.missing.last() == st2.offset && unknown.contains(last_key) {
                    st2.missing.drop_last()
                } else {
                    st2.missing
                };
                if m.len() > 0 { Some(m) } else { None }
            } else {
                None
            };
            (st2.section, max_order, missing)
        }
    }
}


/// The view of gathered (key, value) pairs.
pub open spec fn kv_view(v: Seq<(&str, usize)>) -> Seq<(Seq<char>, int)> {
    v.map_values(|e: (&str, usize)| (e.0@, e.1 as int))
}

/// The view of a set of values kept in a `Vec`.
pub open spec fn vals_view(v: Seq<usize>) -> Set<int> {
    v.map_values(|x: usize| x as int).to_set()
}

/// The view of a list of values.
pub open spec fn ints_view(v: Seq<usize>) -> Seq<int> {
    v.map_values(|x: usize| x as int)
}

fn contains_val(v: &Vec<usize>, x: usize) -> (r: bool)
    ensures
        r == vals_view(v@).contains(x as int),
{
    let mut i: usize = 0;
    while i < v.len()
        invariant
            i <= v@.len(),
            forall|j: int| 0 <= j < i ==> v@[j] != x,
        decreases v@.len() - i,
    {
        if v[i] == x {
            assert(ints_view(v@)[i as int] == x as int);
            return true;
        }
        i = i + 1;
    }
    assert forall|j: int| 0 <= j < ints_view(v@).len() implies ints_view(v@)[j] != x as int by {
        assert(ints_view(v@)[j] == v@[j] as int);
    }
    false
}

proof fn lemma_vals_push(v: Seq<usize>, x: usize)
    ensures
        vals_view(v.push(x)) == vals_view(v).insert(x as int),
{
    assert(ints_view(v.push(x)) =~= ints_view(v).push(x as int));
    assert forall|y: int| vals_view(v.push(x)).contains(y) <==> vals_view(v).insert(x as int).contains(y) by {
        if ints_view(v).contains(y) {
            let j = choose|j: int| 0 <= j < ints_view(v).len() && ints_view(v)[j] == y;
            assert(ints_view(v.push(x))[j] == y);
        }
        if y == x as int {
            assert(ints_view(v.push(x))[v.len() as int] == y);
        }
        if ints_view(v.push(x)).contains(y) && y != x as int {
            let j = choose|j: int| 0 <= j < ints_view(v.push(x)).len() && ints_view(v.push(x))[j] == y;
            assert(ints_view(v)[j] == y);
        }
    }
    assert(vals_view(v.push(x)) =~= vals_view(v).insert(x as int));
}

/// The gathered pairs, values, and the stable key and value (see `gather`).
fn gather_exec<'a>(pairs: &Vec<(&'a str, &'a str)>, stable: Option<&str>, unknown_keys: &StrSet) -> (r: (Vec<(&'a str, usize)>, Vec<usize>, &'a str, usize))
    ensures
        ({
            let p = pairs@.map_values(|e: (&str, &str)| (e.0@, e.1@));
            let (kv, vals, sk, sv) = gather(p, crate::ini_store::opt_view(stable), unknown_keys@);
            &&& kv_view(r.0@) == kv
            &&& vals_view(r.1@) == vals
            &&& r.2@ == sk
            &&& r.3 as int == sv
            &&& r.0@.len() <= pairs@.len()
        }),
{
    let ghost p = pairs@.map_values(|e: (&str, &str)| (e.0@, e.1@));
    let mut kv: Vec<(&'a str, usize)> = Vec::new();
    let mut vals: Vec<usize> = Vec::new();
    let mut sk: &'a str = "";
    let mut sv: usize = 69420;
    proof {
        reveal_strlit("");
        assert(kv_view(kv@) =~= Seq::<(Seq<char>, int)>::empty());
        assert(vals_view(vals@) =~= Set::<int>::empty());
    }
    let mut i: usize = 0;
    while i < pairs.len()
        invariant
            i <= pairs@.len(),
            p == pairs@.map_values(|e: (&str, &str)| (e.0@, e.1@)),
            ({
                let (kv0, vals0, sk0, sv0) = gather(p.subrange(0, i as int), crate::ini_store::opt_view(stable), unknown_keys@);
                &&& kv_view(kv@) == kv0
                &&& vals_view(vals@) == vals0
                &&& sk@ == sk0
                &&& sv as int == sv0
            }),
            kv@.len() <= i,
        decreases pairs@.len() - i,
    {
        let (k, v) = pairs[i];
        let ghost sub = p.subrange(0, i + 1);
        assert(sub.drop_last() =~= p.subrange(0, i as int));
        assert(sub.last() == (k@, v@));
        if str_eq(k, LOADER_EXAMPLE) {
        } else {
            let curr_v = match parse_usize(v) {
                Some(n) => n,
                None => if unknown_keys.contains(k) { usize::MAX } else { usize::MAX / 2 },
            };
            proof {
                lemma_vals_push(vals@, curr_v);
            }
            vals.push(curr_v);
            let is_stable = match stable {
                Some(input_k) => str_eq(k, input_k),
                None => false,
            };
            if is_stable {
                sk = k;
                sv = curr_v;
            } else {
                let ghost before = kv_view(kv@);
                kv.push((k, curr_v));
                assert(kv_view(kv@) =~= before.push((k@, curr_v as int)));
            }
        }
        i = i + 1;
    }
    assert(p.subrange(0, pairs@.len() as int) =~= p);
    (kv, vals, sk, sv)
}

/// The number of leading elements whose value is at most `x`.
fn count_le_exec(s: &Vec<(&str, usize)>, x: usize) -> (n: usize)
    ensures
        n as int == count_le(kv_view(s@), x as int),
        n <= s@.len(),
{
    let mut n: usize = 0;
    assert(kv_view(s@).subrange(0, s@.len() as int) =~= kv_view(s@));
    while n < s.len() && s[n].1 <= x
        invariant
            n <= s@.len(),
            count_le(kv_view(s@), x as int) == n + count_le(kv_view(s@).subrange(n as int, s@.len() as int), x as int),
        decreases s@.len() - n,
    {
        let ghost rest = kv_view(s@).subrange(n as int, s@.len() as int);
        assert(rest.drop_first() =~= kv_view(s@).subrange(n + 1, s@.len() as int));
        n = n + 1;
    }
    proof {
        let rest = kv_view(s@).subrange(n as int, s@.len() as int);
        if n < s@.len() {
            assert(rest[0] == kv_view(s@)[n as int]);
        }
    }
    n
}

/// `sort_by_key` on the values (see `sort_by_val`).
fn sort_by_val_exec<'a>(kv: &Vec<(&'a str, usize)>) -> (r: Vec<(&'a str, usize)>)
    ensures
        kv_view(r@) == sort_by_val(kv_view(kv@)),
        r@.len() == kv@.len(),
{
    let mut r: Vec<(&'a str, usize)> = Vec::new();
    let mut i: usize = 0;
    assert(kv_view(kv@).subrange(0, 0) =~= Seq::<(Seq<char>, int)>::empty());
    assert(kv_view(r@) =~= Seq::<(Seq<char>, int)>::empty());
    while i < kv.len()
        invariant
            i <= kv@.len(),
            r@.len() == i,
            kv_view(r@) == sort_by_val(kv_view(kv@).subrange(0, i as int)),
        decreases kv@.len() - i,
    {
        let x = kv[i];
        let pos = count_le_exec(&r, x.1);
        let ghost before = kv_view(r@);
        r.insert(pos, x);
        let ghost sub = kv_view(kv@).subrange(0, i + 1);
        assert(sub.drop_last() =~= kv_view(kv@).subrange(0, i as int));
        assert(sub.last() == (x.0@, x.1 as int));
        assert(kv_view(r@) =~= before.subrange(0, pos as int).push((x.0@, x.1 as int)) + before.subrange(pos as int, before.len() as int));
        i = i + 1;
    }
    assert(kv_view(kv@).subrange(0, kv@.len() as int) =~= kv_view(kv@));
    r
}

/// The number of entries whose value is `v`.
fn count_value_exec(pairs: &Vec<(&str, &str)>, v: &str) -> (n: usize)
    ensures
        n as int == count_value(pairs@.map_values(|e: (&str, &str)| (e.0@, e.1@)), v@),
{
    let ghost p = pairs@.map_values(|e: (&str, &str)| (e.0@, e.1@));
    let mut n: usize = 0;
    let mut i: usize = 0;
    while i < pairs.len()
        invariant
            i <= pairs@.len(),
            p == pairs@.map_values(|e: (&str, &str)| (e.0@, e.1@)),
            n as int == count_value(p.subrange(0, i as int), v@),
            n <= i,
        decreases pairs@.len() - i,
    {
        let ghost sub = p.subrange(0, i + 1);
        assert(sub.drop_last() =~= p.subrange(0, i as int));
        if str_eq(pairs[i].1, v) {
            n = n + 1;
        }
        i = i + 1;
    }
    assert(p.subrange(0, pairs@.len() as int) =~= p);
    n
}

/// `key_count` is at least 1 and at most the number of entries, when there are entries.
pub proof fn lemma_key_count_bounds(p: PropsView)
    ensures
        key_count(p) <= p.len(),
        p.len() > 0 ==> key_count(p) >= 1,
    decreases p.len(),
{
    if p.len() > 0 {
        lemma_key_count_bounds(p.drop_last());
    }
}

proof fn lemma_props_view(p: PropsView, pairs: Seq<(&str, &str)>)
    requires
        pairs.len() == p.len(),
        forall|i: int| 0 <= i < pairs.len() ==> (#[trigger] pairs[i]).0@ == p[i].0 && pairs[i].1@ == p[i].1,
    ensures
        pairs.map_values(|e: (&str, &str)| (e.0@, e.1@)) == p,
{
    assert(pairs.map_values(|e: (&str, &str)| (e.0@, e.1@)) =~= p);
}


/// The state `update_order_entries` carries, seen from its variables.
pub open spec fn state_of(section: PropsView, offset: usize, last_user: usize, stable_k: Seq<char>, missing: Seq<usize>, vals: Seq<usize>) -> OrdState {
    OrdState {
        section,
        offset: offset as int,
        last_user: last_user as int,
        stable_k,
        missing: ints_view(missing),
        vals: vals_view(vals),
    }
}

/// `check_missing` on the variables.
fn check_missing_exec(offset: usize, missing: &mut Vec<usize>, vals: &mut Vec<usize>)
    ensures
        ({
            let st = check_missing(state_of(Seq::empty(), offset, 0, Seq::empty(), old(missing)@, old(vals)@));
            &&& ints_view(final(missing)@) == st.missing
            &&& vals_view(final(vals)@) == st.vals
            &&& final(missing)@.len() <= old(missing)@.len() + 1
        }),
{
    if offset > 0 && !contains_val(vals, offset) {
        proof {
            lemma_vals_push(vals@, offset);
        }
        vals.push(offset);
        let ghost before = ints_view(missing@);
        missing.push(offset);
        assert(ints_view(missing@) =~= before.push(offset as int));
    }
}

impl ModLoaderCfg {
    /// updates the load order values in "loadorder" so there are no gaps in values
    /// if you want a key's value to remain the unedited you can supply `Some(stable_key)`
    /// this also calculates the correct max_order val (same logic appears in `[RegMod].max_order()`)
    /// && stores any missing values in range `1..high_order`
    ///
    /// **NOTE:** this fn does not write any updated changes to file
    pub fn update_order_entries(&mut self, stable: Option<&str>, unknown_keys: &StrSet) -> (r: OrdMetaData)
        requires
            old(self).has_order_section() ==> update_order_defined(old(self).order_entries(), crate::ini_store::opt_view(stable), unknown_keys@),
            old(self).has_order_section() ==> old(self).order_entries().len() <= usize::MAX / 8,
        ensures
            final(self).dir_view() == old(self).dir_view(),
            !old(self).has_order_section() ==> final(self).sections() == old(self).sections()
                && r.max_order == (0usize, false) && r.missing_vals is None,
            old(self).has_order_section() ==> ({
                let (entries, max_order, missing) = update_order_spec(old(self).order_entries(), crate::ini_store::opt_view(stable), unknown_keys@);
                &&& final(self).sections() == old(self).sections().update(
                    crate::ini_store::section_index(old(self).sections(), Some(LOADER_SECTIONS[1]@)),
                    (Some(LOADER_SECTIONS[1]@), entries),
                )
                &&& (r.max_order.0 as int, r.max_order.1) == max_order
                &&& match r.missing_vals {
                    Some(m) => missing == Some(ints_view(m@)),
                    None => missing is None,
                }
            }),
    {
        if self.mods_is_empty() {
            proof {
                if self.has_order_section() {
                    assert(self.sections().update(
                        crate::ini_store::section_index(self.sections(), Some(LOADER_SECTIONS[1]@)),
                        (Some(LOADER_SECTIONS[1]@), self.order_entries()),
                    ) =~= self.sections()) by {
                        crate::ini_store::lemma_section_index(self.sections(), Some(LOADER_SECTIONS[1]@));
                    }
                }
            }
            return OrdMetaData { max_order: (0, false), missing_vals: None };
        }
        let ghost p = self.order_entries();
        let ghost stab = crate::ini_store::opt_view(stable);
        let ghost u = unknown_keys@;
        let pairs = self.iter();
        proof {
            lemma_props_view(p, pairs@);
        }
        let (kv0, vals0, sk, sv) = gather_exec(&pairs, stable, unknown_keys);
        let kv = sort_by_val_exec(&kv0);
        let ghost kvs = kv_view(kv@);
        let mut new_section = props_new();
        let mut missing: Vec<usize> = Vec::new();
        let mut vals = vals0;
        let mut offset: usize;
        let mut last_user: usize = 0;
        let mut stable_k: &str = sk;
        let max_order: (usize, bool);
        if kv.len() == 0 && sk.unicode_len() > 0 {
            let val = if sv == 0 {
                "0"
            } else if sv == 1 {
                "1"
            } else {
                missing.push(1);
                "1"
            };
            props_append(&mut new_section, sk, val);
            max_order = (1, false);
            offset = 0;
            proof {
                reveal_strlit("0");
                reveal_strlit("1");
                assert("0"@ =~= seq!['0']);
                assert("1"@ =~= seq!['1']);
                if sv != 0 && sv != 1 {
                    assert(ints_view(missing@) =~= seq![1int]);
                } else {
                    assert(ints_view(missing@) =~= Seq::<int>::empty());
                }
                assert(props_entries(new_section) =~= seq![(sk@, val@)]);
            }
        } else {
            offset = if (kv.len() > 0 && kv[0].1 == 0) || sv == 0 { 0 } else { 1 };
            let ghost st0 = state_of(props_entries(new_section), offset, last_user, stable_k@, missing@, vals@);
            proof {
                assert(props_entries(new_section) =~= Seq::<(Seq<char>, Seq<char>)>::empty());
                assert(ints_view(missing@) =~= Seq::<int>::empty());
            }
            let mut idx: usize = 0;
            while idx < kv.len()
                invariant
                    idx <= kv@.len(),
                    kvs == kv_view(kv@),
                    kv@.len() <= usize::MAX / 8,
                    offset as int <= 1 + 3 * idx,
                    last_user <= offset,
                    missing@.len() <= 2 * idx,
                    props_entries(new_section).len() >= idx,
                    order_run(kvs, 0, sv as int, u, st0) == order_run(kvs, idx as int, sv as int, u,
                        state_of(props_entries(new_section), offset, last_user, stable_k@, missing@, vals@)),
                    u == unknown_keys@,
                decreases kv@.len() - idx,
            {
                let ghost st = state_of(props_entries(new_section), offset, last_user, stable_k@, missing@, vals@);
                let (k, v) = kv[idx];
                assert(kvs[idx as int] == (k@, v as int));
                check_missing_exec(offset, &mut missing, &mut vals);
                let ghost s1 = state_of(props_entries(new_section), offset, last_user, stable_k@, missing@, vals@);
                assert(s1 == check_missing(st));
                if stable_k.unicode_len() > 0 && (sv == offset || sv == v) {
                    last_user = offset;
                    let o = usize_to_string(offset);
                    props_append(&mut new_section, stable_k, o.as_str());
                    stable_k = "";
                    proof {
                        reveal_strlit("");
                        assert(stable_k@ =~= Seq::<char>::empty());
                    }
                    if v != sv && v > offset {
                        offset = offset + 1;
                    }
                    let ghost t2 = state_of(props_entries(new_section), offset, last_user, stable_k@, missing@, vals@);
                    check_missing_exec(offset, &mut missing, &mut vals);
                    assert(state_of(props_entries(new_section), offset, last_user, stable_k@, missing@, vals@) == check_missing(t2));
                }
                let ghost s2 = state_of(props_entries(new_section), offset, last_user, stable_k@, missing@, vals@);
                proof {
                    let sp1 = check_missing(st);
                    let sp2 = if sp1.stable_k.len() > 0 && (sv == sp1.offset || sv == v) {
                        let t = OrdState {
                            last_user: sp1.offset,
                            section: sp1.section.push((sp1.stable_k, decimal(sp1.offset as nat))),
                            stable_k: Seq::empty(),
                            ..sp1
                        };
                        let t2 = if v != sv && v > t.offset { OrdState { offset: t.offset + 1, ..t } } else { t };
                        check_missing(t2)
                    } else {
                        sp1
                    };
                    assert(s2 == sp2);
                }
                if !unknown_keys.contains(k) {
                    last_user = offset;
                } else if offset == last_user {
                    offset = offset + 1;
                }
                let ghost s3 = state_of(props_entries(new_section), offset, last_user, stable_k@, missing@, vals@);
                let o = usize_to_string(offset);
                props_append(&mut new_section, k, o.as_str());
                let ghost s4 = state_of(props_entries(new_section), offset, last_user, stable_k@, missing@, vals@);
                assert(s4 == OrdState { section: s3.section.push((k@, decimal(s3.offset as nat))), ..s3 });
                if idx + 1 < kv.len() {
                    let nv = kv[idx + 1].1;
                    assert(kvs[idx + 1].1 == nv as int);
                    if v != nv && nv > offset {
                        offset = offset + 1;
                    }
                } else if stable_k.unicode_len() > 0 && v != sv && sv > offset {
                    offset = offset + 1;
                }
                assert(state_of(props_entries(new_section), offset, last_user, stable_k@, missing@, vals@)
                    == order_step(kvs, idx as int, sv as int, u, st));
                idx = idx + 1;
            }
            if stable_k.unicode_len() > 0 {
                last_user = offset;
                let o = usize_to_string(offset);
                props_append(&mut new_section, stable_k, o.as_str());
            }
            let npairs = props_pairs(&new_section);
            proof {
                lemma_key_count_bounds(props_entries(new_section));
                lemma_props_view(props_entries(new_section), npairs@);
            }
            let last_key = npairs[npairs.len() - 1].0.to_owned();
            let end_user_offset = usize_to_string(last_user);
            max_order = if count_value_exec(&npairs, end_user_offset.as_str()) <= 1 {
                (last_user, false)
            } else {
                (last_user + 1, true)
            };
            if missing.len() > 0 {
                if missing[missing.len() - 1] == offset && unknown_keys.contains(last_key.as_str()) {
                    let ghost before = ints_view(missing@);
                    missing.pop();
                    assert(ints_view(missing@) =~= before.drop_last());
                }
            }
        }
        let missing_vals = if missing.len() > 0 { Some(missing) } else { None };
        let sec = self.mut_section();
        *sec = new_section;
        OrdMetaData { max_order, missing_vals }
    }
}


/// What `parse_into_map` makes of the entries: every key whose value reads as a `usize`
/// maps to that number, a later entry of a key taking the place of an earlier one.
pub open spec fn order_map_spec(p: PropsView) -> Map<Seq<char>, usize>
    decreases p.len(),
{
    if p.len() == 0 {
        Map::empty()
    } else {
        let m = order_map_spec(p.drop_last());
        match parse_unsigned(p.last().1, usize::MAX as nat) {
            Some(n) => m.insert(p.last().0, n as usize),
            None => m,
        }
    }
}

/// The (key, value in `m`) pairs of the entries whose key `m` holds, in order.
pub open spec fn mapped_values(p: PropsView, m: Map<Seq<char>, usize>) -> Seq<(Seq<char>, int)>
    decreases p.len(),
{
    if p.len() == 0 {
        Seq::empty()
    } else {
        let r = mapped_values(p.drop_last(), m);
        if m.contains_key(p.last().0) {
            r.push((p.last().0, m[p.last().0] as int))
        } else {
            r
        }
    }
}

/// The check on sorted values from `s[j]` on: each value is the running count, or one
/// more than it, which then becomes the count.
pub open spec fn in_order_from(s: Seq<(Seq<char>, int)>, j: int, count: int) -> bool
    decreases s.len() - j,
{
    if j < 0 || j >= s.len() {
        true
    } else if s[j].1 == count {
        in_order_from(s, j + 1, count)
    } else if s[j].1 == count + 1 {
        in_order_from(s, j + 1, count + 1)
    } else {
        false
    }
}

/// `true` when the sorted values of the entries have no gap: they start at 0, 1 or 2
/// and each one is the one before or one more.
pub open spec fn values_in_order(p: PropsView, m: Map<Seq<char>, usize>) -> bool {
    let s = sort_by_val(mapped_values(p, m));
    s.len() == 0 || in_order_from(s, 0, if s[0].1 == 0 { 0 } else { 1 })
}

/// `true` when the entries need no new order: every key has a number and the numbers
/// have no gap.
pub open spec fn order_is_sound(p: PropsView) -> bool {
    key_count(p) == order_map_spec(p).dom().len() && values_in_order(p, order_map_spec(p))
}

/// What `parse_section` leaves in "loadorder", and whether the file must be written:
/// the example entry leaves; entries that are not sound are given a new order.
pub open spec fn parse_section_spec(p: PropsView, unknown: Set<Seq<char>>) -> (PropsView, bool) {
    let had_example = props_has(p, LOADER_EXAMPLE@);
    let p1 = if had_example { props_without(p, LOADER_EXAMPLE@) } else { p };
    if p1.len() == 0 || order_is_sound(p1) {
        (p1, had_example)
    } else {
        (update_order_spec(p1, None, unknown).0, true)
    }
}

/// Entries without the example, and with at least one entry, have something to order.
proof fn lemma_gather_nonempty(p: PropsView, unknown: Set<Seq<char>>, i: int)
    requires
        0 <= i < p.len(),
        p[i].0 != LOADER_EXAMPLE@,
    ensures
        gather(p, None, unknown).0.len() > 0,
    decreases p.len(),
{
    if i < p.len() - 1 {
        lemma_gather_nonempty(p.drop_last(), unknown, i);
    }
}

impl ModLoaderCfg {
    /// the entries of "loadorder" whose value reads as a `usize`, as a map
    pub fn parse_into_map(&self) -> (r: OrderMap)
        requires
            self.has_order_section(),
        ensures
            r.view() == order_map_spec(self.order_entries()),
    {
        let pairs = self.iter();
        let ghost p = self.order_entries();
        let mut m = OrderMap::new();
        let mut i: usize = 0;
        assert(p.subrange(0, 0) =~= Seq::<(Seq<char>, Seq<char>)>::empty());
        while i < pairs.len()
            invariant
                i <= pairs@.len(),
                pairs@.len() == p.len(),
                forall|j: int| 0 <= j < pairs@.len() ==> (#[trigger] pairs@[j]).0@ == p[j].0 && pairs@[j].1@ == p[j].1,
                m.view() == order_map_spec(p.subrange(0, i as int)),
            decreases pairs@.len() - i,
        {
            let (k, v) = pairs[i];
            match parse_usize(v) {
                Some(n) => m.insert(k, n),
                None => {},
            }
            proof {
                let sub = p.subrange(0, i + 1);
                assert(sub.drop_last() =~= p.subrange(0, i as int));
                assert(sub.last() == p[i as int]);
            }
            i = i + 1;
        }
        assert(p.subrange(0, pairs@.len() as int) =~= p);
        m
    }

    /// `true` when the values `m` gives the keys of "loadorder" have no gap
    fn entries_in_order(&self, m: &OrderMap) -> (r: bool)
        requires
            self.has_order_section(),
        ensures
            r == values_in_order(self.order_entries(), m.view()),
    {
        let pairs = self.iter();
        let ghost p = self.order_entries();
        let mut kv: Vec<(&str, usize)> = Vec::new();
        let mut i: usize = 0;
        assert(p.subrange(0, 0) =~= Seq::<(Seq<char>, Seq<char>)>::empty());
        assert(kv_view(kv@) =~= Seq::<(Seq<char>, int)>::empty());
        while i < pairs.len()
            invariant
                i <= pairs@.len(),
                pairs@.len() == p.len(),
                forall|j: int| 0 <= j < pairs@.len() ==> (#[trigger] pairs@[j]).0@ == p[j].0 && pairs@[j].1@ == p[j].1,
                kv_view(kv@) == mapped_values(p.subrange(0, i as int), m.view()),
            decreases pairs@.len() - i,
        {
            let k = pairs[i].0;
            let ghost before = kv_view(kv@);
            match m.get(k) {
                Some(v) => {
                    kv.push((k, v));
                    assert(kv_view(kv@) =~= before.push((k@, v as int)));
                },
                None => {},
            }
            proof {
                let sub = p.subrange(0, i + 1);
                assert(sub.drop_last() =~= p.subrange(0, i as int));
                assert(sub.last() == p[i as int]);
            }
            i = i + 1;
        }
        assert(p.subrange(0, pairs@.len() as int) =~= p);
        let sorted = sort_by_val_exec(&kv);
        let ghost s = kv_view(sorted@);
        if sorted.len() == 0 {
            return true;
        }
        let mut count: usize = if sorted[0].1 == 0 { 0 } else { 1 };
        let ghost c0 = count as int;
        let mut ok = true;
        let mut j: usize = 0;
        while j < sorted.len() && ok
            invariant
                j <= sorted@.len(),
                s == kv_view(sorted@),
                in_order_from(s, 0, c0) == (ok && in_order_from(s, j as int, count as int)),
            decreases sorted@.len() - j,
        {
            let value = sorted[j].1;
            assert(s[j as int].1 == value as int);
            if count != value {
                if value == 0 || value - 1 != count {
                    ok = false;
                } else {
                    count = value;
                }
            }
            j = j + 1;
        }
        ok
    }

    /// removes the example entry, then gives the order map of "loadorder"; entries
    /// with a value that is not a number, or whose values have gaps, are first given a
    /// new order. The flag says whether "loadorder" changed and must be written to file.
    pub fn parse_section(&mut self, unknown_keys: &StrSet) -> (r: (OrderMap, bool))
        requires
            old(self).has_order_section(),
            old(self).order_entries().len() <= usize::MAX / 8,
        ensures
            final(self).dir_view() == old(self).dir_view(),
            ({
                let (entries, write) = parse_section_spec(old(self).order_entries(), unknown_keys@);
                &&& final(self).sections() == old(self).sections().update(
                    section_index(old(self).sections(), Some(LOADER_SECTIONS[1]@)),
                    (Some(LOADER_SECTIONS[1]@), entries),
                )
                &&& r.0.view() == order_map_spec(entries)
                &&& r.1 == write
            }),
    {
        let ghost v0 = self.sections();
        let ghost p = self.order_entries();
        let ghost idx = section_index(v0, Some(LOADER_SECTIONS[1]@));
        proof {
            lemma_section_index(v0, Some(LOADER_SECTIONS[1]@));
        }
        let mut write = false;
        if props_contains_key(self.section(), LOADER_EXAMPLE) {
            let sec = self.mut_section();
            let _ = props_remove(sec, LOADER_EXAMPLE);
            write = true;
        } else {
            assert(v0.update(idx, (Some(LOADER_SECTIONS[1]@), p)) =~= v0);
        }
        let ghost p1 = if props_has(p, LOADER_EXAMPLE@) { props_without(p, LOADER_EXAMPLE@) } else { p };
        proof {
            lemma_section_update(v0, Some(LOADER_SECTIONS[1]@), p1);
            assert(self.sections() == v0.update(idx, (Some(LOADER_SECTIONS[1]@), p1)));
            assert(self.order_entries() == p1);
            p.lemma_filter_len(|e: (Seq<char>, Seq<char>)| e.0 != LOADER_EXAMPLE@);
        }
        if self.mods_is_empty() {
            let m = OrderMap::new();
            assert(order_map_spec(p1) =~= Map::<Seq<char>, usize>::empty());
            return (m, write);
        }
        let map = self.parse_into_map();
        let reg = self.mods_registered();
        if reg == map.len() && self.entries_in_order(&map) {
            return (map, write);
        }
        proof {
            assert(p1[p1.len() - 1].0 != LOADER_EXAMPLE@) by {
                if props_has(p, LOADER_EXAMPLE@) {
                    let q = |e: (Seq<char>, Seq<char>)| e.0 != LOADER_EXAMPLE@;
                    p.lemma_filter_pred(q, p1.len() - 1);
                } else {
                    if p1[p1.len() - 1].0 == LOADER_EXAMPLE@ {
                        assert(props_has(p, LOADER_EXAMPLE@));
                    }
                }
            }
            lemma_gather_nonempty(p1, unknown_keys@, p1.len() - 1);
        }
        let _ = self.update_order_entries(None, unknown_keys);
        proof {
            let e = update_order_spec(p1, None, unknown_keys@).0;
            lemma_section_update(v0, Some(LOADER_SECTIONS[1]@), e);
            assert(v0.update(idx, (Some(LOADER_SECTIONS[1]@), p1)).update(idx, (Some(LOADER_SECTIONS[1]@), e))
                =~= v0.update(idx, (Some(LOADER_SECTIONS[1]@), e)));
        }
        (self.parse_into_map(), true)
    }
}


/// The value `verify_keys` reads an entry as: its number, or 42069 when it is none.
pub open spec fn value_or_marker(v: Seq<char>) -> int {
    match parse_unsigned(v, usize::MAX as nat) {
        Some(n) => n as int,
        None => 42069,
    }
}

/// What `verify_keys` reads from the entries other than the example: the highest value
/// of a registered file (a value read as 42069 is left out), and the keys that are not
/// registered, with their values, in order.
pub open spec fn scan_keys(p: PropsView, dlls: Set<Seq<char>>) -> (Option<int>, Seq<Seq<char>>, Seq<int>)
    decreases p.len(),
{
    if p.len() == 0 {
        (None, Seq::empty(), Seq::empty())
    } else {
        let (high, uk, uv) = scan_keys(p.drop_last(), dlls);
        let (k, v) = p.last();
        let cv = value_or_marker(v);
        if k == LOADER_EXAMPLE@ {
            (high, uk, uv)
        } else if dlls.contains(k) {
            if cv != 42069 {
                (Some(match high {
                    Some(h) => if cv > h { cv } else { h },
                    None => cv,
                }), uk, uv)
            } else {
                (high, uk, uv)
            }
        } else {
            (high, uk.push(k), uv.push(cv))
        }
    }
}

/// The keys of "loadorder" that are neither the example nor a registered file.
pub open spec fn unknown_order_keys(p: PropsView, dlls: Set<Seq<char>>) -> Set<Seq<char>> {
    Set::new(|k: Seq<char>| exists|j: int| 0 <= j < p.len() && #[trigger] p[j].0 == k && k != LOADER_EXAMPLE@ && !dlls.contains(k))
}

/// The keys `verify_keys` reports as unknown are exactly the keys of "loadorder" that
/// are neither the example nor a registered file; there are none (and it returns `Ok`)
/// exactly when every key is the example or a registered file.
pub proof fn verify_keys_finds_unknown(p: PropsView, dlls: Set<Seq<char>>)
    ensures
        scan_keys(p, dlls).1.to_set() == unknown_order_keys(p, dlls),
        scan_keys(p, dlls).1.len() == 0 <==> unknown_order_keys(p, dlls) == Set::<Seq<char>>::empty(),
    decreases p.len(),
{
    let uk = scan_keys(p, dlls).1;
    if p.len() == 0 {
        assert(uk.to_set() =~= unknown_order_keys(p, dlls));
    } else {
        let p1 = p.drop_last();
        verify_keys_finds_unknown(p1, dlls);
        let uk1 = scan_keys(p1, dlls).1;
        let (k, v) = p.last();
        assert(p[p.len() - 1] == p.last());
        assert forall|x: Seq<char>| uk.to_set().contains(x) <==> unknown_order_keys(p, dlls).contains(x) by {
            if unknown_order_keys(p, dlls).contains(x) {
                let j = choose|j: int| 0 <= j < p.len() && #[trigger] p[j].0 == x && x != LOADER_EXAMPLE@ && !dlls.contains(x);
                if j < p1.len() {
                    assert(p1[j] == p[j]);
                    assert(unknown_order_keys(p1, dlls).contains(x));
                    assert(uk1.to_set().contains(x));
                    let i = choose|i: int| 0 <= i < uk1.len() && uk1[i] == x;
                    assert(uk[i] == x);
                } else {
                    assert(uk[uk.len() - 1] == x);
                }
            }
            if uk.to_set().contains(x) {
                let i = choose|i: int| 0 <= i < uk.len() && uk[i] == x;
                if i < uk1.len() {
                    assert(uk1[i] == x);
                    assert(uk1.to_set().contains(x));
                    let j = choose|j: int| 0 <= j < p1.len() && #[trigger] p1[j].0 == x && x != LOADER_EXAMPLE@ && !dlls.contains(x);
                    assert(p[j] == p1[j]);
                } else {
                    assert(p[p.len() - 1].0 == x);
                }
            }
        }
        assert(uk.to_set() =~= unknown_order_keys(p, dlls));
    }
    if uk.len() > 0 {
        assert(uk.to_set().contains(uk[0]));
    } else {
        assert(uk.to_set() =~= Set::<Seq<char>>::empty());
    }
}

/// `true` when the value `val` reads as no number, or as a number above `high` (when
/// there is one).
pub open spec fn after_registered(val: Seq<char>, high: Option<int>) -> bool {
    match parse_unsigned(val, usize::MAX as nat) {
        None => true,
        Some(n) => match high {
            Some(h) => n > h,
            None => true,
        },
    }
}

/// `true` when `k` is neither the example nor a registered file.
pub open spec fn is_unknown_key(k: Seq<char>, dlls: Set<Seq<char>>) -> bool {
    k != LOADER_EXAMPLE@ && !dlls.contains(k)
}

/// Every unknown entry of `p` is one that `scan_keys` lists, with its value.
proof fn lemma_scan_witness(p: PropsView, dlls: Set<Seq<char>>)
    ensures
        forall|j: int| 0 <= j < p.len() && is_unknown_key(#[trigger] p[j].0, dlls) ==> exists|i: int|
            0 <= i < scan_keys(p, dlls).1.len() && scan_keys(p, dlls).1[i] == p[j].0
                && scan_keys(p, dlls).2[i] == value_or_marker(p[j].1),
        scan_keys(p, dlls).1.len() == scan_keys(p, dlls).2.len(),
    decreases p.len(),
{
    if p.len() > 0 {
        let p1 = p.drop_last();
        lemma_scan_witness(p1, dlls);
        let (h1, uk1, uv1) = scan_keys(p1, dlls);
        let (uk, uv) = (scan_keys(p, dlls).1, scan_keys(p, dlls).2);
        assert forall|j: int| 0 <= j < p.len() && is_unknown_key(#[trigger] p[j].0, dlls) implies exists|i: int|
            0 <= i < uk.len() && uk[i] == p[j].0 && uv[i] == value_or_marker(p[j].1) by {
            if j < p1.len() {
                assert(p1[j] == p[j]);
                let i = choose|i: int| 0 <= i < uk1.len() && uk1[i] == p1[j].0 && uv1[i] == value_or_marker(p1[j].1);
                assert(uk[i] == uk1[i] && uv[i] == uv1[i]);
            } else {
                assert(p[j] == p.last());
                assert(uk[uk1.len() as int] == p[j].0);
            }
        }
    }
}

/// What holds while `verify_keys` walks the unknown keys from `uk[i]` on.
spec fn moves_inv(sec: PropsView, p: PropsView, dlls: Set<Seq<char>>, uk: Seq<Seq<char>>, uv: Seq<int>, i: int, high: Option<int>) -> bool {
    &&& forall|j: int| 0 <= j < sec.len() && is_unknown_key(#[trigger] sec[j].0, dlls) ==> after_registered(sec[j].1, high)
        || exists|m: int| i <= m < uk.len() && uk[m] == sec[j].0 && uv[m] == value_or_marker(sec[j].1)
    &&& forall|j: int| 0 <= j < sec.len() && !is_unknown_key(#[trigger] sec[j].0, dlls) ==> p.contains(sec[j])
}

proof fn lemma_moves_run(p: PropsView, dlls: Set<Seq<char>>, uk: Seq<Seq<char>>, uv: Seq<int>, i: int, order_count: int,
    high: Option<int>, st: KeyState)
    requires
        0 <= i <= uk.len(),
        uk.len() == uv.len(),
        order_count > 0,
        forall|m: int| 0 <= m < uv.len() ==> 0 <= #[trigger] uv[m] <= usize::MAX,
        forall|m: int| 0 <= m < uk.len() ==> is_unknown_key(#[trigger] uk[m], dlls),
        high matches Some(h) ==> 0 <= h < usize::MAX / 2,
        moves_inv(st.section, p, dlls, uk, uv, i, high),
    ensures
        moves_inv(key_run(uk, uv, i, order_count, high, st).section, p, dlls, uk, uv, uk.len() as int, high),
    decreases uk.len() - i,
{
    if i < uk.len() {
        let k = uk[i];
        let v = uv[i];
        let st2 = key_step(k, v, order_count, high, st);
        let sec = st.section;
        let moved = match high {
            Some(h) => v <= h,
            None => true,
        };
        if moved {
            let nv = decimal((usize::MAX - v) as nat);
            decimal_reads_back((usize::MAX - v) as nat, usize::MAX as nat);
            let w = props_without(sec, k);
            assert(st2.section == w.push((k, nv)));
            crate::ini_store::lemma_without_from(sec, k);
            crate::ini_store::lemma_without_no_key(sec, k);
            assert forall|j: int| 0 <= j < st2.section.len() implies #[trigger] st2.section[j] == (k, nv) || (sec.contains(st2.section[j]) && st2.section[j].0 != k) by {
                if j < w.len() {
                    assert(st2.section[j] == w[j]);
                }
            }
            assert(moves_inv(st2.section, p, dlls, uk, uv, i + 1, high)) by {
                assert forall|j: int| 0 <= j < st2.section.len() && is_unknown_key(#[trigger] st2.section[j].0, dlls) implies
                    after_registered(st2.section[j].1, high)
                    || exists|m: int| i + 1 <= m < uk.len() && uk[m] == st2.section[j].0 && uv[m] == value_or_marker(st2.section[j].1) by {
                    let e = st2.section[j];
                    if e != (k, nv) {
                        let q = choose|q: int| 0 <= q < sec.len() && sec[q] == e;
                        if !after_registered(e.1, high) {
                            let m = choose|m: int| i <= m < uk.len() && uk[m] == sec[q].0 && uv[m] == value_or_marker(sec[q].1);
                            assert(m != i);
                        }
                    }
                }
                assert forall|j: int| 0 <= j < st2.section.len() && !is_unknown_key(#[trigger] st2.section[j].0, dlls) implies p.contains(st2.section[j]) by {
                    let e = st2.section[j];
                    if e != (k, nv) {
                        let q = choose|q: int| 0 <= q < sec.len() && sec[q] == e;
                    }
                }
            }
        } else {
            assert(st2.section == sec);
            assert(moves_inv(st2.section, p, dlls, uk, uv, i + 1, high)) by {
                assert forall|j: int| 0 <= j < sec.len() && is_unknown_key(#[trigger] sec[j].0, dlls) implies
                    after_registered(sec[j].1, high)
                    || exists|m: int| i + 1 <= m < uk.len() && uk[m] == sec[j].0 && uv[m] == value_or_marker(sec[j].1) by {
                    if !after_registered(sec[j].1, high) {
                        let m = choose|m: int| i <= m < uk.len() && uk[m] == sec[j].0 && uv[m] == value_or_marker(sec[j].1);
                        if m == i {
                            assert(value_or_marker(sec[j].1) == v);
                        }
                    }
                }
            }
        }
        lemma_moves_run(p, dlls, uk, uv, i + 1, order_count, high, st2);
    }
}

proof fn lemma_scan_facts(p: PropsView, dlls: Set<Seq<char>>)
    ensures
        forall|m: int| 0 <= m < scan_keys(p, dlls).2.len() ==> 0 <= #[trigger] scan_keys(p, dlls).2[m] <= usize::MAX,
        forall|m: int| 0 <= m < scan_keys(p, dlls).1.len() ==> is_unknown_key(#[trigger] scan_keys(p, dlls).1[m], dlls),
    decreases p.len(),
{
    if p.len() > 0 {
        lemma_scan_facts(p.drop_last(), dlls);
        let (h1, uk1, uv1) = scan_keys(p.drop_last(), dlls);
        let (uk, uv) = (scan_keys(p, dlls).1, scan_keys(p, dlls).2);
        let cv = value_or_marker(p.last().1);
        assert(0 <= cv <= usize::MAX);
        assert forall|m: int| 0 <= m < uv.len() implies 0 <= #[trigger] uv[m] <= usize::MAX by {
            if m < uv1.len() {
                assert(uv[m] == uv1[m]);
            }
        }
        assert forall|m: int| 0 <= m < uk.len() implies is_unknown_key(#[trigger] uk[m], dlls) by {
            if m < uk1.len() {
                assert(uk[m] == uk1[m]);
            }
        }
    }
}

/// When some registered file has a load order (`order_count > 0`), `verify_keys` leaves
/// every key of "loadorder" that is neither the example nor registered with a value
/// that reads as no number or as a number above the highest registered value it found
/// (when that is below half of `usize::MAX`), so that such keys are ordered after every
/// registered key; every other entry stays as it was.
pub proof fn verify_keys_moves_unknown_last(p: PropsView, dlls: Set<Seq<char>>, order_count: int)
    requires
        order_count > 0,
        scan_keys(p, dlls).0 matches Some(h) ==> h < usize::MAX / 2,
    ensures
        ({
            let (high, uk, uv) = scan_keys(p, dlls);
            let st = key_run(uk, uv, 0, order_count, high, KeyState { section: p, counter: 0, updated: false });
            forall|j: int| 0 <= j < st.section.len() ==> {
                &&& is_unknown_key(#[trigger] st.section[j].0, dlls) ==> after_registered(st.section[j].1, high)
                &&& !is_unknown_key(st.section[j].0, dlls) ==> p.contains(st.section[j])
            }
        }),
{
    let (high, uk, uv) = scan_keys(p, dlls);
    lemma_scan_witness(p, dlls);
    lemma_scan_facts(p, dlls);
    lemma_scan_high(p, dlls);
    assert(moves_inv(p, p, dlls, uk, uv, 0, high)) by {
        assert forall|j: int| 0 <= j < p.len() && !is_unknown_key(#[trigger] p[j].0, dlls) implies p.contains(p[j]) by {}
    }
    lemma_moves_run(p, dlls, uk, uv, 0, order_count, high, KeyState { section: p, counter: 0, updated: false });
}

proof fn lemma_scan_high(p: PropsView, dlls: Set<Seq<char>>)
    ensures
        scan_keys(p, dlls).0 matches Some(h) ==> 0 <= h,
    decreases p.len(),
{
    if p.len() > 0 {
        lemma_scan_high(p.drop_last(), dlls);
    }
}

/// The state `verify_keys` carries through the unknown keys.
pub struct KeyState {
    pub section: PropsView,
    pub counter: int,
    pub updated: bool,
}

/// One step of `verify_keys` over the unknown key `k` with value `v`: the key is moved
/// behind every other (its value set to `usize::MAX - v`) when its value clashes with
/// the values of registered files.
pub open spec fn key_step(k: Seq<char>, v: int, order_count: int, high: Option<int>, st: KeyState) -> KeyState {
    let (counter, moved) = if order_count == 0 {
        if v != st.counter {
            (st.counter + 1, st.counter + 1 != v)
        } else {
            (st.counter, false)
        }
    } else {
        match high {
            Some(h) => (st.counter, v <= h),
            None => (st.counter, true),
        }
    };
    if moved {
        KeyState { section: props_insert(st.section, k, decimal((usize::MAX - v) as nat)), counter, updated: true }
    } else {
        KeyState { counter, ..st }
    }
}

/// The steps of `verify_keys` from the unknown key `uk[i]` on.
pub open spec fn key_run(uk: Seq<Seq<char>>, uv: Seq<int>, i: int, order_count: int, high: Option<int>, st: KeyState) -> KeyState
    decreases uk.len() - i,
{
    if i < 0 || i >= uk.len() {
        st
    } else {
        key_run(uk, uv, i + 1, order_count, high, key_step(uk[i], uv[i], order_count, high, st))
    }
}

/// The message of the error when keys were moved.
pub open spec fn moved_keys_msg() -> Seq<char> {
    "Found load order set for file(s) not registered with the app. One or more of the following key(s) order has been changed: "@
}

/// The message of the error when keys are unknown but nothing was moved.
pub open spec fn unknown_keys_msg() -> Seq<char> {
    "Found load order set for the following file(s) not registered with the app: "@
}

/// The keys of a list of `String`s.
pub open spec fn string_views(v: Seq<String>) -> Seq<Seq<char>> {
    v.map_values(|s: String| s@)
}

pub open spec fn opt_int(o: Option<usize>) -> Option<int> {
    match o {
        Some(x) => Some(x as int),
        None => None,
    }
}

proof fn lemma_scan_keys(p: PropsView, dlls: Set<Seq<char>>)
    ensures
        scan_keys(p, dlls).1.len() == scan_keys(p, dlls).2.len(),
        scan_keys(p, dlls).1.len() <= p.len(),
        forall|j: int| 0 <= j < scan_keys(p, dlls).1.len() ==> (#[trigger] scan_keys(p, dlls).1[j]) != LOADER_EXAMPLE@,
        forall|j: int| 0 <= j < scan_keys(p, dlls).2.len() ==> 0 <= (#[trigger] scan_keys(p, dlls).2[j]) <= usize::MAX,
    decreases p.len(),
{
    if p.len() > 0 {
        lemma_scan_keys(p.drop_last(), dlls);
        let (high, uk, uv) = scan_keys(p.drop_last(), dlls);
        let (k, v) = p.last();
        if k != LOADER_EXAMPLE@ && !dlls.contains(k) {
            assert forall|j: int| 0 <= j < uk.push(k).len() implies (#[trigger] uk.push(k)[j]) != LOADER_EXAMPLE@ by {
                if j < uk.len() {
                    assert(uk.push(k)[j] == uk[j]);
                }
            }
            assert forall|j: int| 0 <= j < uv.push(value_or_marker(v)).len()
                implies 0 <= (#[trigger] uv.push(value_or_marker(v))[j]) <= usize::MAX by {
                if j < uv.len() {
                    assert(uv.push(value_or_marker(v))[j] == uv[j]);
                }
            }
        }
    }
}

impl ModLoaderCfg {
    /// reads the keys and values of "loadorder" other than the example: the highest
    /// value of a file in `dlls`, and the keys that are not in `dlls` with their values
    fn scan_order_keys(&self, dlls: &StrSet) -> (r: (Option<usize>, Vec<String>, Vec<usize>))
        requires
            self.has_order_section(),
        ensures
            (opt_int(r.0), string_views(r.1@), ints_view(r.2@)) == scan_keys(self.order_entries(), dlls@),
    {
        let pairs = self.iter();
        let ghost p = self.order_entries();
        let mut high: Option<usize> = None;
        let mut uk: Vec<String> = Vec::new();
        let mut uv: Vec<usize> = Vec::new();
        let mut i: usize = 0;
        assert(p.subrange(0, 0) =~= Seq::<(Seq<char>, Seq<char>)>::empty());
        assert(string_views(uk@) =~= Seq::<Seq<char>>::empty());
        assert(ints_view(uv@) =~= Seq::<int>::empty());
        while i < pairs.len()
            invariant
                i <= pairs@.len(),
                pairs@.len() == p.len(),
                forall|j: int| 0 <= j < pairs@.len() ==> (#[trigger] pairs@[j]).0@ == p[j].0 && pairs@[j].1@ == p[j].1,
                (opt_int(high), string_views(uk@), ints_view(uv@)) == scan_keys(p.subrange(0, i as int), dlls@),
            decreases pairs@.len() - i,
        {
            let (k, v) = pairs[i];
            proof {
                let sub = p.subrange(0, i + 1);
                assert(sub.drop_last() =~= p.subrange(0, i as int));
                assert(sub.last() == p[i as int]);
                reveal_strlit("Example.dll");
            }
            if !str_eq(k, LOADER_EXAMPLE) {
                let cv: usize = match parse_usize(v) {
                    Some(n) => n,
                    None => 42069,
                };
                if dlls.contains(k) {
                    if cv != 42069 {
                        high = match high {
                            Some(h) => if cv > h { Some(cv) } else { Some(h) },
                            None => Some(cv),
                        };
                    }
                } else {
                    let ghost b1 = string_views(uk@);
                    let ghost b2 = ints_view(uv@);
                    uk.push(k.to_owned());
                    uv.push(cv);
                    assert(string_views(uk@) =~= b1.push(k@));
                    assert(ints_view(uv@) =~= b2.push(cv as int));
                }
            }
            i = i + 1;
        }
        assert(p.subrange(0, pairs@.len() as int) =~= p);
        (high, uk, uv)
    }

    /// checks the keys of "loadorder" against the files registered with the app (`dlls`,
    /// `order_count` of which have a load order); keys of files not registered whose
    /// value clashes are moved behind every other and the entries given a new order.
    /// `Err` names the unknown keys; when keys were moved it also carries the new order
    /// data, and "loadorder" must be written to file
    pub fn verify_keys(&mut self, dlls: &StrSet, order_count: usize) -> (r: Result<(), UnknownKeyErr>)
        requires
            old(self).has_order_section() ==> old(self).order_entries().len() <= usize::MAX / 16,
        ensures
            final(self).dir_view() == old(self).dir_view(),
            section_is_empty(old(self).sections(), LOADER_SECTIONS[1]@) ==> r is Ok && final(self).sections() == old(self).sections(),
            !section_is_empty(old(self).sections(), LOADER_SECTIONS[1]@) ==> ({
                let p = old(self).order_entries();
                let (high, uk, uv) = scan_keys(p, dlls@);
                let st = key_run(uk, uv, 0, order_count as int, high, KeyState { section: p, counter: 0, updated: false });
                if uk.len() == 0 {
                    r is Ok && final(self).sections() == old(self).sections()
                } else if st.updated {
                    let (entries, max_order, missing) = update_order_spec(st.section, None, uk.to_set());
                    &&& final(self).sections() == old(self).sections().update(
                        section_index(old(self).sections(), Some(LOADER_SECTIONS[1]@)),
                        (Some(LOADER_SECTIONS[1]@), entries),
                    )
                    &&& match r {
                        Err(e) => {
                            &&& e.err.kind == ErrorKind::Unsupported
                            &&& e.err.msg@ == moved_keys_msg() + list_text(uk)
                            &&& (match e.unknown_keys {
                                Some(set) => set@ == uk.to_set(),
                                None => false,
                            })
                            &&& (match e.update_ord_data {
                                Some(d) => (d.max_order.0 as int, d.max_order.1) == max_order && match d.missing_vals {
                                    Some(m) => missing == Some(ints_view(m@)),
                                    None => missing is None,
                                },
                                None => false,
                            })
                        },
                        Ok(_) => false,
                    }
                } else {
                    &&& final(self).sections() == old(self).sections()
                    &&& match r {
                        Err(e) => {
                            &&& e.err.kind == ErrorKind::Other
                            &&& e.err.msg@ == unknown_keys_msg() + list_text(uk)
                            &&& (match e.unknown_keys {
                                Some(set) => set@ == uk.to_set(),
                                None => false,
                            })
                            &&& e.update_ord_data is None
                        },
                        Ok(_) => false,
                    }
                }
            }),
    {
        if self.mods_is_empty() {
            return Ok(());
        }
        let ghost v0 = self.sections();
        let ghost p = self.order_entries();
        let ghost idx = section_index(v0, Some(LOADER_SECTIONS[1]@));
        let (high, uk, uv) = self.scan_order_keys(dlls);
        let ghost ukv = string_views(uk@);
        let ghost uvv = ints_view(uv@);
        proof {
            lemma_section_index(v0, Some(LOADER_SECTIONS[1]@));
            lemma_scan_keys(p, dlls@);
            assert(v0.update(idx, (Some(LOADER_SECTIONS[1]@), p)) =~= v0);
        }
        if uk.len() == 0 {
            return Ok(());
        }
        let ghost st0 = KeyState { section: p, counter: 0, updated: false };
        let ghost mut cur: PropsView = p;
        let mut updated = false;
        let mut counter: usize = 0;
        let mut i: usize = 0;
        while i < uk.len()
            invariant
                i <= uk@.len(),
                uk@.len() == uv@.len(),
                ukv == string_views(uk@),
                uvv == ints_view(uv@),
                forall|j: int| 0 <= j < ukv.len() ==> (#[trigger] ukv[j]) != LOADER_EXAMPLE@,
                idx == section_index(v0, Some(LOADER_SECTIONS[1]@)),
                0 <= idx < v0.len(),
                counter <= i,
                cur.len() <= p.len() + i,
                p.len() <= usize::MAX / 16,
                uk@.len() <= p.len(),
                self.sections() == v0.update(idx, (Some(LOADER_SECTIONS[1]@), cur)),
                self.dir_view() == old(self).dir_view(),
                updated ==> cur.len() > 0 && cur.last().0 != LOADER_EXAMPLE@,
                !updated ==> cur == p,
                v0.update(idx, (Some(LOADER_SECTIONS[1]@), p)) == v0,
                key_run(ukv, uvv, 0, order_count as int, opt_int(high), st0) == key_run(ukv, uvv, i as int, order_count as int,
                    opt_int(high), KeyState { section: cur, counter: counter as int, updated }),
            decreases uk@.len() - i,
        {
            let k = &uk[i];
            let v = uv[i];
            assert(ukv[i as int] == k@);
            assert(uvv[i as int] == v as int);
            let moved = if order_count == 0 {
                if v != counter {
                    counter = counter + 1;
                    counter != v
                } else {
                    false
                }
            } else {
                match high {
                    Some(h) => v <= h,
                    None => true,
                }
            };
            if moved {
                updated = true;
                let n = usize_to_string(usize::MAX - v);
                proof {
                    lemma_section_update(v0, Some(LOADER_SECTIONS[1]@), cur);
                }
                let sec = self.mut_section();
                props_insert_kv(sec, k.as_str(), n.as_str());
                proof {
                    let new_cur = props_insert(cur, k@, n@);
                    assert(v0.update(idx, (Some(LOADER_SECTIONS[1]@), cur)).update(idx, (Some(LOADER_SECTIONS[1]@), new_cur))
                        =~= v0.update(idx, (Some(LOADER_SECTIONS[1]@), new_cur)));
                    cur.lemma_filter_len(|e: (Seq<char>, Seq<char>)| e.0 != k@);
                    cur = new_cur;
                }
            }
            i = i + 1;
        }
        proof {
            let st = key_run(ukv, uvv, 0, order_count as int, opt_int(high), st0);
            assert(st == KeyState { section: cur, counter: counter as int, updated });
        }
        let list = DisplayVec(uk.as_slice()).to_string();
        let mut set = StrSet::new();
        let mut j: usize = 0;
        assert(ukv.subrange(0, 0).to_set() =~= Set::<Seq<char>>::empty());
        while j < uk.len()
            invariant
                j <= uk@.len(),
                ukv == string_views(uk@),
                set@ == ukv.subrange(0, j as int).to_set(),
            decreases uk@.len() - j,
        {
            let _ = set.insert(uk[j].as_str());
            proof {
                assert(ukv.subrange(0, j + 1) =~= ukv.subrange(0, j as int).push(uk@[j as int]@));
                ukv.subrange(0, j as int).lemma_push_to_set_commute(uk@[j as int]@);
            }
            j = j + 1;
        }
        assert(ukv.subrange(0, uk@.len() as int) =~= ukv);
        assert(item_texts(uk@) =~= ukv);
        if updated {
            let err = Error::from_string(ErrorKind::Unsupported, concat(
                "Found load order set for file(s) not registered with the app. One or more of the following key(s) order has been changed: ",
                list.as_str(),
            ));
            proof {
                lemma_section_update(v0, Some(LOADER_SECTIONS[1]@), cur);
                lemma_gather_nonempty(cur, set@, cur.len() - 1);
            }
            let data = self.update_order_entries(None, &set);
            proof {
                let e = update_order_spec(cur, None, set@).0;
                assert(v0.update(idx, (Some(LOADER_SECTIONS[1]@), cur)).update(idx, (Some(LOADER_SECTIONS[1]@), e))
                    =~= v0.update(idx, (Some(LOADER_SECTIONS[1]@), e)));
            }
            assert(err.msg@ == moved_keys_msg() + list_text(ukv)) by {
                reveal_strlit("Found load order set for file(s) not registered with the app. One or more of the following key(s) order has been changed: ");
            }
            return Err(UnknownKeyErr { err, unknown_keys: Some(set), update_ord_data: Some(data) });
        }
        let err = Error::from_string(ErrorKind::Other, concat(
            "Found load order set for the following file(s) not registered with the app: ",
            list.as_str(),
        ));
        assert(err.msg@ == unknown_keys_msg() + list_text(ukv)) by {
            reveal_strlit("Found load order set for the following file(s) not registered with the app: ");
        }
        Err(UnknownKeyErr { err, unknown_keys: Some(set), update_ord_data: None })
    }
}


/// The load orders that are set, in the order of the mods.
pub open spec fn set_orders(mods: Seq<RegMod>) -> Seq<int>
    decreases mods.len(),
{
    if mods.len() == 0 {
        Seq::empty()
    } else {
        let r = set_orders(mods.drop_last());
        if mods.last().order.set {
            r.push(mods.last().order.at as int)
        } else {
            r
        }
    }
}

/// The largest element (0 for none).
pub open spec fn seq_max(s: Seq<int>) -> int
    decreases s.len(),
{
    if s.len() == 0 {
        0
    } else {
        let m = seq_max(s.drop_last());
        if s.len() == 1 || s.last() > m {
            s.last()
        } else {
            m
        }
    }
}

/// The number of elements equal to `v`.
pub open spec fn count_of(s: Seq<int>, v: int) -> nat
    decreases s.len(),
{
    if s.len() == 0 {
        0
    } else {
        count_of(s.drop_last(), v) + if s.last() == v { 1nat } else { 0nat }
    }
}

/// `(max_order, high_val.count() > 1)` for the mods: the number of set orders when it
/// is under 2; else the highest order, or one past it when more than one mod has it.
pub open spec fn max_order_spec(mods: Seq<RegMod>) -> (int, bool) {
    let s = set_orders(mods);
    if s.len() < 2 {
        (s.len() as int, false)
    } else if count_of(s, seq_max(s)) == 1 {
        (seq_max(s), false)
    } else {
        (seq_max(s) + 1, true)
    }
}

proof fn lemma_set_orders_bound(mods: Seq<RegMod>)
    ensures
        set_orders(mods).len() <= mods.len(),
        forall|j: int| 0 <= j < set_orders(mods).len() ==> 0 <= #[trigger] set_orders(mods)[j] <= usize::MAX,
    decreases mods.len(),
{
    if mods.len() > 0 {
        lemma_set_orders_bound(mods.drop_last());
        let r = set_orders(mods.drop_last());
        if mods.last().order.set {
            assert forall|j: int| 0 <= j < r.push(mods.last().order.at as int).len()
                implies 0 <= #[trigger] r.push(mods.last().order.at as int)[j] <= usize::MAX by {
                if j < r.len() {
                    assert(r.push(mods.last().order.at as int)[j] == r[j]);
                }
            }
        }
    }
}

proof fn lemma_seq_max_bound(s: Seq<int>)
    requires
        forall|j: int| 0 <= j < s.len() ==> 0 <= #[trigger] s[j] <= usize::MAX,
    ensures
        0 <= seq_max(s) <= usize::MAX,
        s.len() > 0 ==> exists|j: int| 0 <= j < s.len() && s[j] == seq_max(s),
    decreases s.len(),
{
    if s.len() > 0 {
        lemma_seq_max_bound(s.drop_last());
        assert(s[s.len() - 1] == s.last());
        if s.len() > 1 && s.last() <= seq_max(s.drop_last()) {
            let j = choose|j: int| 0 <= j < s.drop_last().len() && s.drop_last()[j] == seq_max(s.drop_last());
            assert(s[j] == s.drop_last()[j]);
        }
    }
}

/// `max_order` for a list of registered mods.
pub trait RegModsExt {
    /// The mods in the list.
    spec fn mods_view(&self) -> Seq<RegMod>;

    /// returns the calculation for the correct (`max_order`, `high_val.count() > 1`)
    fn max_order(&self) -> (r: (usize, bool))
        requires
            forall|i: int| 0 <= i < self.mods_view().len() ==> (#[trigger] self.mods_view()[i]).order.set
                ==> self.mods_view()[i].order.at < usize::MAX,
        ensures
            (r.0 as int, r.1) == max_order_spec(self.mods_view());
}

impl RegModsExt for [RegMod] {
    open spec fn mods_view(&self) -> Seq<RegMod> {
        self@
    }

    fn max_order(&self) -> (r: (usize, bool)) {
        let ghost m = self@;
        assert(self.mods_view() == m);
        assert forall|j: int| 0 <= j < m.len() && (#[trigger] m[j]).order.set implies m[j].order.at < usize::MAX by {
            assert(self.mods_view()[j] == m[j]);
        }
        let mut orders: Vec<usize> = Vec::new();
        let mut i: usize = 0;
        assert(m.subrange(0, 0) =~= Seq::<RegMod>::empty());
        assert(ints_view(orders@) =~= Seq::<int>::empty());
        while i < self.len()
            invariant
                i <= m.len(),
                m == self@,
                ints_view(orders@) == set_orders(m.subrange(0, i as int)),
                forall|j: int| 0 <= j < m.len() ==> (#[trigger] m[j]).order.set ==> m[j].order.at < usize::MAX,
                forall|j: int| 0 <= j < orders@.len() ==> #[trigger] orders@[j] < usize::MAX,
            decreases m.len() - i,
        {
            let ghost sub = m.subrange(0, i + 1);
            assert(sub.drop_last() =~= m.subrange(0, i as int));
            assert(sub.last() == m[i as int]);
            if self[i].order.set {
                let ghost before = ints_view(orders@);
                orders.push(self[i].order.at);
                assert(ints_view(orders@) =~= before.push(m[i as int].order.at as int));
            }
            i = i + 1;
        }
        assert(m.subrange(0, m.len() as int) =~= m);
        let ghost s = ints_view(orders@);
        assert(s.len() == orders@.len());
        let len = orders.len();
        if len < 2 {
            return (len, false);
        }
        let mut high: usize = 0;
        let mut j: usize = 0;
        assert(s.subrange(0, 0) =~= Seq::<int>::empty());
        while j < len
            invariant
                j <= len,
                len == orders@.len(),
                s == ints_view(orders@),
                j > 0 ==> high as int == seq_max(s.subrange(0, j as int)),
                j == 0 ==> high == 0,
                forall|k: int| 0 <= k < orders@.len() ==> #[trigger] orders@[k] < usize::MAX,
            decreases len - j,
        {
            let ghost sub = s.subrange(0, j + 1);
            assert(sub.drop_last() =~= s.subrange(0, j as int));
            assert(sub.last() == orders@[j as int] as int);
            if j == 0 || orders[j] > high {
                high = orders[j];
            }
            j = j + 1;
        }
        assert(s.subrange(0, len as int) =~= s);
        let mut n: usize = 0;
        let mut k: usize = 0;
        while k < len
            invariant
                k <= len,
                len == orders@.len(),
                s == ints_view(orders@),
                n as int == count_of(s.subrange(0, k as int), high as int),
                n <= k,
            decreases len - k,
        {
            let ghost sub = s.subrange(0, k + 1);
            assert(sub.drop_last() =~= s.subrange(0, k as int));
            assert(sub.last() == orders@[k as int] as int);
            if orders[k] == high {
                n = n + 1;
            }
            k = k + 1;
        }
        assert(s.subrange(0, len as int) =~= s);
        if n == 1 {
            (high, false)
        } else {
            proof {
                assert(high < usize::MAX) by {
                    let hs = orders@;
                    assert forall|q: int| 0 <= q < s.len() implies 0 <= #[trigger] s[q] <= usize::MAX by {
                        assert(s[q] == hs[q] as int);
                    }
                    lemma_seq_max_bound(s);
                    let q = choose|q: int| 0 <= q < s.len() && s[q] == seq_max(s);
                    assert(s[q] == hs[q] as int);
                }
            }
            (high + 1, true)
        }
    }
}


/// `true` when the values of `p` are the numbers `ns` (written in decimal) and have no
/// gap: the first is 0 or 1 and each one is the one before it or one more.
pub open spec fn numbered_without_gaps(p: PropsView, ns: Seq<nat>) -> bool {
    &&& ns.len() == p.len()
    &&& forall|j: int| 0 <= j < p.len() ==> #[trigger] p[j].1 == decimal(ns[j])
    &&& ns.len() > 0 ==> ns[0] <= 1
    &&& forall|j: int| 0 < j < ns.len() ==> #[trigger] ns[j] == ns[j - 1] || ns[j] == ns[j - 1] + 1
}

/// `true` when the values of `p` are numbers with no gap (see `numbered_without_gaps`).
pub open spec fn no_gaps(p: PropsView) -> bool {
    exists|ns: Seq<nat>| numbered_without_gaps(p, ns)
}

/// What holds of the state `update_order_entries` carries: the entries written so far
/// have no gap, and the next value is the last one written or one more.
spec fn run_inv(st: OrdState, ns: Seq<nat>) -> bool {
    &&& numbered_without_gaps(st.section, ns)
    &&& 0 <= st.last_user
    &&& if ns.len() == 0 {
        0 <= st.offset <= 1 && st.last_user == 0
    } else {
        st.last_user <= ns.last() && (st.offset == ns.last() || st.offset == ns.last() + 1)
    }
}

/// Writing an entry at `offset` keeps the entries without gaps.
proof fn lemma_push_entry(st: OrdState, ns: Seq<nat>, k: Seq<char>) -> (ns2: Seq<nat>)
    requires
        run_inv(st, ns),
    ensures
        numbered_without_gaps(st.section.push((k, decimal(st.offset as nat))), ns2),
        ns2 == ns.push(st.offset as nat),
{
    let ns2 = ns.push(st.offset as nat);
    let sec = st.section.push((k, decimal(st.offset as nat)));
    assert forall|j: int| 0 <= j < sec.len() implies #[trigger] sec[j].1 == decimal(ns2[j]) by {
        if j < st.section.len() {
            assert(sec[j] == st.section[j]);
            assert(ns2[j] == ns[j]);
        }
    }
    assert forall|j: int| 0 < j < ns2.len() implies #[trigger] ns2[j] == ns2[j - 1] || ns2[j] == ns2[j - 1] + 1 by {
        if j < ns.len() {
            assert(ns2[j] == ns[j] && ns2[j - 1] == ns[j - 1]);
        } else {
            assert(ns2[j - 1] == ns.last());
        }
    }
    ns2
}

proof fn lemma_order_step_no_gaps(kv: Seq<(Seq<char>, int)>, idx: int, sv: int, unknown: Set<Seq<char>>, st: OrdState, ns: Seq<nat>) -> (ns2: Seq<nat>)
    requires
        0 <= idx < kv.len(),
        run_inv(st, ns),
    ensures
        run_inv(order_step(kv, idx, sv, unknown, st), ns2),
{
    let (k, v) = kv[idx];
    let s1 = check_missing(st);
    assert(run_inv(s1, ns));
    let mut ns1 = ns;
    let s2 = if s1.stable_k.len() > 0 && (sv == s1.offset || sv == v) {
        ns1 = lemma_push_entry(s1, ns, s1.stable_k);
        let t = OrdState {
            last_user: s1.offset,
            section: s1.section.push((s1.stable_k, decimal(s1.offset as nat))),
            stable_k: Seq::empty(),
            ..s1
        };
        let t2 = if v != sv && v > t.offset { OrdState { offset: t.offset + 1, ..t } } else { t };
        assert(run_inv(t2, ns1));
        check_missing(t2)
    } else {
        s1
    };
    assert(run_inv(s2, ns1));
    let s3 = if !unknown.contains(k) {
        OrdState { last_user: s2.offset, ..s2 }
    } else if s2.offset == s2.last_user {
        OrdState { offset: s2.offset + 1, ..s2 }
    } else {
        s2
    };
    assert(0 <= s3.offset);
    assert(ns1.len() == 0 ==> s3.offset <= 1);
    assert(ns1.len() > 0 ==> s3.offset == ns1.last() || s3.offset == ns1.last() + 1);
    assert(ns1.len() > 0 ==> s3.last_user <= s3.offset);
    assert(ns1.len() == 0 ==> s3.last_user <= s3.offset);
    let ns3 = ns1.push(s3.offset as nat);
    let s4 = OrdState { section: s3.section.push((k, decimal(s3.offset as nat))), ..s3 };
    let ns4 = lemma_push_entry(OrdState { last_user: 0, ..s3 }, ns1, k);
    assert(ns4 == ns3);
    assert(run_inv(s4, ns3));
    ns3
}

proof fn lemma_order_run_no_gaps(kv: Seq<(Seq<char>, int)>, idx: int, sv: int, unknown: Set<Seq<char>>, st: OrdState, ns: Seq<nat>) -> (ns2: Seq<nat>)
    requires
        0 <= idx,
        run_inv(st, ns),
    ensures
        run_inv(order_run(kv, idx, sv, unknown, st), ns2),
    decreases kv.len() - idx,
{
    if idx >= kv.len() {
        ns
    } else {
        let ns1 = lemma_order_step_no_gaps(kv, idx, sv, unknown, st, ns);
        lemma_order_run_no_gaps(kv, idx + 1, sv, unknown, order_step(kv, idx, sv, unknown, st), ns1)
    }
}

/// `update_order_entries` leaves "loadorder" without gaps: every value is a number, the
/// first is 0 or 1, and each one is the one before it or one more.
pub proof fn update_order_no_gaps(p: PropsView, stable: Option<Seq<char>>, unknown: Set<Seq<char>>)
    ensures
        no_gaps(update_order_spec(p, stable, unknown).0),
{
    if p.len() == 0 {
        let ns: Seq<nat> = Seq::empty();
        assert(numbered_without_gaps(p, ns));
    } else {
        let (kv0, vals, sk, sv) = gather(p, stable, unknown);
        let kv = sort_by_val(kv0);
        if kv.len() == 0 && sk.len() > 0 {
            let n: nat = if sv == 0 { 0 } else { 1 };
            let val: Seq<char> = if sv == 0 { seq!['0'] } else { seq!['1'] };
            assert(decimal(n) == val);
            let ns: Seq<nat> = seq![n];
            assert(numbered_without_gaps(seq![(sk, val)], ns));
        } else {
            let st0 = OrdState {
                section: Seq::empty(),
                offset: if (kv.len() > 0 && kv[0].1 == 0) || sv == 0 { 0 } else { 1 },
                last_user: 0,
                stable_k: sk,
                missing: Seq::empty(),
                vals,
            };
            let ns0: Seq<nat> = Seq::empty();
            assert(run_inv(st0, ns0));
            let ns1 = lemma_order_run_no_gaps(kv, 0, sv, unknown, st0, ns0);
            let st = order_run(kv, 0, sv, unknown, st0);
            if st.stable_k.len() > 0 {
                let ns2 = lemma_push_entry(st, ns1, st.stable_k);
                assert(numbered_without_gaps(update_order_spec(p, stable, unknown).0, ns2));
            } else {
                assert(numbered_without_gaps(update_order_spec(p, stable, unknown).0, ns1));
            }
        }
    }
}

/// With every key registered, a step of `update_order_entries` ends with `last_user`
/// at the value it wrote last.
proof fn lemma_order_step_last_user(kv: Seq<(Seq<char>, int)>, idx: int, sv: int, st: OrdState)
    requires
        0 <= idx < kv.len(),
        0 <= st.offset,
    ensures
        ({
            let s = order_step(kv, idx, sv, Set::empty(), st);
            &&& s.section.len() > 0
            &&& 0 <= s.last_user <= s.offset
            &&& s.section.last().1 == decimal(s.last_user as nat)
        }),
{
}

/// With every key registered, the steps of `update_order_entries` over at least one
/// entry end with `last_user` at the value written last.
proof fn lemma_order_run_last_user(kv: Seq<(Seq<char>, int)>, idx: int, sv: int, st: OrdState)
    requires
        0 <= idx < kv.len(),
        0 <= st.offset,
    ensures
        ({
            let s = order_run(kv, idx, sv, Set::empty(), st);
            &&& s.section.len() > 0
            &&& 0 <= s.last_user <= s.offset
            &&& s.section.last().1 == decimal(s.last_user as nat)
        }),
    decreases kv.len() - idx,
{
    lemma_order_step_last_user(kv, idx, sv, st);
    let s1 = order_step(kv, idx, sv, Set::empty(), st);
    if idx + 1 < kv.len() {
        lemma_order_run_last_user(kv, idx + 1, sv, s1);
    } else {
        assert(order_run(kv, idx + 1, sv, Set::empty(), s1) == s1);
    }
}

/// Two numbers with the same decimal text are equal.
proof fn lemma_decimal_injective(a: nat, b: nat)
    requires
        decimal(a) == decimal(b),
    ensures
        a == b,
{
    let m: nat = if a < b { b } else { a };
    decimal_reads_back(a, m);
    decimal_reads_back(b, m);
}

/// The numbers of entries written as `ns`, as integers.
pub open spec fn nat_ints(ns: Seq<nat>) -> Seq<int> {
    ns.map_values(|n: nat| n as int)
}

/// Counting the entries whose value is the text of `v` counts the numbers equal to `v`.
proof fn lemma_count_value_numbers(p: PropsView, ns: Seq<nat>, v: nat)
    requires
        ns.len() == p.len(),
        forall|j: int| 0 <= j < p.len() ==> #[trigger] p[j].1 == decimal(ns[j]),
    ensures
        count_value(p, decimal(v)) == count_of(nat_ints(ns), v as int),
    decreases p.len(),
{
    if p.len() > 0 {
        let p1 = p.drop_last();
        let ns1 = ns.drop_last();
        assert forall|j: int| 0 <= j < p1.len() implies #[trigger] p1[j].1 == decimal(ns1[j]) by {
            assert(p1[j] == p[j] && ns1[j] == ns[j]);
        }
        lemma_count_value_numbers(p1, ns1, v);
        assert(nat_ints(ns).drop_last() =~= nat_ints(ns1));
        assert(p.last().1 == decimal(ns.last())) by {
            assert(p[p.len() - 1] == p.last());
        }
        if ns.last() == v {
            assert(nat_ints(ns).last() == v as int);
        } else {
            if p.last().1 == decimal(v) {
                lemma_decimal_injective(ns.last(), v);
            }
            assert(nat_ints(ns).last() != v as int);
        }
    }
}

/// The largest of numbers that never go down is the last one.
proof fn lemma_seq_max_last(s: Seq<int>)
    requires
        s.len() > 0,
        forall|j: int| 0 < j < s.len() ==> s[j - 1] <= #[trigger] s[j],
    ensures
        seq_max(s) == s.last(),
    decreases s.len(),
{
    if s.len() > 1 {
        let s1 = s.drop_last();
        assert forall|j: int| 0 < j < s1.len() implies s1[j - 1] <= #[trigger] s1[j] by {
            assert(s1[j] == s[j] && s1[j - 1] == s[j - 1]);
        }
        lemma_seq_max_last(s1);
        assert(s1.last() == s[s.len() - 2]);
        assert(s[s.len() - 1] == s.last());
    }
}

/// With every key registered, `update_order_entries` gives the `max_order` that
/// `RegModsExt::max_order` gives for mods whose set load orders are the new values of
/// "loadorder", in order, when there are at least two of them.
pub proof fn update_order_max_matches_mods(p: PropsView, stable: Option<Seq<char>>, mods: Seq<RegMod>, ns: Seq<nat>)
    requires
        numbered_without_gaps(update_order_spec(p, stable, Set::empty()).0, ns),
        ns.len() >= 2,
        set_orders(mods) == nat_ints(ns),
    ensures
        max_order_spec(mods) == update_order_spec(p, stable, Set::empty()).1,
{
    let unknown = Set::<Seq<char>>::empty();
    let (kv0, vals, sk, sv) = gather(p, stable, unknown);
    let kv = sort_by_val(kv0);
    let st0 = OrdState {
        section: Seq::empty(),
        offset: if (kv.len() > 0 && kv[0].1 == 0) || sv == 0 { 0 } else { 1 },
        last_user: 0,
        stable_k: sk,
        missing: Seq::empty(),
        vals,
    };
    let sec = update_order_spec(p, stable, unknown).0;
    assert(p.len() > 0 && kv.len() > 0) by {
        if p.len() == 0 || kv.len() == 0 {
            if p.len() > 0 && sk.len() == 0 {
                assert(order_run(kv, 0, sv, unknown, st0) == st0);
            }
        }
    }
    lemma_order_run_last_user(kv, 0, sv, st0);
    let st = order_run(kv, 0, sv, unknown, st0);
    let last_user: int = if st.stable_k.len() > 0 { st.offset } else { st.last_user };
    assert(sec.last().1 == decimal(last_user as nat));
    assert(sec[sec.len() - 1] == sec.last());
    lemma_decimal_injective(ns.last(), last_user as nat);
    let s = nat_ints(ns);
    assert forall|j: int| 0 < j < s.len() implies s[j - 1] <= #[trigger] s[j] by {
        assert(ns[j] == ns[j - 1] || ns[j] == ns[j - 1] + 1);
    }
    lemma_seq_max_last(s);
    lemma_count_value_numbers(sec, ns, last_user as nat);
    assert(s.drop_last().len() + 1 == s.len());
    assert(count_of(s, s.last()) >= 1);
}

proof fn lemma_numbers_bounded(p: PropsView, ns: Seq<nat>, j: int)
    requires
        numbered_without_gaps(p, ns),
        0 <= j < ns.len(),
    ensures
        ns[j] <= j + 1,
    decreases j,
{
    if j > 0 {
        lemma_numbers_bounded(p, ns, j - 1);
        assert(ns[j] == ns[j - 1] || ns[j] == ns[j - 1] + 1);
    }
}

/// `update_order_entries` gives each entry of "loadorder" a number in range: the entry
/// at index `j` gets a number from 0 to `j + 1`, so no number is above the number of
/// entries.
pub proof fn update_order_values_in_range(p: PropsView, stable: Option<Seq<char>>, unknown: Set<Seq<char>>)
    ensures
        forall|j: int| 0 <= j < update_order_spec(p, stable, unknown).0.len() ==> exists|n: nat|
            n <= j + 1 && n <= update_order_spec(p, stable, unknown).0.len()
                && #[trigger] update_order_spec(p, stable, unknown).0[j].1 == decimal(n),
{
    let sec = update_order_spec(p, stable, unknown).0;
    update_order_no_gaps(p, stable, unknown);
    let ns = choose|ns: Seq<nat>| numbered_without_gaps(sec, ns);
    assert forall|j: int| 0 <= j < sec.len() implies exists|n: nat|
        n <= j + 1 && n <= sec.len() && #[trigger] sec[j].1 == decimal(n) by {
        lemma_numbers_bounded(sec, ns, j);
        assert(sec[j].1 == decimal(ns[j]));
    }
}

/// The keys of gathered (key, value) pairs.
pub open spec fn kv_keys(s: Seq<(Seq<char>, int)>) -> Seq<Seq<char>> {
    s.map_values(|e: (Seq<char>, int)| e.0)
}

/// The keys of entries.
pub open spec fn prop_keys(p: PropsView) -> Seq<Seq<char>> {
    p.map_values(|e: (Seq<char>, Seq<char>)| e.0)
}

/// The keys of the entries other than the example, in order.
pub open spec fn keys_but_example(p: PropsView) -> Seq<Seq<char>>
    decreases p.len(),
{
    if p.len() == 0 {
        Seq::empty()
    } else {
        let r = keys_but_example(p.drop_last());
        if p.last().0 == LOADER_EXAMPLE@ { r } else { r.push(p.last().0) }
    }
}

proof fn lemma_gather_keys(p: PropsView, u: Set<Seq<char>>)
    ensures
        kv_keys(gather(p, None, u).0) == keys_but_example(p),
        gather(p, None, u).2 == Seq::<char>::empty(),
        gather(p, None, u).3 == 69420,
    decreases p.len(),
{
    if p.len() > 0 {
        lemma_gather_keys(p.drop_last(), u);
        let kv = gather(p.drop_last(), None, u).0;
        let x = (p.last().0, entry_val(p.last().0, p.last().1, u));
        assert(kv_keys(kv.push(x)) =~= kv_keys(kv).push(x.0));
    }
}

proof fn lemma_count_le_bound(s: Seq<(Seq<char>, int)>, v: int)
    ensures
        count_le(s, v) <= s.len(),
    decreases s.len(),
{
    if s.len() > 0 && s[0].1 <= v {
        lemma_count_le_bound(s.drop_first(), v);
    }
}

proof fn lemma_insert_sorted_keys(s: Seq<(Seq<char>, int)>, x: (Seq<char>, int))
    ensures
        kv_keys(insert_sorted(s, x)).to_multiset() == kv_keys(s).to_multiset().insert(x.0),
{
    broadcast use vstd::seq_lib::lemma_multiset_commutative;
    broadcast use vstd::seq_lib::to_multiset_build;
    broadcast use vstd::multiset::group_multiset_axioms;
    lemma_count_le_bound(s, x.1);
    let i = count_le(s, x.1) as int;
    let a = kv_keys(s).subrange(0, i);
    let b = kv_keys(s).subrange(i, s.len() as int);
    assert(kv_keys(insert_sorted(s, x)) =~= a.push(x.0) + b);
    assert(a + b =~= kv_keys(s));
    assert((a.push(x.0) + b).to_multiset() =~= a.to_multiset().insert(x.0).add(b.to_multiset()));
    assert((a + b).to_multiset() =~= a.to_multiset().add(b.to_multiset()));
    assert(a.to_multiset().insert(x.0).add(b.to_multiset()) =~= a.to_multiset().add(b.to_multiset()).insert(x.0));
}

proof fn lemma_sort_keys(s: Seq<(Seq<char>, int)>)
    ensures
        kv_keys(sort_by_val(s)).to_multiset() == kv_keys(s).to_multiset(),
    decreases s.len(),
{
    broadcast use vstd::seq_lib::to_multiset_build;
    if s.len() > 0 {
        lemma_sort_keys(s.drop_last());
        lemma_insert_sorted_keys(sort_by_val(s.drop_last()), s.last());
        assert(kv_keys(s) =~= kv_keys(s.drop_last()).push(s.last().0));
    }
}

proof fn lemma_run_keys(kv: Seq<(Seq<char>, int)>, idx: int, sv: int, u: Set<Seq<char>>, st: OrdState)
    requires
        0 <= idx <= kv.len(),
        st.stable_k.len() == 0,
    ensures
        prop_keys(order_run(kv, idx, sv, u, st).section) == prop_keys(st.section) + kv_keys(kv).subrange(idx, kv.len() as int),
        order_run(kv, idx, sv, u, st).stable_k.len() == 0,
    decreases kv.len() - idx,
{
    if idx < kv.len() {
        let s1 = order_step(kv, idx, sv, u, st);
        assert(prop_keys(s1.section) =~= prop_keys(st.section).push(kv[idx].0));
        lemma_run_keys(kv, idx + 1, sv, u, s1);
        assert(prop_keys(st.section).push(kv[idx].0) + kv_keys(kv).subrange(idx + 1, kv.len() as int)
            =~= prop_keys(st.section) + kv_keys(kv).subrange(idx, kv.len() as int));
    } else {
        assert(prop_keys(st.section) + kv_keys(kv).subrange(idx, kv.len() as int) =~= prop_keys(st.section));
    }
}

/// With no key held stable, `update_order_entries` keeps every key of "loadorder" but
/// the example, each as often as before: only the values change.
pub proof fn update_order_keeps_keys(p: PropsView, unknown: Set<Seq<char>>)
    ensures
        prop_keys(update_order_spec(p, None, unknown).0).to_multiset() == keys_but_example(p).to_multiset(),
{
    if p.len() == 0 {
        assert(prop_keys(p) =~= keys_but_example(p));
    } else {
        lemma_gather_keys(p, unknown);
        let (kv0, vals, sk, sv) = gather(p, None, unknown);
        let kv = sort_by_val(kv0);
        let st0 = OrdState {
            section: Seq::empty(),
            offset: if (kv.len() > 0 && kv[0].1 == 0) || sv == 0 { 0 } else { 1 },
            last_user: 0,
            stable_k: sk,
            missing: Seq::empty(),
            vals,
        };
        lemma_run_keys(kv, 0, sv, unknown, st0);
        assert(prop_keys(st0.section) + kv_keys(kv).subrange(0, kv.len() as int) =~= kv_keys(kv));
        lemma_sort_keys(kv0);
    }
}

/// The keys of the entries other than the example and `s`, in order.
pub open spec fn keys_except(p: PropsView, s: Seq<char>) -> Seq<Seq<char>> {
    keys_but_example(p).filter(|k: Seq<char>| k != s)
}

proof fn lemma_gather_keys_stable(p: PropsView, s: Seq<char>, u: Set<Seq<char>>)
    ensures
        kv_keys(gather(p, Some(s), u).0) == keys_except(p, s),
        keys_but_example(p).contains(s) ==> gather(p, Some(s), u).2 == s,
        !keys_but_example(p).contains(s) ==> gather(p, Some(s), u).2 == Seq::<char>::empty(),
    decreases p.len(),
{
    reveal(Seq::filter);
    if p.len() > 0 {
        lemma_gather_keys_stable(p.drop_last(), s, u);
        let q = p.drop_last();
        let (k, v) = p.last();
        let kv = gather(q, Some(s), u).0;
        let kb = keys_but_example(q);
        if k != LOADER_EXAMPLE@ {
            assert(keys_but_example(p) == kb.push(k));
            assert(kb.push(k).drop_last() =~= kb);
            assert(kb.push(k).last() == k);
            assert(keys_but_example(p).contains(s) <==> (kb.contains(s) || k == s)) by {
                if kb.contains(s) {
                    let j = choose|j: int| 0 <= j < kb.len() && kb[j] == s;
                    assert(kb.push(k)[j] == s);
                }
                if k == s {
                    assert(kb.push(k)[kb.len() as int] == s);
                }
                if kb.push(k).contains(s) && k != s {
                    let j = choose|j: int| 0 <= j < kb.push(k).len() && kb.push(k)[j] == s;
                    assert(j < kb.len());
                    assert(kb[j] == s);
                }
            }
            if k != s {
                let x = (k, entry_val(k, v, u));
                assert(kv_keys(kv.push(x)) =~= kv_keys(kv).push(k));
            }
        }
    }
}

proof fn lemma_keys_except_count(p: PropsView, s: Seq<char>)
    ensures
        keys_except(p, s).to_multiset().count(s) == 0,
        forall|x: Seq<char>| x != s ==> #[trigger] keys_except(p, s).to_multiset().count(x)
            == keys_but_example(p).to_multiset().count(x),
    decreases p.len(),
{
    broadcast use vstd::seq_lib::group_to_multiset_ensures;
    broadcast use vstd::seq_lib::group_filter_ensures;
    broadcast use vstd::multiset::group_multiset_axioms;
    assert(!keys_except(p, s).contains(s));
    reveal(Seq::filter);
    if p.len() > 0 {
        lemma_keys_except_count(p.drop_last(), s);
        let q = p.drop_last();
        let k = p.last().0;
        let kb = keys_but_example(q);
        if k != LOADER_EXAMPLE@ {
            assert(keys_but_example(p) == kb.push(k));
            assert(kb.push(k).drop_last() =~= kb);
            assert(kb.push(k).last() == k);
            if k != s {
                assert(keys_except(p, s) == keys_except(q, s).push(k));
            } else {
                assert(keys_except(p, s) == keys_except(q, s));
            }
        } else {
            assert(keys_but_example(p) == kb);
            assert(keys_except(p, s) == keys_except(q, s));
        }
    } else {
        assert(keys_except(p, s) =~= Seq::<Seq<char>>::empty());
    }
}

proof fn lemma_run_keys_stable(kv: Seq<(Seq<char>, int)>, idx: int, sv: int, u: Set<Seq<char>>, st: OrdState)
    requires
        0 <= idx <= kv.len(),
    ensures
        ({
            let r = order_run(kv, idx, sv, u, st);
            &&& r.stable_k == st.stable_k || r.stable_k.len() == 0
            &&& prop_keys(r.section).to_multiset() == (prop_keys(st.section) + kv_keys(kv).subrange(idx, kv.len() as int)).to_multiset().add(
                if st.stable_k.len() > 0 && r.stable_k.len() == 0 {
                    vstd::multiset::Multiset::singleton(st.stable_k)
                } else {
                    vstd::multiset::Multiset::empty()
                })
        }),
    decreases kv.len() - idx,
{
    broadcast use vstd::seq_lib::lemma_multiset_commutative;
    broadcast use vstd::seq_lib::to_multiset_build;
    broadcast use vstd::multiset::group_multiset_axioms;
    let a = prop_keys(st.section);
    if idx < kv.len() {
        let k = kv[idx].0;
        let rest = kv_keys(kv).subrange(idx + 1, kv.len() as int);
        assert(kv_keys(kv).subrange(idx, kv.len() as int) =~= seq![k] + rest);
        let s1 = order_step(kv, idx, sv, u, st);
        let c = check_missing(st);
        assert(c.section == st.section && c.stable_k == st.stable_k);
        let fired = c.stable_k.len() > 0 && (sv == c.offset || sv == kv[idx].1);
        lemma_run_keys_stable(kv, idx + 1, sv, u, s1);
        let r = order_run(kv, idx + 1, sv, u, s1);
        assert(r == order_run(kv, idx, sv, u, st));
        if fired {
            assert(prop_keys(s1.section) =~= a.push(st.stable_k).push(k));
            assert(s1.stable_k.len() == 0);
            assert((a.push(st.stable_k).push(k) + rest).to_multiset() =~= (a + (seq![k] + rest)).to_multiset().insert(st.stable_k)) by {
                assert(a.push(st.stable_k).push(k) + rest =~= a.push(st.stable_k) + (seq![k] + rest));
                assert(a.push(st.stable_k) =~= a + seq![st.stable_k]);
                assert((a + seq![st.stable_k]) + (seq![k] + rest) =~= a + (seq![st.stable_k] + (seq![k] + rest)));
                assert(seq![st.stable_k] + (seq![k] + rest) =~= (seq![k] + rest).insert(0, st.stable_k));
            }
        } else {
            assert(prop_keys(s1.section) =~= a.push(k));
            assert(s1.stable_k == st.stable_k);
            assert(a.push(k) + rest =~= a + (seq![k] + rest));
        }
    } else {
        assert(a + kv_keys(kv).subrange(idx, kv.len() as int) =~= a);
    }
}

/// With the key `s` of "loadorder" held stable (the key whose order the user just set),
/// `update_order_entries` still keeps every key but the example: `s` once, and every other
/// key as often as before; only the values change. So where `s` occurs once, the keys are
/// exactly those of before, the example aside.
pub proof fn update_order_keeps_stable_key(p: PropsView, s: Seq<char>, unknown: Set<Seq<char>>)
    requires
        s.len() > 0,
        s != LOADER_EXAMPLE@,
        exists|j: int| 0 <= j < p.len() && #[trigger] p[j].0 == s,
    ensures
        prop_keys(update_order_spec(p, Some(s), unknown).0).to_multiset() == keys_except(p, s).to_multiset().insert(s),
        keys_but_example(p).to_multiset().count(s) == 1
            ==> prop_keys(update_order_spec(p, Some(s), unknown).0).to_multiset() == keys_but_example(p).to_multiset(),
{
    broadcast use vstd::seq_lib::lemma_multiset_commutative;
    broadcast use vstd::seq_lib::to_multiset_build;
    broadcast use vstd::multiset::group_multiset_axioms;
    lemma_keys_but_example_has(p, s);
    lemma_gather_keys_stable(p, s, unknown);
    lemma_keys_except_count(p, s);
    let (kv0, vals, sk, sv) = gather(p, Some(s), unknown);
    assert(sk == s);
    let kv = sort_by_val(kv0);
    lemma_sort_by_val(kv0);
    lemma_sort_keys(kv0);
    let out = update_order_spec(p, Some(s), unknown).0;
    if kv.len() == 0 {
        assert(kv_keys(kv0) =~= Seq::<Seq<char>>::empty());
        assert(prop_keys(out) =~= seq![s]);
        assert(prop_keys(out).to_multiset() =~= keys_except(p, s).to_multiset().insert(s));
    } else {
        let st0 = OrdState {
            section: Seq::empty(),
            offset: if (kv.len() > 0 && kv[0].1 == 0) || sv == 0 { 0 } else { 1 },
            last_user: 0,
            stable_k: sk,
            missing: Seq::empty(),
            vals,
        };
        lemma_run_keys_stable(kv, 0, sv, unknown, st0);
        let st = order_run(kv, 0, sv, unknown, st0);
        assert(prop_keys(st0.section) + kv_keys(kv).subrange(0, kv.len() as int) =~= kv_keys(kv));
        if st.stable_k.len() > 0 {
            assert(prop_keys(st.section.push((st.stable_k, decimal(st.offset as nat)))) =~= prop_keys(st.section).push(s));
        }
        assert(prop_keys(out).to_multiset() =~= keys_except(p, s).to_multiset().insert(s));
    }
    if keys_but_example(p).to_multiset().count(s) == 1 {
        assert(keys_except(p, s).to_multiset().insert(s) =~= keys_but_example(p).to_multiset());
    }
}

/// A key of the entries other than the example is among `keys_but_example`.
proof fn lemma_keys_but_example_has(p: PropsView, s: Seq<char>)
    requires
        s != LOADER_EXAMPLE@,
        exists|j: int| 0 <= j < p.len() && #[trigger] p[j].0 == s,
    ensures
        keys_but_example(p).contains(s),
    decreases p.len(),
{
    let q = p.drop_last();
    if p.last().0 == s {
        assert(keys_but_example(p) == keys_but_example(q).push(s));
        assert(keys_but_example(q).push(s)[keys_but_example(q).len() as int] == s);
    } else {
        let j = choose|j: int| 0 <= j < p.len() && #[trigger] p[j].0 == s;
        assert(j < q.len() && q[j].0 == s);
        lemma_keys_but_example_has(q, s);
        let kb = keys_but_example(q);
        let i = choose|i: int| 0 <= i < kb.len() && kb[i] == s;
        if p.last().0 != LOADER_EXAMPLE@ {
            assert(keys_but_example(p) == kb.push(p.last().0));
            assert(kb.push(p.last().0)[i] == s);
        }
    }
}

/// The entries other than the example, each with the value it is read as.
pub open spec fn read_entries(p: PropsView, unknown: Set<Seq<char>>) -> Seq<(Seq<char>, int)>
    decreases p.len(),
{
    if p.len() == 0 {
        Seq::empty()
    } else {
        let r = read_entries(p.drop_last(), unknown);
        let (k, v) = p.last();
        if k == LOADER_EXAMPLE@ { r } else { r.push((k, entry_val(k, v, unknown))) }
    }
}

/// `true` when the values never go down.
pub open spec fn sorted_by_val(s: Seq<(Seq<char>, int)>) -> bool {
    forall|i: int, j: int| 0 <= i <= j < s.len() ==> s[i].1 <= s[j].1
}

proof fn lemma_gather_entries(p: PropsView, u: Set<Seq<char>>)
    ensures
        gather(p, None, u).0 == read_entries(p, u),
    decreases p.len(),
{
    if p.len() > 0 {
        lemma_gather_entries(p.drop_last(), u);
    }
}

proof fn lemma_count_le_split(s: Seq<(Seq<char>, int)>, v: int)
    requires
        sorted_by_val(s),
    ensures
        count_le(s, v) <= s.len(),
        forall|j: int| 0 <= j < count_le(s, v) ==> s[j].1 <= v,
        count_le(s, v) < s.len() ==> s[count_le(s, v) as int].1 > v,
    decreases s.len(),
{
    if s.len() > 0 && s[0].1 <= v {
        let t = s.drop_first();
        assert(sorted_by_val(t)) by {
            assert forall|i: int, j: int| 0 <= i <= j < t.len() implies t[i].1 <= t[j].1 by {
                assert(t[i] == s[i + 1] && t[j] == s[j + 1]);
            }
        }
        lemma_count_le_split(t, v);
        assert forall|j: int| 0 <= j < count_le(s, v) implies s[j].1 <= v by {
            if j > 0 {
                assert(s[j] == t[j - 1]);
            }
        }
        if count_le(s, v) < s.len() {
            assert(s[count_le(s, v) as int] == t[count_le(t, v) as int]);
        }
    }
}

proof fn lemma_insert_sorted(s: Seq<(Seq<char>, int)>, x: (Seq<char>, int))
    requires
        sorted_by_val(s),
    ensures
        sorted_by_val(insert_sorted(s, x)),
        insert_sorted(s, x).to_multiset() == s.to_multiset().insert(x),
{
    broadcast use vstd::seq_lib::lemma_multiset_commutative;
    broadcast use vstd::seq_lib::to_multiset_build;
    broadcast use vstd::multiset::group_multiset_axioms;
    lemma_count_le_split(s, x.1);
    let i = count_le(s, x.1) as int;
    let a = s.subrange(0, i);
    let b = s.subrange(i, s.len() as int);
    let r = insert_sorted(s, x);
    assert(r =~= a.push(x) + b);
    assert forall|m: int, n: int| 0 <= m <= n < r.len() implies r[m].1 <= r[n].1 by {
        let vm = if m < i { s[m].1 } else if m == i { x.1 } else { s[m - 1].1 };
        let vn = if n < i { s[n].1 } else if n == i { x.1 } else { s[n - 1].1 };
        assert(r[m].1 == vm && r[n].1 == vn);
        if m < i && n > i {
            assert(s[i].1 > x.1);
        }
        if m == i && n > i {
            assert(s[i].1 <= s[n - 1].1);
        }
    }
    assert(a + b =~= s);
    assert((a.push(x) + b).to_multiset() =~= a.to_multiset().insert(x).add(b.to_multiset()));
    assert((a + b).to_multiset() =~= a.to_multiset().add(b.to_multiset()));
    assert(a.to_multiset().insert(x).add(b.to_multiset()) =~= a.to_multiset().add(b.to_multiset()).insert(x));
}

/// The keys of the entries of `s` whose value is `v`, in the order they come.
pub open spec fn keys_with_val(s: Seq<(Seq<char>, int)>, v: int) -> Seq<Seq<char>>
    decreases s.len(),
{
    if s.len() == 0 {
        Seq::empty()
    } else {
        let r = keys_with_val(s.drop_last(), v);
        if s.last().1 == v { r.push(s.last().0) } else { r }
    }
}

proof fn lemma_keys_with_val_concat(a: Seq<(Seq<char>, int)>, b: Seq<(Seq<char>, int)>, v: int)
    ensures
        keys_with_val(a + b, v) == keys_with_val(a, v) + keys_with_val(b, v),
    decreases b.len(),
{
    if b.len() == 0 {
        assert(a + b =~= a);
        assert(keys_with_val(a, v) + keys_with_val(b, v) =~= keys_with_val(a, v));
    } else {
        lemma_keys_with_val_concat(a, b.drop_last(), v);
        assert((a + b).drop_last() =~= a + b.drop_last());
        assert((a + b).last() == b.last());
        if b.last().1 == v {
            assert(keys_with_val(a, v) + keys_with_val(b.drop_last(), v).push(b.last().0)
                =~= (keys_with_val(a, v) + keys_with_val(b.drop_last(), v)).push(b.last().0));
        }
    }
}

proof fn lemma_keys_with_val_above(b: Seq<(Seq<char>, int)>, v: int)
    requires
        forall|j: int| 0 <= j < b.len() ==> #[trigger] b[j].1 > v,
    ensures
        keys_with_val(b, v) == Seq::<Seq<char>>::empty(),
    decreases b.len(),
{
    if b.len() > 0 {
        assert forall|j: int| 0 <= j < b.drop_last().len() implies #[trigger] b.drop_last()[j].1 > v by {
            assert(b.drop_last()[j] == b[j]);
        }
        lemma_keys_with_val_above(b.drop_last(), v);
        assert(b.last() == b[b.len() - 1]);
    }
}

proof fn lemma_insert_sorted_stable(s: Seq<(Seq<char>, int)>, x: (Seq<char>, int), v: int)
    requires
        sorted_by_val(s),
    ensures
        keys_with_val(insert_sorted(s, x), v) == keys_with_val(s.push(x), v),
{
    lemma_count_le_split(s, x.1);
    let i = count_le(s, x.1) as int;
    let a = s.subrange(0, i);
    let b = s.subrange(i, s.len() as int);
    assert(insert_sorted(s, x) =~= a.push(x) + b);
    assert(a + b =~= s);
    lemma_keys_with_val_concat(a.push(x), b, v);
    lemma_keys_with_val_concat(a, b, v);
    assert(a.push(x).drop_last() =~= a);
    assert(s.push(x).drop_last() =~= s);
    if x.1 == v {
        assert forall|j: int| 0 <= j < b.len() implies #[trigger] b[j].1 > v by {
            assert(b[j] == s[i + j]);
            assert(s[i].1 <= s[i + j].1);
        }
        lemma_keys_with_val_above(b, v);
        assert(keys_with_val(a, v).push(x.0) + keys_with_val(b, v) =~= keys_with_val(a, v).push(x.0));
        assert(keys_with_val(a, v) + keys_with_val(b, v) =~= keys_with_val(a, v));
    }
}

/// Sorting by value keeps the order of entries with equal values.
proof fn lemma_sort_by_val_stable(s: Seq<(Seq<char>, int)>, v: int)
    ensures
        keys_with_val(sort_by_val(s), v) == keys_with_val(s, v),
    decreases s.len(),
{
    if s.len() > 0 {
        lemma_sort_by_val(s.drop_last());
        lemma_sort_by_val_stable(s.drop_last(), v);
        lemma_insert_sorted_stable(sort_by_val(s.drop_last()), s.last(), v);
        let t = sort_by_val(s.drop_last());
        assert(t.push(s.last()).drop_last() =~= t);
        assert(s.drop_last().push(s.last()) =~= s);
    }
}

proof fn lemma_sort_by_val(s: Seq<(Seq<char>, int)>)
    ensures
        sorted_by_val(sort_by_val(s)),
        sort_by_val(s).to_multiset() == s.to_multiset(),
        sort_by_val(s).len() == s.len(),
    decreases s.len(),
{
    broadcast use vstd::seq_lib::to_multiset_build;
    broadcast use vstd::seq_lib::to_multiset_len;
    if s.len() > 0 {
        lemma_sort_by_val(s.drop_last());
        lemma_insert_sorted(sort_by_val(s.drop_last()), s.last());
        assert(s =~= s.drop_last().push(s.last()));
        lemma_count_le_bound(sort_by_val(s.drop_last()), s.last().1);
    }
}

/// The numbers from 1 to `h` that are not among `olds`, in ascending order.
pub open spec fn missing_upto(h: int, olds: Set<int>) -> Seq<int>
    decreases h,
{
    if h <= 0 {
        Seq::empty()
    } else {
        let r = missing_upto(h - 1, olds);
        if olds.contains(h) { r } else { r.push(h) }
    }
}

/// What holds of the renumbering while it runs, with no key held stable and none
/// unknown: the entries written so far carry the keys of `kv` in order, numbered from
/// the first value (0 when the lowest old value is 0, else 1), one more at each rise of
/// the old value; the next number is at most the next old value.
spec fn renumber_inv(kv: Seq<(Seq<char>, int)>, idx: int, st: OrdState, ns: Seq<nat>, olds: Set<int>) -> bool {
    &&& st.stable_k.len() == 0
    &&& st.missing == missing_upto(if idx == 0 { 0 } else { ns[idx - 1] as int }, olds)
    &&& st.vals == olds.union(Set::new(|o: int| 1 <= o <= if idx == 0 { 0 } else { ns[idx - 1] as int }))
    &&& ns.len() == idx == st.section.len()
    &&& forall|j: int| 0 <= j < idx ==> st.section[j] == (kv[j].0, decimal(#[trigger] ns[j]))
    &&& idx > 0 ==> ns[0] == (if kv[0].1 == 0 { 0nat } else { 1nat })
    &&& forall|j: int| 0 < j < idx ==> #[trigger] ns[j] == ns[j - 1] + (if kv[j].1 != kv[j - 1].1 { 1nat } else { 0nat })
    &&& idx < kv.len() ==> 0 <= st.offset <= kv[idx].1
    &&& idx == 0 ==> st.offset == (if kv.len() > 0 && kv[0].1 == 0 { 0int } else { 1int })
    &&& 0 < idx < kv.len() ==> st.offset == ns[idx - 1] + (if kv[idx].1 != kv[idx - 1].1 { 1int } else { 0int })
}

proof fn lemma_renumber_run(kv: Seq<(Seq<char>, int)>, idx: int, sv: int, st: OrdState, ns: Seq<nat>, olds: Set<int>) -> (ns2: Seq<nat>)
    requires
        0 <= idx <= kv.len(),
        sorted_by_val(kv),
        forall|j: int| 0 <= j < kv.len() ==> kv[j].1 >= 0,
        renumber_inv(kv, idx, st, ns, olds),
    ensures
        renumber_inv(kv, kv.len() as int, order_run(kv, idx, sv, Set::empty(), st), ns2, olds),
    decreases kv.len() - idx,
{
    if idx >= kv.len() {
        ns
    } else {
        let s1 = order_step(kv, idx, sv, Set::empty(), st);
        let ns1 = ns.push(st.offset as nat);
        assert(s1.section == st.section.push((kv[idx].0, decimal(st.offset as nat))));
        if idx + 1 < kv.len() {
            assert(kv[idx].1 <= kv[idx + 1].1);
        }
        let h = if idx == 0 { 0 } else { ns[idx - 1] as int };
        let o = st.offset;
        let rng = |h: int| Set::new(|x: int| 1 <= x <= h);
        let c = check_missing(st);
        if o == h || o <= 0 {
            if o > 0 {
                assert(rng(h).contains(o));
            }
            assert(c == st);
            assert(o == h) by {
                if idx == 0 {
                    assert(o == 0 || o == 1);
                }
            }
        } else {
            assert(o == h + 1);
            assert(st.vals.contains(o) == olds.contains(o));
            assert(olds.union(rng(h + 1)) =~= if olds.contains(o) { st.vals } else { st.vals.insert(o) });
        }
        assert(s1.missing == c.missing && s1.vals == c.vals);
        assert(renumber_inv(kv, idx + 1, s1, ns1, olds)) by {
            assert forall|j: int| 0 <= j < idx + 1 implies s1.section[j] == (kv[j].0, decimal(#[trigger] ns1[j])) by {
                if j < idx {
                    assert(ns1[j] == ns[j]);
                }
            }
            assert forall|j: int| 0 < j < idx + 1 implies #[trigger] ns1[j] == ns1[j - 1] + (if kv[j].1 != kv[j - 1].1 { 1nat } else { 0nat }) by {
                if j < idx {
                    assert(ns1[j] == ns[j] && ns1[j - 1] == ns[j - 1]);
                } else {
                    assert(ns1[j - 1] == ns[j - 1]);
                }
            }
        }
        lemma_renumber_run(kv, idx + 1, sv, s1, ns1, olds)
    }
}

/// The values a list of read entries holds.
pub open spec fn old_values(r: Seq<(Seq<char>, int)>) -> Set<int> {
    r.map_values(|e: (Seq<char>, int)| e.1).to_set()
}

proof fn lemma_gather_vals(p: PropsView, u: Set<Seq<char>>)
    ensures
        gather(p, None, u).1 == old_values(read_entries(p, u)),
    decreases p.len(),
{
    if p.len() == 0 {
        assert(old_values(read_entries(p, u)) =~= Set::<int>::empty());
    } else {
        lemma_gather_vals(p.drop_last(), u);
        let r = read_entries(p.drop_last(), u);
        let (k, v) = p.last();
        if k != LOADER_EXAMPLE@ {
            let x = (k, entry_val(k, v, u));
            assert(r.push(x).map_values(|e: (Seq<char>, int)| e.1) =~= r.map_values(|e: (Seq<char>, int)| e.1).push(x.1));
            r.map_values(|e: (Seq<char>, int)| e.1).lemma_push_to_set_commute(x.1);
        }
    }
}

proof fn lemma_gather_disjoint(p: PropsView, u: Set<Seq<char>>)
    requires
        forall|j: int| 0 <= j < p.len() ==> !u.contains(#[trigger] p[j].0),
    ensures
        gather(p, None, u) == gather(p, None, Set::empty()),
        read_entries(p, u) == read_entries(p, Set::empty()),
    decreases p.len(),
{
    if p.len() > 0 {
        assert forall|j: int| 0 <= j < p.drop_last().len() implies !u.contains(#[trigger] p.drop_last()[j].0) by {
            assert(p.drop_last()[j] == p[j]);
        }
        lemma_gather_disjoint(p.drop_last(), u);
        assert(p[p.len() - 1] == p.last());
    }
}

proof fn lemma_run_disjoint(kv: Seq<(Seq<char>, int)>, idx: int, sv: int, u: Set<Seq<char>>, st: OrdState)
    requires
        0 <= idx,
        forall|j: int| 0 <= j < kv.len() ==> !u.contains(#[trigger] kv[j].0),
    ensures
        order_run(kv, idx, sv, u, st) == order_run(kv, idx, sv, Set::empty(), st),
    decreases kv.len() - idx,
{
    if idx < kv.len() {
        assert(!u.contains(kv[idx].0));
        assert(order_step(kv, idx, sv, u, st) == order_step(kv, idx, sv, Set::empty(), st));
        lemma_run_disjoint(kv, idx + 1, sv, u, order_step(kv, idx, sv, Set::empty(), st));
    }
}

/// With no key held stable and no unknown key among the entries, `update_order_entries`
/// renumbers the entries of "loadorder" other than the example: they come out as
/// `olds`, their keys with the values they are read as, ordered by those values, lowest
/// first, entries of equal value in the order they were read; the first is numbered 0 when its old value is
/// 0 and 1 otherwise, and each next one gets the number before it, plus one when its old
/// value is higher. With `m` the highest new number, `max_order` is `(m, false)` when one
/// entry has it and `(m + 1, true)` otherwise, and the missing values are the numbers
/// from 1 to `m` that are no old value, in ascending order (`None` when there are none).
pub proof fn update_order_renumbers(p: PropsView, unknown: Set<Seq<char>>)
    requires
        forall|j: int| 0 <= j < p.len() ==> !unknown.contains(#[trigger] p[j].0),
    ensures
        ({
            let (sec, max_order, missing) = update_order_spec(p, None, unknown);
            let olds = sort_by_val(read_entries(p, unknown));
            let vals = old_values(read_entries(p, unknown));
            &&& olds.to_multiset() == read_entries(p, unknown).to_multiset()
            &&& sorted_by_val(olds)
            &&& forall|v: int| #[trigger] keys_with_val(olds, v) == keys_with_val(read_entries(p, unknown), v)
            &&& sec.len() == olds.len()
            &&& exists|ns: Seq<nat>| {
                &&& ns.len() == sec.len()
                &&& forall|j: int| 0 <= j < sec.len() ==> sec[j] == (olds[j].0, decimal(#[trigger] ns[j]))
                &&& sec.len() > 0 ==> ns[0] == (if olds[0].1 == 0 { 0nat } else { 1nat })
                &&& forall|j: int| 0 < j < sec.len() ==> #[trigger] ns[j] == ns[j - 1] + (if olds[j].1 != olds[j - 1].1 { 1nat } else { 0nat })
                &&& sec.len() > 0 ==> max_order == (if count_of(nat_ints(ns), ns.last() as int) <= 1 {
                    (ns.last() as int, false)
                } else {
                    (ns.last() as int + 1, true)
                })
                &&& missing == ({
                    let ms = missing_upto(if sec.len() == 0 { 0 } else { ns.last() as int }, vals);
                    if ms.len() > 0 { Some(ms) } else { None }
                })
            }
        }),
{
    let u = Set::<Seq<char>>::empty();
    lemma_gather_disjoint(p, unknown);
    lemma_gather_entries(p, u);
    lemma_gather_keys(p, u);
    lemma_gather_vals(p, u);
    let kv0 = read_entries(p, u);
    let olds = sort_by_val(kv0);
    lemma_sort_by_val(kv0);
    assert forall|v: int| #[trigger] keys_with_val(olds, v) == keys_with_val(kv0, v) by {
        lemma_sort_by_val_stable(kv0, v);
    }
    let vals = old_values(kv0);
    if p.len() == 0 {
        let ns: Seq<nat> = Seq::empty();
        assert(read_entries(p, u) =~= Seq::<(Seq<char>, int)>::empty());
        assert(missing_upto(0, vals) =~= Seq::<int>::empty());
        assert(ns.len() == update_order_spec(p, None, unknown).0.len());
    } else {
        let (g0, gvals, sk, sv) = gather(p, None, u);
        let st0 = OrdState {
            section: Seq::empty(),
            offset: if (olds.len() > 0 && olds[0].1 == 0) || sv == 0 { 0 } else { 1 },
            last_user: 0,
            stable_k: sk,
            missing: Seq::empty(),
            vals: gvals,
        };
        assert forall|j: int| 0 <= j < olds.len() implies olds[j].1 >= 0 by {
            assert(olds.to_multiset().count(olds[j]) > 0) by {
                broadcast use vstd::seq_lib::to_multiset_contains;
                assert(olds.contains(olds[j]));
            }
            lemma_read_entries_nonneg(p, u);
            assert(kv0.to_multiset().count(olds[j]) > 0);
            broadcast use vstd::seq_lib::to_multiset_contains;
            assert(kv0.contains(olds[j]));
        }
        assert forall|j: int| 0 <= j < olds.len() implies !unknown.contains(#[trigger] olds[j].0) by {
            lemma_sort_keys(kv0);
            broadcast use vstd::seq_lib::to_multiset_contains;
            assert(kv_keys(olds)[j] == olds[j].0);
            assert(kv_keys(olds).contains(olds[j].0));
            assert(kv_keys(kv0).to_multiset().count(olds[j].0) > 0);
            assert(kv_keys(kv0).contains(olds[j].0));
            let i = choose|i: int| 0 <= i < kv_keys(kv0).len() && kv_keys(kv0)[i] == olds[j].0;
            assert(keys_but_example(p)[i] == olds[j].0);
            lemma_keys_from_entries(p, i);
        }
        lemma_run_disjoint(olds, 0, sv, unknown, st0);
        assert(sv == 69420);
        let ns0: Seq<nat> = Seq::empty();
        assert(st0.vals =~= vals.union(Set::new(|o: int| 1 <= o <= 0)));
        assert(missing_upto(0, vals) =~= Seq::<int>::empty());
        assert(renumber_inv(olds, 0, st0, ns0, vals));
        let ns = lemma_renumber_run(olds, 0, sv, st0, ns0, vals);
        let st = order_run(olds, 0, sv, u, st0);
        assert(st.stable_k.len() == 0);
        let sec = st.section;
        if olds.len() > 0 {
            lemma_order_run_last_user(olds, 0, sv, st0);
            assert(sec[sec.len() - 1] == sec.last());
            lemma_decimal_injective(ns.last(), st.last_user as nat);
            lemma_count_value_numbers(sec, ns, ns.last());
        }
        assert(update_order_spec(p, None, u).0 == sec);
    }
}

/// Every key in `keys_but_example(p)` is the key of an entry of `p`.
proof fn lemma_keys_from_entries(p: PropsView, i: int)
    requires
        0 <= i < keys_but_example(p).len(),
    ensures
        exists|j: int| 0 <= j < p.len() && #[trigger] p[j].0 == keys_but_example(p)[i],
    decreases p.len(),
{
    let r = keys_but_example(p.drop_last());
    if i < r.len() {
        lemma_keys_from_entries(p.drop_last(), i);
        let j = choose|j: int| 0 <= j < p.drop_last().len() && #[trigger] p.drop_last()[j].0 == r[i];
        assert(p[j] == p.drop_last()[j]);
    } else {
        assert(p[p.len() - 1] == p.last());
    }
}

proof fn lemma_read_entries_nonneg(p: PropsView, u: Set<Seq<char>>)
    ensures
        forall|j: int| 0 <= j < read_entries(p, u).len() ==> read_entries(p, u)[j].1 >= 0,
    decreases p.len(),
{
    if p.len() > 0 {
        lemma_read_entries_nonneg(p.drop_last(), u);
        let r = read_entries(p.drop_last(), u);
        let (k, v) = p.last();
        if k != LOADER_EXAMPLE@ {
            assert forall|j: int| 0 <= j < r.push((k, entry_val(k, v, u))).len() implies r.push((k, entry_val(k, v, u)))[j].1 >= 0 by {
                if j < r.len() {
                    assert(r.push((k, entry_val(k, v, u)))[j] == r[j]);
                }
            }
        }
    }
}

/// `parse_section` leaves "loadorder" in order: empty, already sound, or given a new
/// order without gaps.
pub proof fn parse_section_leaves_order(p: PropsView, unknown: Set<Seq<char>>)
    ensures
        ({
            let e = parse_section_spec(p, unknown).0;
            e.len() == 0 || order_is_sound(e) || no_gaps(e)
        }),
{
    let had_example = props_has(p, LOADER_EXAMPLE@);
    let p1 = if had_example { props_without(p, LOADER_EXAMPLE@) } else { p };
    if !(p1.len() == 0 || order_is_sound(p1)) {
        update_order_no_gaps(p1, None, unknown);
    }
}

/// `true` when no key occurs twice among the entries.
pub open spec fn keys_distinct(p: PropsView) -> bool {
    forall|i: int, j: int| 0 <= i < j < p.len() ==> p[i].0 != p[j].0
}

/// `true` when `m` gives some key the value `v`.
pub open spec fn has_value(m: Map<Seq<char>, usize>, v: int) -> bool {
    exists|k: Seq<char>| m.contains_key(k) && #[trigger] m[k] == v
}

/// `true` when `v` is among `ns`.
pub open spec fn seq_has(ns: Seq<int>, v: int) -> bool {
    exists|i: int| 0 <= i < ns.len() && #[trigger] ns[i] == v
}

/// `true` when the values `m` gives its keys are exactly the numbers from `b` to `t`.
pub open spec fn values_span(m: Map<Seq<char>, usize>, b: int, t: int) -> bool {
    forall|v: int| #[trigger] has_value(m, v) <==> b <= v <= t
}

/// With no key twice, `parse_into_map` gives each key whose value is a number that
/// number, and no other key.
proof fn lemma_map_of_distinct(p: PropsView)
    requires
        keys_distinct(p),
    ensures
        forall|k: Seq<char>| #[trigger] order_map_spec(p).contains_key(k) ==> exists|j: int| 0 <= j < p.len() && p[j].0 == k
            && parse_unsigned(p[j].1, usize::MAX as nat) == Some(order_map_spec(p)[k] as nat),
        forall|j: int| 0 <= j < p.len() ==> (order_map_spec(p).contains_key(#[trigger] p[j].0)
            <==> parse_unsigned(p[j].1, usize::MAX as nat) is Some),
        forall|j: int| 0 <= j < p.len() && parse_unsigned(p[j].1, usize::MAX as nat) is Some
            ==> order_map_spec(p)[#[trigger] p[j].0] as nat == parse_unsigned(p[j].1, usize::MAX as nat)->0,
    decreases p.len(),
{
    if p.len() > 0 {
        let p1 = p.drop_last();
        assert(keys_distinct(p1)) by {
            assert forall|i: int, j: int| 0 <= i < j < p1.len() implies p1[i].0 != p1[j].0 by {
                assert(p1[i] == p[i] && p1[j] == p[j]);
            }
        }
        lemma_map_of_distinct(p1);
        let last = p.len() - 1;
        assert(p[last] == p.last());
        assert forall|j: int| 0 <= j < p1.len() implies p1[j].0 != p.last().0 by {
            assert(p1[j] == p[j]);
        }
        let m1 = order_map_spec(p1);
        assert forall|k: Seq<char>| #[trigger] order_map_spec(p).contains_key(k) implies exists|j: int| 0 <= j < p.len() && p[j].0 == k
            && parse_unsigned(p[j].1, usize::MAX as nat) == Some(order_map_spec(p)[k] as nat) by {
            if k == p.last().0 {
                assert(p[last].0 == k);
            } else {
                assert(m1.contains_key(k));
                let j = choose|j: int| 0 <= j < p1.len() && p1[j].0 == k && parse_unsigned(p1[j].1, usize::MAX as nat) == Some(m1[k] as nat);
                assert(p[j] == p1[j]);
            }
        }
        assert forall|j: int| 0 <= j < p.len() implies (order_map_spec(p).contains_key(#[trigger] p[j].0)
            <==> parse_unsigned(p[j].1, usize::MAX as nat) is Some) by {
            if j < last {
                assert(p[j] == p1[j]);
            }
        }
        assert forall|j: int| 0 <= j < p.len() && parse_unsigned(p[j].1, usize::MAX as nat) is Some
            implies order_map_spec(p)[#[trigger] p[j].0] as nat == parse_unsigned(p[j].1, usize::MAX as nat)->0 by {
            if j < last {
                assert(p[j] == p1[j]);
            }
        }
    }
}

/// Numbers that go up by at most one at each step take every value from the first to
/// the last, and no other.
proof fn lemma_steps_span(ns: Seq<int>)
    requires
        ns.len() > 0,
        forall|i: int| 0 < i < ns.len() ==> #[trigger] ns[i] == ns[i - 1] || ns[i] == ns[i - 1] + 1,
    ensures
        forall|v: int| #[trigger] seq_has(ns, v) <==> ns[0] <= v <= ns.last(),
    decreases ns.len(),
{
    if ns.len() > 1 {
        let n1 = ns.drop_last();
        assert forall|i: int| 0 < i < n1.len() implies #[trigger] n1[i] == n1[i - 1] || n1[i] == n1[i - 1] + 1 by {
            assert(n1[i] == ns[i] && n1[i - 1] == ns[i - 1]);
        }
        lemma_steps_span(n1);
        assert(ns[ns.len() - 1] == ns.last());
        assert(n1.last() == ns[ns.len() - 2]);
        assert(seq_has(n1, n1.last())) by {
            assert(n1[n1.len() - 1] == n1.last());
        }
        assert(n1[0] == ns[0]);
        assert forall|v: int| #[trigger] seq_has(ns, v) <==> ns[0] <= v <= ns.last() by {
            if seq_has(ns, v) {
                let i = choose|i: int| 0 <= i < ns.len() && #[trigger] ns[i] == v;
                if i < n1.len() {
                    assert(n1[i] == v);
                    assert(seq_has(n1, v));
                }
            }
            if ns[0] <= v <= ns.last() {
                if v <= n1.last() {
                    assert(n1[0] == ns[0]);
                    assert(seq_has(n1, v));
                    let i = choose|i: int| 0 <= i < n1.len() && #[trigger] n1[i] == v;
                    assert(ns[i] == v);
                } else {
                    assert(ns[ns.len() - 1] == v);
                }
            }
        }
    }
}

/// The sorted values that `in_order_from` accepts go up by at most one at each step, from
/// `count` or `count + 1`.
proof fn lemma_in_order_steps(s: Seq<(Seq<char>, int)>, j: int, count: int)
    requires
        0 <= j < s.len(),
        in_order_from(s, j, count),
    ensures
        s[j].1 == count || s[j].1 == count + 1,
        forall|i: int| j < i < s.len() ==> #[trigger] s[i].1 == s[i - 1].1 || s[i].1 == s[i - 1].1 + 1,
    decreases s.len() - j,
{
    if j + 1 < s.len() {
        lemma_in_order_steps(s, j + 1, if s[j].1 == count { count } else { count + 1 });
    }
}

proof fn lemma_distinct_key_count(p: PropsView)
    requires
        keys_distinct(p),
    ensures
        key_count(p) == p.len(),
    decreases p.len(),
{
    if p.len() > 0 {
        let p1 = p.drop_last();
        assert(keys_distinct(p1)) by {
            assert forall|i: int, j: int| 0 <= i < j < p1.len() implies p1[i].0 != p1[j].0 by {
                assert(p1[i] == p[i] && p1[j] == p[j]);
            }
        }
        lemma_distinct_key_count(p1);
        if props_has(p1, p.last().0) {
            let i = choose|i: int| 0 <= i < p1.len() && #[trigger] p1[i].0 == p.last().0;
            assert(p[i] == p1[i]);
            assert(p[p.len() - 1] == p.last());
        }
    }
}

/// Taking out a key keeps the other keys distinct.
proof fn lemma_without_distinct(p: PropsView, k: Seq<char>)
    requires
        keys_distinct(p),
    ensures
        keys_distinct(props_without(p, k)),
    decreases p.len(),
{
    reveal_with_fuel(Seq::filter, 1);
    if p.len() > 0 {
        let p1 = p.drop_last();
        assert(keys_distinct(p1)) by {
            assert forall|i: int, j: int| 0 <= i < j < p1.len() implies p1[i].0 != p1[j].0 by {
                assert(p1[i] == p[i] && p1[j] == p[j]);
            }
        }
        lemma_without_distinct(p1, k);
        let w0 = props_without(p1, k);
        if p.last().0 != k {
            assert(props_without(p, k) == w0.push(p.last()));
            crate::ini_store::lemma_without_from(p1, k);
            assert forall|i: int, j: int| 0 <= i < j < w0.push(p.last()).len() implies w0.push(p.last())[i].0 != w0.push(p.last())[j].0 by {
                if j == w0.len() {
                    assert(w0.push(p.last())[i] == w0[i]);
                    assert(p1.contains(w0[i]));
                    let q = choose|q: int| 0 <= q < p1.len() && p1[q] == w0[i];
                    assert(p[q] == p1[q]);
                    assert(p[p.len() - 1] == p.last());
                } else {
                    assert(w0.push(p.last())[i] == w0[i] && w0.push(p.last())[j] == w0[j]);
                }
            }
        } else {
            assert(props_without(p, k) == w0);
        }
    }
}

proof fn lemma_keys_but_example_plain(p: PropsView)
    requires
        !props_has(p, LOADER_EXAMPLE@),
    ensures
        keys_but_example(p) == prop_keys(p),
    decreases p.len(),
{
    if p.len() > 0 {
        assert(!props_has(p.drop_last(), LOADER_EXAMPLE@)) by {
            if props_has(p.drop_last(), LOADER_EXAMPLE@) {
                let i = choose|i: int| 0 <= i < p.drop_last().len() && #[trigger] p.drop_last()[i].0 == LOADER_EXAMPLE@;
                assert(p[i] == p.drop_last()[i]);
            }
        }
        lemma_keys_but_example_plain(p.drop_last());
        assert(p[p.len() - 1] == p.last());
        assert(prop_keys(p) =~= prop_keys(p.drop_last()).push(p.last().0));
    }
}

/// The map of entries with no key twice that `parse_section` finds in order: every key
/// with a number, and the values exactly the numbers from the lowest (0, 1 or 2) to the
/// highest.
proof fn lemma_sound_section(p1: PropsView)
    requires
        keys_distinct(p1),
        p1.len() > 0,
        order_is_sound(p1),
    ensures
        order_map_spec(p1).dom() == prop_keys(p1).to_set(),
        order_map_spec(p1).dom().len() == key_count(p1),
        exists|b: int, t: int| 0 <= b <= 2 && values_span(order_map_spec(p1), b, t),
{
    lemma_map_of_distinct(p1);
    lemma_distinct_key_count(p1);
    let m = order_map_spec(p1);
    let ks = prop_keys(p1);
    assert(ks.no_duplicates()) by {
        assert forall|i: int, j: int| 0 <= i < ks.len() && 0 <= j < ks.len() && i != j implies ks[i] != ks[j] by {
            if i < j { assert(p1[i].0 != p1[j].0); } else { assert(p1[j].0 != p1[i].0); }
        }
    }
    ks.unique_seq_to_set();
    assert(m.dom().subset_of(ks.to_set())) by {
        assert forall|k: Seq<char>| m.dom().contains(k) implies ks.to_set().contains(k) by {
            let j = choose|j: int| 0 <= j < p1.len() && p1[j].0 == k
                && parse_unsigned(p1[j].1, usize::MAX as nat) == Some(m[k] as nat);
            assert(ks[j] == k);
        }
    }
    vstd::set_lib::lemma_len_subset(m.dom(), ks.to_set());
    assert(m.dom() =~= ks.to_set()) by {
        assert forall|k: Seq<char>| ks.to_set().contains(k) implies m.dom().contains(k) by {
            if !m.dom().contains(k) {
                assert(m.dom().subset_of(ks.to_set().remove(k)));
                vstd::set_lib::lemma_len_subset(m.dom(), ks.to_set().remove(k));
            }
        }
    }
    assert forall|j: int| 0 <= j < p1.len() implies m.contains_key(#[trigger] p1[j].0) by {
        assert(ks[j] == p1[j].0);
        assert(ks.to_set().contains(ks[j]));
    }
    let mv = mapped_values(p1, m);
    lemma_mapped_all(p1, m);
    let srt = sort_by_val(mv);
    lemma_sort_by_val(mv);
    let c = if srt[0].1 == 0 { 0int } else { 1int };
    lemma_in_order_steps(srt, 0, c);
    let vs = srt.map_values(|x: (Seq<char>, int)| x.1);
    assert forall|i: int| 0 < i < vs.len() implies #[trigger] vs[i] == vs[i - 1] || vs[i] == vs[i - 1] + 1 by {
        assert(vs[i] == srt[i].1 && vs[i - 1] == srt[i - 1].1);
    }
    lemma_steps_span(vs);
    assert(values_span(m, vs[0], vs.last())) by {
        broadcast use vstd::seq_lib::to_multiset_contains;
        assert forall|v: int| #[trigger] has_value(m, v) <==> vs[0] <= v <= vs.last() by {
            if has_value(m, v) {
                let k = choose|k: Seq<char>| m.contains_key(k) && #[trigger] m[k] == v;
                let j = choose|j: int| 0 <= j < p1.len() && p1[j].0 == k
                    && parse_unsigned(p1[j].1, usize::MAX as nat) == Some(m[k] as nat);
                assert(mv[j] == (k, v));
                assert(mv.contains(mv[j]));
                assert(mv.to_multiset().count(mv[j]) > 0);
                assert(srt.contains(mv[j]));
                let i = choose|i: int| 0 <= i < srt.len() && srt[i] == mv[j];
                assert(vs[i] == v);
                assert(seq_has(vs, v));
            }
            if vs[0] <= v <= vs.last() {
                assert(seq_has(vs, v));
                let i = choose|i: int| 0 <= i < vs.len() && #[trigger] vs[i] == v;
                assert(srt.contains(srt[i]));
                assert(srt.to_multiset().count(srt[i]) > 0);
                assert(mv.contains(srt[i]));
                let j = choose|j: int| 0 <= j < mv.len() && mv[j] == srt[i];
                assert(m.contains_key(p1[j].0) && m[p1[j].0] == v);
                assert(has_value(m, v));
            }
        }
    }
    assert(vs[0] == srt[0].1);
    assert(0 <= vs[0] <= 2);
}

/// The map of entries with no key twice, without the example, that `update_order_entries`
/// numbers anew: no example, every key with a number, and the values exactly the numbers
/// from 0 or 1 to the highest.
proof fn lemma_renumbered_section(p1: PropsView, unknown: Set<Seq<char>>)
    requires
        keys_distinct(p1),
        !props_has(p1, LOADER_EXAMPLE@),
        p1.len() <= usize::MAX / 8,
    ensures
        ({
            let e = update_order_spec(p1, None, unknown).0;
            let m = order_map_spec(e);
            &&& !props_has(e, LOADER_EXAMPLE@)
            &&& m.dom() == prop_keys(e).to_set()
            &&& m.dom().len() == key_count(e)
            &&& e.len() > 0 ==> exists|b: int, t: int| 0 <= b <= 1 && values_span(m, b, t)
        }),
{
    let e = update_order_spec(p1, None, unknown).0;
    update_order_no_gaps(p1, None, unknown);
    update_order_keeps_keys(p1, unknown);
    lemma_keys_but_example_plain(p1);
    let ns = choose|ns: Seq<nat>| numbered_without_gaps(e, ns);
    let ks = prop_keys(p1);
    assert(ks.no_duplicates()) by {
        assert forall|i: int, j: int| 0 <= i < ks.len() && 0 <= j < ks.len() && i != j implies ks[i] != ks[j] by {
            if i < j { assert(p1[i].0 != p1[j].0); } else { assert(p1[j].0 != p1[i].0); }
        }
    }
    ks.lemma_multiset_has_no_duplicates();
    prop_keys(e).lemma_multiset_has_no_duplicates_conv();
    assert(keys_distinct(e)) by {
        assert forall|i: int, j: int| 0 <= i < j < e.len() implies e[i].0 != e[j].0 by {
            assert(prop_keys(e)[i] == e[i].0 && prop_keys(e)[j] == e[j].0);
        }
    }
    assert(!props_has(e, LOADER_EXAMPLE@)) by {
        broadcast use vstd::seq_lib::to_multiset_contains;
        if props_has(e, LOADER_EXAMPLE@) {
            let i = choose|i: int| 0 <= i < e.len() && #[trigger] e[i].0 == LOADER_EXAMPLE@;
            assert(prop_keys(e)[i] == LOADER_EXAMPLE@);
            assert(prop_keys(e).contains(LOADER_EXAMPLE@));
            assert(ks.to_multiset().count(LOADER_EXAMPLE@) > 0);
            let q = choose|q: int| 0 <= q < ks.len() && ks[q] == LOADER_EXAMPLE@;
            assert(p1[q].0 == LOADER_EXAMPLE@);
        }
    }
    assert(e.len() == p1.len()) by {
        vstd::seq_lib::to_multiset_len(prop_keys(e));
        vstd::seq_lib::to_multiset_len(ks);
        assert(prop_keys(e).len() == e.len());
        assert(ks.len() == p1.len());
    }
    lemma_numbered_map(e, ns, p1.len() as int);
}

/// Entries with no key twice, numbered without gaps: every key has its number in the
/// map, and the values are exactly the numbers from the first (0 or 1) to the last.
proof fn lemma_numbered_map(e: PropsView, ns: Seq<nat>, bound: int)
    requires
        keys_distinct(e),
        numbered_without_gaps(e, ns),
        e.len() <= bound <= usize::MAX / 8,
    ensures
        order_map_spec(e).dom() == prop_keys(e).to_set(),
        order_map_spec(e).dom().len() == key_count(e),
        e.len() > 0 ==> exists|b: int, t: int| 0 <= b <= 1 && values_span(order_map_spec(e), b, t),
{
    assert forall|j: int| 0 <= j < e.len() implies parse_unsigned(#[trigger] e[j].1, usize::MAX as nat) == Some(ns[j]) by {
        lemma_numbers_bounded(e, ns, j);
        decimal_reads_back(ns[j], usize::MAX as nat);
    }
    lemma_map_of_distinct(e);
    lemma_distinct_key_count(e);
    let m = order_map_spec(e);
    let ke = prop_keys(e);
    assert(m.dom() =~= ke.to_set()) by {
        assert forall|k: Seq<char>| m.dom().contains(k) implies ke.to_set().contains(k) by {
            let j = choose|j: int| 0 <= j < e.len() && e[j].0 == k
                && parse_unsigned(e[j].1, usize::MAX as nat) == Some(m[k] as nat);
            assert(ke[j] == k);
        }
        assert forall|k: Seq<char>| ke.to_set().contains(k) implies m.dom().contains(k) by {
            let j = choose|j: int| 0 <= j < ke.len() && ke[j] == k;
            assert(e[j].0 == k);
        }
    }
    ke.unique_seq_to_set();
    if e.len() > 0 {
        let vs = nat_ints(ns);
        assert forall|i: int| 0 < i < vs.len() implies #[trigger] vs[i] == vs[i - 1] || vs[i] == vs[i - 1] + 1 by {
            assert(ns[i] == ns[i - 1] || ns[i] == ns[i - 1] + 1);
        }
        lemma_steps_span(vs);
        assert(values_span(m, vs[0], vs.last())) by {
            assert forall|v: int| #[trigger] has_value(m, v) <==> vs[0] <= v <= vs.last() by {
                if has_value(m, v) {
                    let k = choose|k: Seq<char>| m.contains_key(k) && #[trigger] m[k] == v;
                    let j = choose|j: int| 0 <= j < e.len() && e[j].0 == k
                        && parse_unsigned(e[j].1, usize::MAX as nat) == Some(m[k] as nat);
                    assert(vs[j] == v);
                    assert(seq_has(vs, v));
                }
                if vs[0] <= v <= vs.last() {
                    assert(seq_has(vs, v));
                    let i = choose|i: int| 0 <= i < vs.len() && #[trigger] vs[i] == v;
                    assert(m.contains_key(e[i].0) && m[e[i].0] as int == v);
                    assert(has_value(m, v));
                }
            }
        }
        assert(vs[0] <= 1);
    }
}

/// What `parse_section` leaves in "loadorder", for entries with no key twice: no
/// example; every key with a number, so that the map holds one value per key; and, when
/// there are entries, values that are exactly the numbers from some `b` to some `t`,
/// with `b` 0 or 1 where the entries were given a new order, and at most 2 where they
/// were already in order (values from 2 on without a gap are left as they are).
pub proof fn parse_section_law(p: PropsView, unknown: Set<Seq<char>>)
    requires
        keys_distinct(p),
        p.len() <= usize::MAX / 8,
    ensures
        ({
            let (e, write) = parse_section_spec(p, unknown);
            let m = order_map_spec(e);
            &&& !props_has(e, LOADER_EXAMPLE@)
            &&& m.dom() == prop_keys(e).to_set()
            &&& m.dom().len() == key_count(e)
            &&& e.len() > 0 ==> exists|b: int, t: int| 0 <= b <= 2 && values_span(m, b, t)
        }),
{
    let had_example = props_has(p, LOADER_EXAMPLE@);
    let p1 = if had_example { props_without(p, LOADER_EXAMPLE@) } else { p };
    lemma_without_distinct(p, LOADER_EXAMPLE@);
    crate::ini_store::lemma_without_no_key(p, LOADER_EXAMPLE@);
    assert(!props_has(p1, LOADER_EXAMPLE@));
    assert(p1.len() <= p.len()) by {
        if had_example {
            p.lemma_filter_len(|e: (Seq<char>, Seq<char>)| e.0 != LOADER_EXAMPLE@);
        }
    }
    if p1.len() == 0 {
        assert(order_map_spec(p1) == Map::<Seq<char>, usize>::empty());
        assert(prop_keys(p1).to_set() =~= Set::<Seq<char>>::empty());
        assert(order_map_spec(p1).dom() =~= Set::<Seq<char>>::empty());
    } else if order_is_sound(p1) {
        lemma_sound_section(p1);
    } else {
        lemma_renumbered_section(p1, unknown);
        let e = update_order_spec(p1, None, unknown).0;
        if e.len() > 0 {
            let (b, t) = choose|b: int, t: int| 0 <= b <= 1 && values_span(order_map_spec(e), b, t);
            assert(0 <= b <= 2 && values_span(order_map_spec(e), b, t));
        }
    }
}

/// With every key of the entries in `m`, `mapped_values` pairs each entry's key with
/// its value in `m`.
proof fn lemma_mapped_all(p: PropsView, m: Map<Seq<char>, usize>)
    requires
        forall|j: int| 0 <= j < p.len() ==> m.contains_key(#[trigger] p[j].0),
    ensures
        mapped_values(p, m).len() == p.len(),
        forall|j: int| 0 <= j < p.len() ==> #[trigger] mapped_values(p, m)[j] == (p[j].0, m[p[j].0] as int),
    decreases p.len(),
{
    if p.len() > 0 {
        let p1 = p.drop_last();
        assert forall|j: int| 0 <= j < p1.len() implies m.contains_key(#[trigger] p1[j].0) by {
            assert(p1[j] == p[j]);
        }
        lemma_mapped_all(p1, m);
        assert(p[p.len() - 1] == p.last());
        assert forall|j: int| 0 <= j < p.len() implies #[trigger] mapped_values(p, m)[j] == (p[j].0, m[p[j].0] as int) by {
            if j < p1.len() {
                assert(p1[j] == p[j]);
            }
        }
    }
}

} // verus!
