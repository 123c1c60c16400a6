//! Putting the listed mods in load order.
//!
//! The rows of the list are the mods as `deserialize_mod` shows them. Each row with a
//! load order goes to a place kept for its value: the values take the places from the
//! first on, lowest value first, as many places for a value as the order map gives it.
use vstd::prelude::*;
use vstd::pervasive::unreached;
use vstd::relations::injective_on;
use vstd::set_lib::{lemma_int_range, lemma_len_subset, lemma_map_size, set_int_range};
use crate::collections::{OrderMap, StrSet};
use crate::text::str_eq;
use crate::utils::display::ModEntry;
use crate::utils::ini::parser::LoadOrder;

verus! {

/// The file a row keeps its load order under: its entry of `dll_files` at `order.i`.
pub open spec fn row_key(r: ModEntry) -> Option<Seq<char>> {
    if r.order.i < r.dll_files@.len() {
        Some(r.dll_files@[r.order.i as int]@)
    } else {
        None
    }
}

/// The load order `m` gives a row, if it gives one.
pub open spec fn row_order(r: ModEntry, m: Map<Seq<char>, usize>) -> Option<usize> {
    match row_key(r) {
        Some(k) => if m.contains_key(k) { Some(m[k]) } else { None },
        None => None,
    }
}

/// A row showing the load order `m` gives it.
pub open spec fn placed(r: ModEntry, m: Map<Seq<char>, usize>) -> ModEntry {
    match row_order(r, m) {
        Some(v) => ModEntry { order: LoadOrder { at: v, ..r.order }, ..r },
        None => r,
    }
}

/// The (key, value) pairs of a list of entries.
pub open spec fn pairs_view(entries: Seq<(String, usize)>) -> Seq<(Seq<char>, usize)> {
    entries.map_values(|e: (String, usize)| (e.0@, e.1))
}

/// The number of entries with a key that is not unknown and the value `v`.
pub open spec fn known_count(ps: Seq<(Seq<char>, usize)>, unknown: Set<Seq<char>>, v: int) -> nat
    decreases ps.len(),
{
    if ps.len() == 0 {
        0
    } else {
        known_count(ps.drop_last(), unknown, v)
            + if !unknown.contains(ps.last().0) && ps.last().1 == v { 1nat } else { 0nat }
    }
}

/// The number of entries with a key that is not unknown and a value under `v`.
pub open spec fn known_below(ps: Seq<(Seq<char>, usize)>, unknown: Set<Seq<char>>, v: int) -> nat
    decreases ps.len(),
{
    if ps.len() == 0 {
        0
    } else {
        known_below(ps.drop_last(), unknown, v)
            + if !unknown.contains(ps.last().0) && ps.last().1 < v { 1nat } else { 0nat }
    }
}

/// The number of entries with a key that is not unknown.
pub open spec fn known_total(ps: Seq<(Seq<char>, usize)>, unknown: Set<Seq<char>>) -> nat
    decreases ps.len(),
{
    if ps.len() == 0 {
        0
    } else {
        known_total(ps.drop_last(), unknown) + if !unknown.contains(ps.last().0) { 1nat } else { 0nat }
    }
}

/// `true` when the place `p` is kept for the value `v`: the places after those of the
/// lower values, as many as there are entries with the value.
pub open spec fn in_slots(ps: Seq<(Seq<char>, usize)>, unknown: Set<Seq<char>>, v: int, p: int) -> bool {
    known_below(ps, unknown, v) <= p < known_below(ps, unknown, v) + known_count(ps, unknown, v)
}

/// The places kept for `c` entries from the place `start` on.
pub open spec fn slot_seq(start: int, c: int) -> Seq<usize> {
    Seq::new(c as nat, |k: int| (start + k) as usize)
}

/// `true` when `ps` are the pairs of `m`: no key twice, each with its value in `m`,
/// and every key of `m` among them.
pub open spec fn pairs_of(ps: Seq<(Seq<char>, usize)>, m: Map<Seq<char>, usize>) -> bool {
    &&& forall|i: int, j: int| 0 <= i < ps.len() && 0 <= j < ps.len() && i != j ==> ps[i].0 != ps[j].0
    &&& forall|i: int| 0 <= i < ps.len() ==> m.contains_key(#[trigger] ps[i].0) && m[ps[i].0] == ps[i].1
    &&& forall|k: Seq<char>| m.contains_key(k) ==> exists|i: int| 0 <= i < ps.len() && #[trigger] ps[i].0 == k
}

/// `true` when the files the rows keep a load order under match the known keys of the
/// map: no two rows share one, none is unknown, and every known key is one of them.
pub open spec fn keys_match(rows: Seq<ModEntry>, m: Map<Seq<char>, usize>, unknown: Set<Seq<char>>) -> bool {
    &&& forall|p: int, q: int|
        0 <= p < rows.len() && 0 <= q < rows.len() && p != q && #[trigger] row_order(rows[p], m) is Some
            && #[trigger] row_order(rows[q], m) is Some ==> row_key(rows[p]) != row_key(rows[q])
    &&& forall|p: int| 0 <= p < rows.len() && #[trigger] row_order(rows[p], m) is Some
        ==> !unknown.contains(row_key(rows[p])->0)
    &&& forall|k: Seq<char>| m.contains_key(k) && !unknown.contains(k)
        ==> exists|p: int| 0 <= p < rows.len() && #[trigger] row_key(rows[p]) == Some(k)
}

/// `true` when no two rows without a load order share a name.
pub open spec fn unordered_names_distinct(rows: Seq<ModEntry>, m: Map<Seq<char>, usize>) -> bool {
    forall|p: int, q: int|
        0 <= p < rows.len() && 0 <= q < rows.len() && p != q && #[trigger] row_order(rows[p], m) is None
            && #[trigger] row_order(rows[q], m) is None ==> rows[p].name@ != rows[q].name@
}

/// `true` when the values of the known keys have no gap: each value from 2 on comes
/// after the value one below it.
pub open spec fn known_values_without_gap(ps: Seq<(Seq<char>, usize)>, unknown: Set<Seq<char>>) -> bool {
    forall|v: int| v >= 2 && #[trigger] known_count(ps, unknown, v) > 0 ==> known_count(ps, unknown, v - 1) > 0
}

proof fn lemma_below_step(ps: Seq<(Seq<char>, usize)>, u: Set<Seq<char>>, v: int)
    ensures
        known_below(ps, u, v + 1) == known_below(ps, u, v) + known_count(ps, u, v),
    decreases ps.len(),
{
    if ps.len() > 0 {
        lemma_below_step(ps.drop_last(), u, v);
    }
}

proof fn lemma_below_total(ps: Seq<(Seq<char>, usize)>, u: Set<Seq<char>>, v: int)
    ensures
        known_below(ps, u, v) <= known_total(ps, u) <= ps.len(),
        known_count(ps, u, v) <= known_total(ps, u),
        v <= 0 ==> known_below(ps, u, v) == 0,
        (forall|j: int| 0 <= j < ps.len() && !u.contains(ps[j].0) ==> ps[j].1 < v)
            ==> known_below(ps, u, v) == known_total(ps, u),
    decreases ps.len(),
{
    if ps.len() > 0 {
        lemma_below_total(ps.drop_last(), u, v);
        if forall|j: int| 0 <= j < ps.len() && !u.contains(ps[j].0) ==> ps[j].1 < v {
            assert forall|j: int| 0 <= j < ps.drop_last().len() && !u.contains(ps.drop_last()[j].0)
                implies ps.drop_last()[j].1 < v by {
                assert(ps.drop_last()[j] == ps[j]);
            }
            assert(ps[ps.len() - 1] == ps.last());
        }
    }
}

/// The value of a known entry is counted.
proof fn lemma_count_of_entry(ps: Seq<(Seq<char>, usize)>, u: Set<Seq<char>>, j: int)
    requires
        0 <= j < ps.len(),
        !u.contains(ps[j].0),
    ensures
        known_count(ps, u, ps[j].1 as int) > 0,
    decreases ps.len(),
{
    if j < ps.len() - 1 {
        assert(ps.drop_last()[j] == ps[j]);
        lemma_count_of_entry(ps.drop_last(), u, j);
    }
}

proof fn lemma_below_grows(ps: Seq<(Seq<char>, usize)>, u: Set<Seq<char>>, w: int)
    requires
        known_values_without_gap(ps, u),
        w >= 1,
        known_count(ps, u, w) > 0,
    ensures
        known_below(ps, u, w + 1) >= w,
    decreases w,
{
    lemma_below_step(ps, u, w);
    if w >= 2 {
        lemma_below_grows(ps, u, w - 1);
    }
}

/// Without a gap, a known value is at most the number of known entries.
proof fn lemma_known_value_bound(ps: Seq<(Seq<char>, usize)>, u: Set<Seq<char>>, j: int)
    requires
        known_values_without_gap(ps, u),
        0 <= j < ps.len(),
        !u.contains(ps[j].0),
    ensures
        ps[j].1 <= known_total(ps, u),
{
    let w = ps[j].1 as int;
    lemma_count_of_entry(ps, u, j);
    lemma_below_total(ps, u, w + 1);
    if w >= 1 {
        lemma_below_grows(ps, u, w);
    }
}

/// The places of the rows to which `m` gives the value `v`.
pub open spec fn rows_with(rows: Seq<ModEntry>, m: Map<Seq<char>, usize>, v: int) -> Set<int> {
    Set::new(|p: int| 0 <= p < rows.len() && row_order(rows[p], m) is Some && row_order(rows[p], m)->0 == v)
}

/// The places of the rows to which `m` gives a value.
pub open spec fn rows_ordered(rows: Seq<ModEntry>, m: Map<Seq<char>, usize>) -> Set<int> {
    Set::new(|p: int| 0 <= p < rows.len() && row_order(rows[p], m) is Some)
}

spec fn entries_with(ps: Seq<(Seq<char>, usize)>, u: Set<Seq<char>>, v: int) -> Set<int> {
    Set::new(|j: int| 0 <= j < ps.len() && !u.contains(ps[j].0) && ps[j].1 == v)
}

spec fn entries_known(ps: Seq<(Seq<char>, usize)>, u: Set<Seq<char>>) -> Set<int> {
    Set::new(|j: int| 0 <= j < ps.len() && !u.contains(ps[j].0))
}

spec fn keys_with(m: Map<Seq<char>, usize>, u: Set<Seq<char>>, v: int) -> Set<Seq<char>> {
    Set::new(|k: Seq<char>| m.contains_key(k) && !u.contains(k) && m[k] == v)
}

spec fn keys_known(m: Map<Seq<char>, usize>, u: Set<Seq<char>>) -> Set<Seq<char>> {
    Set::new(|k: Seq<char>| m.contains_key(k) && !u.contains(k))
}

proof fn lemma_entries_with_len(ps: Seq<(Seq<char>, usize)>, u: Set<Seq<char>>, v: int)
    ensures
        entries_with(ps, u, v).finite(),
        entries_with(ps, u, v).len() == known_count(ps, u, v),
        entries_known(ps, u).finite(),
        entries_known(ps, u).len() == known_total(ps, u),
    decreases ps.len(),
{
    if ps.len() == 0 {
        assert(entries_with(ps, u, v) =~= Set::empty());
        assert(entries_known(ps, u) =~= Set::empty());
    } else {
        let p1 = ps.drop_last();
        lemma_entries_with_len(p1, u, v);
        let last = ps.len() - 1;
        assert(ps[last] == ps.last());
        let s1 = entries_with(p1, u, v);
        if !u.contains(ps.last().0) && ps.last().1 == v {
            assert(entries_with(ps, u, v) =~= s1.insert(last)) by {
                assert forall|j: int| 0 <= j < p1.len() implies p1[j] == ps[j] by {}
            }
        } else {
            assert(entries_with(ps, u, v) =~= s1) by {
                assert forall|j: int| 0 <= j < p1.len() implies p1[j] == ps[j] by {}
            }
        }
        let k1 = entries_known(p1, u);
        if !u.contains(ps.last().0) {
            assert(entries_known(ps, u) =~= k1.insert(last)) by {
                assert forall|j: int| 0 <= j < p1.len() implies p1[j] == ps[j] by {}
            }
        } else {
            assert(entries_known(ps, u) =~= k1) by {
                assert forall|j: int| 0 <= j < p1.len() implies p1[j] == ps[j] by {}
            }
        }
    }
}

/// With the rows' keys matching the known keys, as many rows get the value `v` as
/// known entries have it, and as many rows get a value as there are known entries.
proof fn lemma_rows_count(rows: Seq<ModEntry>, m: Map<Seq<char>, usize>, u: Set<Seq<char>>, ps: Seq<(Seq<char>, usize)>, v: int)
    requires
        pairs_of(ps, m),
        keys_match(rows, m, u),
    ensures
        rows_with(rows, m, v).finite(),
        rows_with(rows, m, v).len() == known_count(ps, u, v),
        rows_ordered(rows, m).finite(),
        rows_ordered(rows, m).len() == known_total(ps, u),
        known_total(ps, u) <= rows.len(),
{
    lemma_entries_with_len(ps, u, v);
    lemma_int_range(0, rows.len() as int);
    let range = set_int_range(0, rows.len() as int);
    let rw = rows_with(rows, m, v);
    let ro = rows_ordered(rows, m);
    lemma_len_subset(rw, range);
    lemma_len_subset(ro, range);
    let fk = |p: int| row_key(rows[p])->0;
    let fe = |j: int| ps[j].0;
    // rows with the value `v`
    assert(injective_on(fk, rw));
    assert(rw.map(fk) =~= keys_with(m, u, v)) by {
        assert forall|k: Seq<char>| keys_with(m, u, v).contains(k) implies rw.map(fk).contains(k) by {
            let p = choose|p: int| 0 <= p < rows.len() && #[trigger] row_key(rows[p]) == Some(k);
            assert(rw.contains(p) && fk(p) == k);
        }
        assert forall|k: Seq<char>| rw.map(fk).contains(k) implies keys_with(m, u, v).contains(k) by {
            let p = choose|p: int| rw.contains(p) && k == fk(p);
            assert(row_order(rows[p], m) is Some);
        }
    }
    lemma_map_size(rw, keys_with(m, u, v), fk);
    let ew = entries_with(ps, u, v);
    assert(injective_on(fe, ew));
    assert(ew.map(fe) =~= keys_with(m, u, v)) by {
        assert forall|k: Seq<char>| keys_with(m, u, v).contains(k) implies ew.map(fe).contains(k) by {
            let j = choose|j: int| 0 <= j < ps.len() && #[trigger] ps[j].0 == k;
            assert(ew.contains(j) && fe(j) == k);
        }
        assert forall|k: Seq<char>| ew.map(fe).contains(k) implies keys_with(m, u, v).contains(k) by {
            let j = choose|j: int| ew.contains(j) && k == fe(j);
            assert(m.contains_key(ps[j].0));
        }
    }
    lemma_map_size(ew, keys_with(m, u, v), fe);
    // rows with a value
    assert(injective_on(fk, ro));
    assert(ro.map(fk) =~= keys_known(m, u)) by {
        assert forall|k: Seq<char>| keys_known(m, u).contains(k) implies ro.map(fk).contains(k) by {
            let p = choose|p: int| 0 <= p < rows.len() && #[trigger] row_key(rows[p]) == Some(k);
            assert(ro.contains(p) && fk(p) == k);
        }
        assert forall|k: Seq<char>| ro.map(fk).contains(k) implies keys_known(m, u).contains(k) by {
            let p = choose|p: int| ro.contains(p) && k == fk(p);
            assert(row_order(rows[p], m) is Some);
        }
    }
    lemma_map_size(ro, keys_known(m, u), fk);
    let ek = entries_known(ps, u);
    assert(injective_on(fe, ek));
    assert(ek.map(fe) =~= keys_known(m, u)) by {
        assert forall|k: Seq<char>| keys_known(m, u).contains(k) implies ek.map(fe).contains(k) by {
            let j = choose|j: int| 0 <= j < ps.len() && #[trigger] ps[j].0 == k;
            assert(ek.contains(j) && fe(j) == k);
        }
        assert forall|k: Seq<char>| ek.map(fe).contains(k) implies keys_known(m, u).contains(k) by {
            let j = choose|j: int| ek.contains(j) && k == fe(j);
            assert(m.contains_key(ps[j].0));
        }
    }
    lemma_map_size(ek, keys_known(m, u), fe);
}

/// How many entries not unknown have each value from 0 to the number of entries.
fn count_orders(entries: &Vec<(String, usize)>, unknown: &StrSet) -> (counts: Vec<usize>)
    requires
        entries@.len() < usize::MAX,
        forall|j: int| 0 <= j < entries@.len() && !unknown@.contains(#[trigger] entries@[j].0@)
            ==> entries@[j].1 <= entries@.len(),
    ensures
        counts@.len() == entries@.len() + 1,
        forall|v: int| 0 <= v <= entries@.len() ==> #[trigger] counts@[v] == known_count(pairs_view(entries@), unknown@, v),
{
    let len = entries.len();
    let ghost ps = pairs_view(entries@);
    let mut counts: Vec<usize> = Vec::new();
    let mut v: usize = 0;
    while v < len + 1
        invariant
            len == entries@.len() < usize::MAX,
            counts@.len() == v,
            v <= len + 1,
            forall|w: int| 0 <= w < v ==> #[trigger] counts@[w] == 0,
        decreases len + 1 - v,
    {
        counts.push(0);
        v = v + 1;
    }
    let mut j: usize = 0;
    while j < len
        invariant
            len == entries@.len() < usize::MAX,
            ps == pairs_view(entries@),
            forall|j: int| 0 <= j < entries@.len() && !unknown@.contains(#[trigger] entries@[j].0@)
                ==> entries@[j].1 <= entries@.len(),
            j <= len,
            counts@.len() == len + 1,
            forall|w: int| 0 <= w <= len ==> #[trigger] counts@[w] == known_count(ps.subrange(0, j as int), unknown@, w),
        decreases len - j,
    {
        let ghost before = ps.subrange(0, j as int);
        let ghost after = ps.subrange(0, j + 1);
        assert(after.drop_last() =~= before);
        assert(after.last() == ps[j as int]);
        assert(ps[j as int] == (entries@[j as int].0@, entries@[j as int].1));
        if !unknown.contains(entries[j].0.as_str()) {
            let val = entries[j].1;
            proof {
                lemma_below_total(before, unknown@, val as int);
            }
            let c = counts[val] + 1;
            counts.set(val, c);
        }
        j = j + 1;
    }
    assert(ps.subrange(0, len as int) =~= ps);
    counts
}

/// The places kept for each value, in order: `counts[v]` places for the value `v`,
/// after those of the lower values.
fn placement_rows(counts: &Vec<usize>, Ghost(ps): Ghost<Seq<(Seq<char>, usize)>>, Ghost(u): Ghost<Set<Seq<char>>>) -> (buckets: Vec<Vec<usize>>)
    requires
        ps.len() < usize::MAX,
        forall|v: int| 0 <= v < counts@.len() ==> #[trigger] counts@[v] == known_count(ps, u, v),
    ensures
        buckets@.len() == counts@.len(),
        forall|v: int| 0 <= v < counts@.len() ==> (#[trigger] buckets@[v])@ == slot_seq(known_below(ps, u, v) as int, known_count(ps, u, v) as int),
{
    let mut buckets: Vec<Vec<usize>> = Vec::new();
    let mut counter: usize = 0;
    let mut v: usize = 0;
    proof {
        lemma_below_total(ps, u, 0);
    }
    while v < counts.len()
        invariant
            ps.len() < usize::MAX,
            forall|v: int| 0 <= v < counts@.len() ==> #[trigger] counts@[v] == known_count(ps, u, v),
            v <= counts@.len(),
            buckets@.len() == v,
            counter == known_below(ps, u, v as int),
            forall|w: int| 0 <= w < v ==> (#[trigger] buckets@[w])@ == slot_seq(known_below(ps, u, w) as int, known_count(ps, u, w) as int),
        decreases counts@.len() - v,
    {
        let c = counts[v];
        proof {
            lemma_below_step(ps, u, v as int);
            lemma_below_total(ps, u, v + 1);
        }
        let mut b: Vec<usize> = Vec::new();
        let mut t: usize = 0;
        while t < c
            invariant
                c == known_count(ps, u, v as int),
                counter + c <= ps.len() < usize::MAX,
                t <= c,
                b@ == slot_seq(counter as int, t as int),
            decreases c - t,
        {
            b.push(counter + t);
            assert(b@ =~= slot_seq(counter as int, t + 1));
            t = t + 1;
        }
        buckets.push(b);
        counter = counter + c;
        v = v + 1;
    }
    buckets
}

/// `true` when the row at the place `p` has a load order, sits in a place kept for its
/// value, and shows that value.
pub open spec fn settled(r: ModEntry, m: Map<Seq<char>, usize>, ps: Seq<(Seq<char>, usize)>, u: Set<Seq<char>>, p: int) -> bool {
    &&& row_order(r, m) is Some
    &&& in_slots(ps, u, row_order(r, m)->0 as int, p)
    &&& r == placed(r, m)
}

/// The places still to settle whose row has the value `v`.
spec fn uns_with(uns: Seq<usize>, rows: Seq<ModEntry>, m: Map<Seq<char>, usize>, v: int) -> Set<int> {
    Set::new(|p: int| 0 <= p < rows.len() && uns.contains(p as usize) && row_order(rows[p], m) is Some
        && row_order(rows[p], m)->0 == v)
}

/// The rows with their load orders placed.
pub open spec fn placed_rows(rows: Seq<ModEntry>, m: Map<Seq<char>, usize>) -> Seq<ModEntry> {
    rows.map_values(|r: ModEntry| placed(r, m))
}

/// What holds of the rows and the places still to settle while `update_order` runs.
spec fn reorder_inv(
    rows: Seq<ModEntry>,
    orig: Seq<ModEntry>,
    uns: Seq<usize>,
    bk: Seq<Seq<usize>>,
    seen: Set<Seq<char>>,
    seen_pos: Set<usize>,
    count: int,
    key: Option<Seq<char>>,
    sel_i: int,
    sel_seen: bool,
    swapped: bool,
    m: Map<Seq<char>, usize>,
    ps: Seq<(Seq<char>, usize)>,
    u: Set<Seq<char>>,
) -> bool {
    let n = orig.len();
    let top = ps.len() as int;
    &&& rows.len() == n
    &&& n <= usize::MAX
    &&& bk.len() == top + 1
    &&& uns.no_duplicates()
    &&& forall|j: int| 0 <= j < uns.len() ==> (#[trigger] uns[j]) < n
    &&& forall|p: int| 0 <= p < n && !uns.contains(p as usize) ==> #[trigger] settled(rows[p], m, ps, u, p)
    &&& forall|v: int| 0 <= v <= top ==> (#[trigger] bk[v]).no_duplicates()
    &&& forall|v: int, x: usize| 0 <= v <= top ==> (#[trigger] bk[v].contains(x) <==> in_slots(ps, u, v, x as int) && uns.contains(x))
    &&& forall|v: int| 0 <= v <= top ==> #[trigger] uns_with(uns, rows, m, v).finite()
    &&& forall|v: int| 0 <= v <= top ==> (#[trigger] bk[v]).len() == uns_with(uns, rows, m, v).len()
    &&& forall|p: int| 0 <= p < n && #[trigger] row_order(rows[p], m) is Some ==> row_order(rows[p], m)->0 <= top
    &&& placed_rows(rows, m).to_multiset() == placed_rows(orig, m).to_multiset()
    &&& unordered_names_distinct(rows, m)
    &&& seen_pos.finite()
    &&& forall|p: usize| #[trigger] seen_pos.contains(p) ==> uns.contains(p) && p < n && row_order(rows[p as int], m) is None
    &&& seen == seen_pos.map(|p: usize| rows[p as int].name@)
    &&& seen_pos.len() == count
    &&& key matches Some(k) ==> {
        &&& sel_seen ==> 0 <= sel_i < n && rows[sel_i].name@ == k
        &&& forall|p: int| 0 <= p < n && (!uns.contains(p as usize) || seen_pos.contains(p as usize))
            && #[trigger] rows[p].name@ == k ==> sel_seen
    }
    &&& !swapped ==> forall|p: int| 0 <= p < n ==> #[trigger] rows[p] == orig[p] || rows[p] == placed(orig[p], m)
}

proof fn lemma_below_mono(ps: Seq<(Seq<char>, usize)>, u: Set<Seq<char>>, a: int, b: int)
    requires
        a <= b,
    ensures
        known_below(ps, u, a) <= known_below(ps, u, b),
    decreases ps.len(),
{
    if ps.len() > 0 {
        lemma_below_mono(ps.drop_last(), u, a, b);
    }
}

/// No place is kept for two values.
proof fn lemma_slots_disjoint(ps: Seq<(Seq<char>, usize)>, u: Set<Seq<char>>, v: int, w: int, p: int)
    requires
        in_slots(ps, u, v, p),
        in_slots(ps, u, w, p),
    ensures
        v == w,
{
    if v < w {
        lemma_below_step(ps, u, v);
        lemma_below_mono(ps, u, v + 1, w);
    } else if w < v {
        lemma_below_step(ps, u, w);
        lemma_below_mono(ps, u, w + 1, v);
    }
}

/// Taking out the element at `i` of a sequence without duplicates takes out just that
/// element.
proof fn lemma_remove_at(s: Seq<usize>, i: int)
    requires
        s.no_duplicates(),
        0 <= i < s.len(),
    ensures
        s.remove(i).no_duplicates(),
        s.remove(i).len() == s.len() - 1,
        forall|x: usize| #[trigger] s.remove(i).contains(x) <==> s.contains(x) && x != s[i],
{
    let r = s.remove(i);
    assert forall|j: int| 0 <= j < r.len() implies r[j] == if j < i { s[j] } else { s[j + 1] } by {}
    assert forall|x: usize| #[trigger] r.contains(x) <==> s.contains(x) && x != s[i] by {
        if r.contains(x) {
            let j = choose|j: int| 0 <= j < r.len() && r[j] == x;
            if j < i {
                assert(s[j] == x);
            } else {
                assert(s[j + 1] == x);
            }
        }
        if s.contains(x) && x != s[i] {
            let j = choose|j: int| 0 <= j < s.len() && s[j] == x;
            if j < i {
                assert(r[j] == x);
            } else {
                assert(r[j - 1] == x);
            }
        }
    }
}

/// `Vec::swap_remove` on a sequence without duplicates takes out just that element.
proof fn lemma_swap_remove_at(s: Seq<usize>, i: int)
    requires
        s.no_duplicates(),
        0 <= i < s.len(),
    ensures
        s.update(i, s.last()).drop_last().no_duplicates(),
        s.update(i, s.last()).drop_last().len() == s.len() - 1,
        forall|x: usize| #[trigger] s.update(i, s.last()).drop_last().contains(x) <==> s.contains(x) && x != s[i],
        forall|j: int| 0 <= j < s.len() - 1 ==> #[trigger] s.update(i, s.last()).drop_last()[j] == if j == i { s.last() } else { s[j] },
{
    let r = s.update(i, s.last()).drop_last();
    let last = s.len() - 1;
    assert(s[last] == s.last());
    assert forall|a: int, b: int| 0 <= a < r.len() && 0 <= b < r.len() && a != b implies r[a] != r[b] by {
        let sa = if a == i { last } else { a };
        let sb = if b == i { last } else { b };
        assert(r[a] == s[sa] && r[b] == s[sb]);
    }
    assert forall|x: usize| #[trigger] r.contains(x) <==> s.contains(x) && x != s[i] by {
        if r.contains(x) {
            let j = choose|j: int| 0 <= j < r.len() && r[j] == x;
            if j == i {
                assert(s[last] == x);
            } else {
                assert(s[j] == x);
            }
        }
        if s.contains(x) && x != s[i] {
            let j = choose|j: int| 0 <= j < s.len() && s[j] == x;
            if j == last {
                assert(r[i] == x);
            } else {
                assert(r[j] == x);
            }
        }
    }
}

/// Setting the load order of a row changes neither its file, its order nor its name.
proof fn lemma_placed(r: ModEntry, m: Map<Seq<char>, usize>)
    ensures
        row_key(placed(r, m)) == row_key(r),
        row_order(placed(r, m), m) == row_order(r, m),
        placed(placed(r, m), m) == placed(r, m),
        placed(r, m).name == r.name,
        row_order(r, m) is None ==> placed(r, m) == r,
        row_order(r, m) is Some ==> placed(r, m).order.at == row_order(r, m)->0,
{
}

/// Exchanging two elements keeps the multiset.
proof fn lemma_swap_multiset(s: Seq<ModEntry>, a: int, b: int)
    requires
        0 <= a < s.len(),
        0 <= b < s.len(),
    ensures
        s.update(a, s[b]).update(b, s[a]).to_multiset() == s.to_multiset(),
{
    broadcast use vstd::seq_lib::to_multiset_update;
    broadcast use vstd::multiset::group_multiset_axioms;
    let s1 = s.update(a, s[b]);
    assert(s1[b] == if a == b { s[b] } else { s[b] });
    assert(s1.to_multiset() == s.to_multiset().insert(s[b]).remove(s[a]));
    assert(s1.update(b, s[a]).to_multiset() == s1.to_multiset().insert(s[a]).remove(s1[b]));
    broadcast use vstd::seq_lib::to_multiset_contains;
    let ms = s.to_multiset();
    assert(s.contains(s[a]) && s.contains(s[b]));
    assert(ms.count(s[a]) > 0 && ms.count(s[b]) > 0);
    assert(ms.insert(s[b]).remove(s[a]).insert(s[a]).remove(s[b]) =~= ms);
}

/// A row without a load order is looked at: its name joins those seen.
proof fn lemma_visit(
    rows: Seq<ModEntry>, orig: Seq<ModEntry>, uns: Seq<usize>, bk: Seq<Seq<usize>>, seen: Set<Seq<char>>,
    seen_pos: Set<usize>, count: int, key: Option<Seq<char>>, sel_i: int, sel_seen: bool, swapped: bool,
    m: Map<Seq<char>, usize>, ps: Seq<(Seq<char>, usize)>, u: Set<Seq<char>>, ii: int,
)
    requires
        reorder_inv(rows, orig, uns, bk, seen, seen_pos, count, key, sel_i, sel_seen, swapped, m, ps, u),
        0 <= ii < uns.len(),
        row_order(rows[uns[ii] as int], m) is None,
    ensures
        ({
            let ui = uns[ii];
            let name = rows[ui as int].name@;
            let named = key matches Some(k) && name == k;
            let fresh = !seen.contains(name);
            &&& fresh ==> !seen_pos.contains(ui)
            &&& !fresh ==> seen_pos.contains(ui)
            &&& reorder_inv(rows, orig, uns, bk, seen.insert(name), if fresh { seen_pos.insert(ui) } else { seen_pos },
                if fresh { count + 1 } else { count }, key, if named { ui as int } else { sel_i },
                sel_seen || named, swapped, m, ps, u)
        }),
{
    let ui = uns[ii];
    let name = rows[ui as int].name@;
    let f = |p: usize| rows[p as int].name@;
    let fresh = !seen.contains(name);
    let named = key matches Some(k) && name == k;
    let sp2 = if fresh { seen_pos.insert(ui) } else { seen_pos };
    if key is Some {
        let k = key->0;
        assert forall|p: int| 0 <= p < orig.len() && (!uns.contains(p as usize) || sp2.contains(p as usize))
            && #[trigger] rows[p].name@ == k implies sel_seen || named by {
            if p != ui as int {
                assert((p as usize) as int == p);
                assert(p as usize != ui);
                assert(!uns.contains(p as usize) || seen_pos.contains(p as usize));
            }
        }
    }
    if seen_pos.contains(ui) {
        assert(seen_pos.map(f).contains(f(ui)));
    }
    if !fresh {
        let p = choose|p: usize| seen_pos.contains(p) && name == f(p);
        if p != ui {
            assert(row_order(rows[p as int], m) is None);
            assert(rows[p as int].name@ != rows[ui as int].name@);
        }
        assert(seen.insert(name) =~= seen);
    } else {
        assert(seen.insert(name) =~= seen_pos.insert(ui).map(f)) by {
            assert forall|x: Seq<char>| seen.insert(name).contains(x) implies seen_pos.insert(ui).map(f).contains(x) by {
                if x == name {
                    assert(seen_pos.insert(ui).contains(ui) && x == f(ui));
                } else {
                    let p = choose|p: usize| seen_pos.contains(p) && x == f(p);
                    assert(seen_pos.insert(ui).contains(p));
                }
            }
            assert forall|x: Seq<char>| seen_pos.insert(ui).map(f).contains(x) implies seen.insert(name).contains(x) by {
                let p = choose|p: usize| seen_pos.insert(ui).contains(p) && x == f(p);
                if p != ui {
                    assert(seen_pos.map(f).contains(f(p)));
                }
            }
        }
    }
}

/// A row with a load order already in a place kept for its value is settled there.
proof fn lemma_finalize(
    rows: Seq<ModEntry>, orig: Seq<ModEntry>, uns: Seq<usize>, bk: Seq<Seq<usize>>, seen: Set<Seq<char>>,
    seen_pos: Set<usize>, count: int, key: Option<Seq<char>>, sel_i: int, sel_seen: bool, swapped: bool,
    m: Map<Seq<char>, usize>, ps: Seq<(Seq<char>, usize)>, u: Set<Seq<char>>, ii: int, index: int,
)
    requires
        reorder_inv(rows, orig, uns, bk, seen, seen_pos, count, key, sel_i, sel_seen, swapped, m, ps, u),
        0 <= ii < uns.len(),
        row_order(rows[uns[ii] as int], m) is Some,
        0 <= index < bk[row_order(rows[uns[ii] as int], m)->0 as int].len(),
        bk[row_order(rows[uns[ii] as int], m)->0 as int][index] == uns[ii],
    ensures
        ({
            let ui = uns[ii] as int;
            let v = row_order(rows[ui], m)->0 as int;
            let named = key matches Some(k) && rows[ui].name@ == k;
            reorder_inv(rows.update(ui, placed(rows[ui], m)), orig, uns.update(ii, uns.last()).drop_last(),
                bk.update(v, bk[v].remove(index)), seen, seen_pos, count, key,
                if named { ui } else { sel_i }, sel_seen || named, swapped, m, ps, u)
        }),
{
    let n = orig.len();
    let top = ps.len() as int;
    let ui = uns[ii] as int;
    let v = row_order(rows[ui], m)->0 as int;
    let named = key matches Some(k) && rows[ui].name@ == k;
    let rows2 = rows.update(ui, placed(rows[ui], m));
    let uns2 = uns.update(ii, uns.last()).drop_last();
    let bk2 = bk.update(v, bk[v].remove(index));
    let sel_i2 = if named { ui } else { sel_i };
    let sel_seen2 = sel_seen || named;
    assert(uns.contains(uns[ii]));
    assert(row_order(rows[ui], m) is Some);
    assert(v <= top);
    lemma_swap_remove_at(uns, ii);
    lemma_remove_at(bk[v], index);
    lemma_placed(rows[ui], m);
    assert(bk[v].contains(ui as usize));
    assert(in_slots(ps, u, v, ui));
    assert forall|p: int| 0 <= p < n && !uns2.contains(p as usize) implies #[trigger] settled(rows2[p], m, ps, u, p) by {
        if p != ui {
            assert((p as usize) as int == p);
            assert(!uns.contains(p as usize));
            assert(settled(rows[p], m, ps, u, p));
        }
    }
    assert forall|w: int, x: usize| 0 <= w <= top implies (#[trigger] bk2[w].contains(x) <==> in_slots(ps, u, w, x as int) && uns2.contains(x)) by {
        if w != v {
            if in_slots(ps, u, w, x as int) && x as int == ui {
                lemma_slots_disjoint(ps, u, v, w, ui);
            }
        }
    }
    assert forall|w: int| 0 <= w <= top implies #[trigger] bk2[w].len() == uns_with(uns2, rows2, m, w).len()
        && uns_with(uns2, rows2, m, w).finite() by {
        assert(uns_with(uns, rows, m, w).finite());
        assert(bk[w].len() == uns_with(uns, rows, m, w).len());
        if w == v {
            assert(uns_with(uns2, rows2, m, w) =~= uns_with(uns, rows, m, w).remove(ui));
            assert(uns_with(uns, rows, m, w).contains(ui));
        } else {
            assert(uns_with(uns2, rows2, m, w) =~= uns_with(uns, rows, m, w));
        }
    }
    assert forall|w: int| 0 <= w <= top implies #[trigger] uns_with(uns2, rows2, m, w).finite() by {
        assert(bk2[w].len() == uns_with(uns2, rows2, m, w).len());
    }
    assert forall|p: int| 0 <= p < n && #[trigger] row_order(rows2[p], m) is Some implies row_order(rows2[p], m)->0 <= top by {
        if p != ui {
            assert(row_order(rows[p], m) is Some);
        }
    }
    assert(placed_rows(rows2, m) =~= placed_rows(rows, m));
    assert(unordered_names_distinct(rows2, m)) by {
        assert forall|p: int, q: int|
            0 <= p < rows2.len() && 0 <= q < rows2.len() && p != q && #[trigger] row_order(rows2[p], m) is None
                && #[trigger] row_order(rows2[q], m) is None implies rows2[p].name@ != rows2[q].name@ by {
            assert(row_order(rows[p], m) is None && row_order(rows[q], m) is None);
        }
    }
    assert forall|p: usize| #[trigger] seen_pos.contains(p) implies uns2.contains(p) && p < n && row_order(rows2[p as int], m) is None by {
        assert(row_order(rows[p as int], m) is None);
    }
    assert(seen_pos.map(|p: usize| rows2[p as int].name@) =~= seen_pos.map(|p: usize| rows[p as int].name@)) by {
        assert forall|p: usize| seen_pos.contains(p) implies rows2[p as int].name@ == rows[p as int].name@ by {
            assert(row_order(rows[p as int], m) is None);
        }
    }
    if key is Some {
        let k = key->0;
        assert forall|p: int| 0 <= p < n && (!uns2.contains(p as usize) || seen_pos.contains(p as usize))
            && #[trigger] rows2[p].name@ == k implies sel_seen2 by {
            if p != ui {
                assert((p as usize) as int == p);
                assert(rows2[p] == rows[p]);
            }
        }
    }
    if !swapped {
        assert forall|p: int| 0 <= p < n implies #[trigger] rows2[p] == orig[p] || rows2[p] == placed(orig[p], m) by {
            if p == ui {
                lemma_placed(orig[p], m);
            }
        }
    }
}

/// A row with a load order that is not in a place kept for its value finds one still
/// open: the first of those left for its value.
proof fn lemma_bucket_open(
    rows: Seq<ModEntry>, orig: Seq<ModEntry>, uns: Seq<usize>, bk: Seq<Seq<usize>>, seen: Set<Seq<char>>,
    seen_pos: Set<usize>, count: int, key: Option<Seq<char>>, sel_i: int, sel_seen: bool, swapped: bool,
    m: Map<Seq<char>, usize>, ps: Seq<(Seq<char>, usize)>, u: Set<Seq<char>>, ii: int,
)
    requires
        reorder_inv(rows, orig, uns, bk, seen, seen_pos, count, key, sel_i, sel_seen, swapped, m, ps, u),
        0 <= ii < uns.len(),
        row_order(rows[uns[ii] as int], m) is Some,
        !bk[row_order(rows[uns[ii] as int], m)->0 as int].contains(uns[ii]),
    ensures
        ({
            let v = row_order(rows[uns[ii] as int], m)->0 as int;
            &&& 0 <= v <= ps.len()
            &&& bk[v].len() > 0
            &&& uns.contains(bk[v][0])
            &&& bk[v][0] != uns[ii]
            &&& bk[v][0] < orig.len()
            &&& in_slots(ps, u, v, bk[v][0] as int)
        }),
{
    let ui = uns[ii] as int;
    let v = row_order(rows[ui], m)->0 as int;
    assert(row_order(rows[ui], m) is Some);
    assert(uns.contains(uns[ii]));
    let a = uns_with(uns, rows, m, v);
    assert(a.contains(ui));
    assert(a.finite());
    assert(a.remove(ui).len() + 1 == a.len());
    assert(bk[v].len() == a.len());
    assert(bk[v].contains(bk[v][0]));
    let j = choose|j: int| 0 <= j < uns.len() && uns[j] == bk[v][0];
    assert(uns[j] < orig.len());
}

/// A row with a load order takes the first place left for its value; the row there
/// takes its place.
proof fn lemma_swap(
    rows: Seq<ModEntry>, orig: Seq<ModEntry>, uns: Seq<usize>, bk: Seq<Seq<usize>>, seen: Set<Seq<char>>,
    seen_pos: Set<usize>, count: int, key: Option<Seq<char>>, sel_i: int, sel_seen: bool, swapped: bool,
    m: Map<Seq<char>, usize>, ps: Seq<(Seq<char>, usize)>, u: Set<Seq<char>>, ii: int, found: int,
)
    requires
        reorder_inv(rows, orig, uns, bk, seen, seen_pos, count, key, sel_i, sel_seen, swapped, m, ps, u),
        0 <= ii < uns.len(),
        row_order(rows[uns[ii] as int], m) is Some,
        !bk[row_order(rows[uns[ii] as int], m)->0 as int].contains(uns[ii]),
        bk[row_order(rows[uns[ii] as int], m)->0 as int].len() > 0,
        0 <= found < uns.len(),
        uns[found] == bk[row_order(rows[uns[ii] as int], m)->0 as int][0],
    ensures
        ({
            let ui = uns[ii] as int;
            let v = row_order(rows[ui], m)->0 as int;
            let sw = bk[v][0] as int;
            let swap_named = key matches Some(k) && rows[sw].name@ == k;
            let curr_named = key matches Some(k) && rows[ui].name@ == k;
            reorder_inv(rows.update(ui, rows[sw]).update(sw, placed(rows[ui], m)), orig,
                uns.update(found, uns.last()).drop_last(), bk.update(v, bk[v].remove(0)), seen,
                if seen_pos.contains(sw as usize) { seen_pos.remove(sw as usize).insert(ui as usize) } else { seen_pos },
                count, key, if swap_named { ui } else if curr_named { sw } else { sel_i },
                sel_seen || swap_named || curr_named, true, m, ps, u)
        }),
{
    let n = orig.len();
    let top = ps.len() as int;
    let ui = uns[ii] as int;
    let v = row_order(rows[ui], m)->0 as int;
    lemma_bucket_open(rows, orig, uns, bk, seen, seen_pos, count, key, sel_i, sel_seen, swapped, m, ps, u, ii);
    let sw = bk[v][0] as int;
    let swap_named = key matches Some(k) && rows[sw].name@ == k;
    let curr_named = key matches Some(k) && rows[ui].name@ == k;
    let curr = placed(rows[ui], m);
    let rows2 = rows.update(ui, rows[sw]).update(sw, curr);
    let uns2 = uns.update(found, uns.last()).drop_last();
    let bk2 = bk.update(v, bk[v].remove(0));
    let sp2 = if seen_pos.contains(sw as usize) { seen_pos.remove(sw as usize).insert(ui as usize) } else { seen_pos };
    let sel_i2 = if swap_named { ui } else if curr_named { sw } else { sel_i };
    let sel_seen2 = sel_seen || swap_named || curr_named;
    assert(uns.contains(uns[ii]));
    assert(uns[ii] < n);
    lemma_swap_remove_at(uns, found);
    lemma_remove_at(bk[v], 0);
    lemma_placed(rows[ui], m);
    lemma_placed(rows[sw], m);
    assert(row_order(rows[ui], m) is Some);
    assert(rows2[ui] == rows[sw] && rows2[sw] == curr);
    assert(uns2.contains(ui as usize));
    assert(!uns2.contains(sw as usize));
    // the places settled
    assert forall|p: int| 0 <= p < n && !uns2.contains(p as usize) implies #[trigger] settled(rows2[p], m, ps, u, p) by {
        if p != sw {
            assert((p as usize) as int == p);
            assert(p != ui);
            assert(!uns.contains(p as usize));
            assert(settled(rows[p], m, ps, u, p));
        }
    }
    // the places left for each value
    assert forall|w: int, x: usize| 0 <= w <= top implies (#[trigger] bk2[w].contains(x) <==> in_slots(ps, u, w, x as int) && uns2.contains(x)) by {
        if w != v {
            if in_slots(ps, u, w, x as int) && x as int == sw {
                lemma_slots_disjoint(ps, u, v, w, sw);
            }
        }
    }
    let sw_order = row_order(rows[sw], m);
    assert forall|w: int| 0 <= w <= top implies #[trigger] bk2[w].len() == uns_with(uns2, rows2, m, w).len()
        && uns_with(uns2, rows2, m, w).finite() by {
        let a = uns_with(uns, rows, m, w);
        assert(a.finite());
        assert(bk[w].len() == a.len());
        let has_sw = sw_order is Some && sw_order->0 == w;
        if w == v {
            assert(a.contains(ui));
            if has_sw {
                assert(a.contains(sw));
                assert(uns_with(uns2, rows2, m, w) =~= a.remove(sw));
            } else {
                assert(uns_with(uns2, rows2, m, w) =~= a.remove(ui));
            }
        } else {
            assert(!a.contains(ui));
            if has_sw {
                assert(a.contains(sw));
                assert(uns_with(uns2, rows2, m, w) =~= a.remove(sw).insert(ui));
            } else {
                assert(uns_with(uns2, rows2, m, w) =~= a);
            }
        }
    }
    assert forall|w: int| 0 <= w <= top implies #[trigger] uns_with(uns2, rows2, m, w).finite() by {
        assert(bk2[w].len() == uns_with(uns2, rows2, m, w).len());
    }
    // what is moved keeps its file, its order and its name
    let sigma = |p: int| if p == ui { sw } else if p == sw { ui } else { p };
    assert forall|p: int| 0 <= p < n implies row_order(#[trigger] rows2[p], m) == row_order(rows[sigma(p)], m)
        && rows2[p].name == rows[sigma(p)].name by {}
    assert forall|p: int| 0 <= p < n && #[trigger] row_order(rows2[p], m) is Some implies row_order(rows2[p], m)->0 <= top by {
        assert(row_order(rows2[p], m) == row_order(rows[sigma(p)], m));
    }
    let pr = placed_rows(rows, m);
    lemma_swap_multiset(pr, ui, sw);
    assert(placed_rows(rows2, m) =~= pr.update(ui, pr[sw]).update(sw, pr[ui]));
    assert(unordered_names_distinct(rows2, m)) by {
        assert forall|p: int, q: int|
            0 <= p < rows2.len() && 0 <= q < rows2.len() && p != q && #[trigger] row_order(rows2[p], m) is None
                && #[trigger] row_order(rows2[q], m) is None implies rows2[p].name@ != rows2[q].name@ by {
            assert(row_order(rows2[p], m) == row_order(rows[sigma(p)], m));
            assert(row_order(rows2[q], m) == row_order(rows[sigma(q)], m));
            assert(rows2[p].name == rows[sigma(p)].name && rows2[q].name == rows[sigma(q)].name);
            assert(row_order(rows[sigma(p)], m) is None);
            assert(row_order(rows[sigma(q)], m) is None);
        }
    }
    // the rows seen without a load order
    let f2 = |p: usize| rows2[p as int].name@;
    let f = |p: usize| rows[p as int].name@;
    assert(!seen_pos.contains(ui as usize));
    assert forall|p: usize| #[trigger] sp2.contains(p) implies uns2.contains(p) && p < n && row_order(rows2[p as int], m) is None by {
        if p as int == ui {
            assert(seen_pos.contains(sw as usize));
        } else {
            assert(seen_pos.contains(p));
            assert(p as int != sw);
            assert(rows2[p as int] == rows[p as int]);
        }
    }
    assert(seen =~= sp2.map(f2)) by {
        assert forall|x: Seq<char>| seen.contains(x) implies sp2.map(f2).contains(x) by {
            let p = choose|p: usize| seen_pos.contains(p) && x == f(p);
            if p as int == sw {
                assert(sp2.contains(ui as usize) && f2(ui as usize) == x);
            } else {
                assert(p as int != ui);
                assert(sp2.contains(p) && f2(p) == x);
            }
        }
        assert forall|x: Seq<char>| sp2.map(f2).contains(x) implies seen.contains(x) by {
            let p = choose|p: usize| sp2.contains(p) && x == f2(p);
            if p as int == ui {
                assert(seen_pos.map(f).contains(f(sw as usize)));
            } else {
                assert(seen_pos.contains(p) && p as int != sw);
                assert(seen_pos.map(f).contains(f(p)));
            }
        }
    }
    if seen_pos.contains(sw as usize) {
        assert(seen_pos.remove(sw as usize).len() + 1 == seen_pos.len());
        assert(!seen_pos.remove(sw as usize).contains(ui as usize));
    }
    // the selected row
    if key is Some {
        let k = key->0;
        if sel_seen2 {
            if !swap_named && !curr_named {
                assert(sel_i != ui && sel_i != sw);
            }
        }
        assert forall|p: int| 0 <= p < n && (!uns2.contains(p as usize) || sp2.contains(p as usize))
            && #[trigger] rows2[p].name@ == k implies sel_seen2 by {
            if p != ui && p != sw {
                assert((p as usize) as int == p);
                assert(rows2[p] == rows[p]);
                assert(!uns.contains(p as usize) || seen_pos.contains(p as usize));
            } else if p == ui {
                assert(sp2.contains(ui as usize));
            }
        }
    }
}

/// The first index from `a` on at which `qs` holds (its length when there is none).
spec fn first_from(qs: Seq<bool>, a: int) -> int
    decreases qs.len() - a,
{
    if a < 0 || a >= qs.len() {
        qs.len() as int
    } else if qs[a] {
        a
    } else {
        first_from(qs, a + 1)
    }
}

/// How many steps from `a` on, starting again at 0 after the end, reach an index at
/// which `qs` holds.
spec fn cyc(qs: Seq<bool>, a: int) -> int {
    if first_from(qs, a) < qs.len() {
        first_from(qs, a) - a
    } else {
        qs.len() - a + first_from(qs, 0)
    }
}

/// The places still to settle whose row has not been seen.
spec fn quals(uns: Seq<usize>, seen_pos: Set<usize>) -> Seq<bool> {
    Seq::new(uns.len(), |j: int| !seen_pos.contains(uns[j]))
}

proof fn lemma_first_from(qs: Seq<bool>, a: int)
    requires
        0 <= a <= qs.len(),
    ensures
        a <= first_from(qs, a) <= qs.len(),
        first_from(qs, a) < qs.len() ==> qs[first_from(qs, a)],
        forall|j: int| a <= j < first_from(qs, a) ==> !qs[j],
    decreases qs.len() - a,
{
    if a < qs.len() && !qs[a] {
        lemma_first_from(qs, a + 1);
    }
}

/// Passing an index at which `qs` does not hold comes one step closer to one at which
/// it holds.
proof fn lemma_cyc_step(qs: Seq<bool>, a: int, j: int)
    requires
        0 <= a < qs.len(),
        !qs[a],
        0 <= j < qs.len(),
        qs[j],
    ensures
        0 <= cyc(qs, if a + 1 >= qs.len() { 0 } else { a + 1 }) < cyc(qs, a),
{
    lemma_first_from(qs, a);
    lemma_first_from(qs, 0);
    if a + 1 < qs.len() {
        lemma_first_from(qs, a + 1);
    } else {
        assert(first_from(qs, a + 1) == qs.len());
    }
    if first_from(qs, 0) == qs.len() {
        assert(!qs[j]);
    }
}

/// With fewer rows seen than places to settle, some place to settle has a row not seen.
proof fn lemma_some_unseen(uns: Seq<usize>, seen_pos: Set<usize>)
    requires
        uns.no_duplicates(),
        seen_pos.finite(),
        forall|p: usize| #[trigger] seen_pos.contains(p) ==> uns.contains(p),
    ensures
        seen_pos.len() <= uns.len(),
        seen_pos.len() != uns.len() ==> exists|j: int| 0 <= j < uns.len() && !seen_pos.contains(uns[j]),
        seen_pos.len() == uns.len() ==> forall|j: int| 0 <= j < uns.len() ==> seen_pos.contains(#[trigger] uns[j]),
{
    uns.unique_seq_to_set();
    let us = uns.to_set();
    assert(seen_pos.subset_of(us));
    lemma_len_subset(seen_pos, us);
    if seen_pos.len() != uns.len() {
        if forall|j: int| 0 <= j < uns.len() ==> seen_pos.contains(#[trigger] uns[j]) {
            assert(us.subset_of(seen_pos));
            lemma_len_subset(us, seen_pos);
        }
    }
    if seen_pos.len() == uns.len() {
        assert forall|j: int| 0 <= j < uns.len() implies seen_pos.contains(#[trigger] uns[j]) by {
            if !seen_pos.contains(uns[j]) {
                assert(seen_pos.subset_of(us.remove(uns[j])));
                lemma_len_subset(seen_pos, us.remove(uns[j]));
            }
        }
    }
}

proof fn lemma_find_slot(ps: Seq<(Seq<char>, usize)>, u: Set<Seq<char>>, p: int, w: int, top: int)
    requires
        0 <= w <= top + 1,
        known_below(ps, u, w) <= p < known_below(ps, u, top + 1),
    ensures
        exists|x: int| w <= x <= top && #[trigger] in_slots(ps, u, x, p),
    decreases top + 1 - w,
{
    lemma_below_step(ps, u, w);
    if p >= known_below(ps, u, w + 1) {
        lemma_find_slot(ps, u, p, w + 1, top);
    } else {
        assert(in_slots(ps, u, w, p));
    }
}

/// When every place left has been seen with a row without a load order, the rows are
/// in order.
proof fn lemma_reorder_done(
    rows: Seq<ModEntry>, orig: Seq<ModEntry>, uns: Seq<usize>, bk: Seq<Seq<usize>>, seen: Set<Seq<char>>,
    seen_pos: Set<usize>, count: int, key: Option<Seq<char>>, sel_i: int, sel_seen: bool, swapped: bool,
    m: Map<Seq<char>, usize>, ps: Seq<(Seq<char>, usize)>, u: Set<Seq<char>>, s: Option<int>,
)
    requires
        reorder_inv(rows, orig, uns, bk, seen, seen_pos, count, key, sel_i, sel_seen, swapped, m, ps, u),
        uns.len() == 0 || count == uns.len(),
        known_values_without_gap(ps, u),
        s matches Some(si) ==> 0 <= si < orig.len() && key == Some(orig[si].name@),
    ensures
        forall|p: int| 0 <= p < orig.len() ==> match row_order(#[trigger] rows[p], m) {
            Some(v) => in_slots(ps, u, v as int, p) && rows[p].order.at == v,
            None => p >= known_total(ps, u),
        },
        rows == placed_rows(rows, m),
        rows.to_multiset() == placed_rows(orig, m).to_multiset(),
        s is Some ==> sel_seen,
        !swapped ==> rows == placed_rows(orig, m),
{
    broadcast use vstd::seq_lib::to_multiset_contains;
    let n = orig.len();
    let top = ps.len() as int;
    lemma_some_unseen(uns, seen_pos);
    assert forall|j: int| 0 <= j < uns.len() implies row_order(rows[#[trigger] uns[j] as int], m) is None by {
        assert(seen_pos.contains(uns[j]));
    }
    assert forall|p: int| 0 <= p < n implies #[trigger] rows[p] == placed(rows[p], m) by {
        lemma_placed(rows[p], m);
        if row_order(rows[p], m) is Some {
            assert((p as usize) as int == p);
            if uns.contains(p as usize) {
                let j = choose|j: int| 0 <= j < uns.len() && uns[j] == p as usize;
                assert(row_order(rows[uns[j] as int], m) is None);
            }
            assert(settled(rows[p], m, ps, u, p));
        }
    }
    assert(rows =~= placed_rows(rows, m));
    assert forall|j: int| 0 <= j < ps.len() && !u.contains(ps[j].0) implies ps[j].1 < top + 1 by {
        lemma_known_value_bound(ps, u, j);
        lemma_below_total(ps, u, 0);
    }
    lemma_below_total(ps, u, top + 1);
    lemma_below_total(ps, u, 0);
    assert forall|p: int| 0 <= p < n implies match row_order(#[trigger] rows[p], m) {
        Some(v) => in_slots(ps, u, v as int, p) && rows[p].order.at == v,
        None => p >= known_total(ps, u),
    } by {
        assert((p as usize) as int == p);
        lemma_placed(rows[p], m);
        if row_order(rows[p], m) is Some {
            if uns.contains(p as usize) {
                let j = choose|j: int| 0 <= j < uns.len() && uns[j] == p as usize;
                assert(row_order(rows[uns[j] as int], m) is None);
            }
            assert(settled(rows[p], m, ps, u, p));
        } else {
            if !uns.contains(p as usize) {
                assert(settled(rows[p], m, ps, u, p));
            }
            if p < known_total(ps, u) {
                lemma_find_slot(ps, u, p, 0, top);
                let x = choose|x: int| 0 <= x <= top && #[trigger] in_slots(ps, u, x, p);
                assert(bk[x].contains(p as usize));
                assert(uns_with(uns, rows, m, x) =~= Set::empty()) by {
                    assert forall|q: int| !uns_with(uns, rows, m, x).contains(q) by {
                        if 0 <= q < rows.len() && uns.contains(q as usize) {
                            let j = choose|j: int| 0 <= j < uns.len() && uns[j] == q as usize;
                            assert(row_order(rows[uns[j] as int], m) is None);
                        }
                    }
                }
                assert(bk[x].len() == uns_with(uns, rows, m, x).len());
            }
        }
    }
    if s is Some {
        let si = s->0;
        let k = key->0;
        let target = placed(orig[si], m);
        assert(placed_rows(orig, m)[si] == target);
        assert(placed_rows(orig, m).contains(target));
        assert(placed_rows(orig, m).to_multiset().count(target) > 0);
        assert(placed_rows(rows, m).to_multiset().count(target) > 0);
        assert(rows.to_multiset().count(target) > 0);
        assert(rows.contains(target));
        let p = choose|p: int| 0 <= p < rows.len() && rows[p] == target;
        lemma_placed(orig[si], m);
        assert(rows[p].name@ == k);
        assert((p as usize) as int == p);
        if uns.contains(p as usize) {
            let j = choose|j: int| 0 <= j < uns.len() && uns[j] == p as usize;
            assert(seen_pos.contains(uns[j]));
        }
    }
    if !swapped {
        assert forall|p: int| 0 <= p < n implies rows[p] == #[trigger] placed_rows(orig, m)[p] by {
            lemma_placed(orig[p], m);
            assert(rows[p] == placed(rows[p], m));
        }
        assert(rows =~= placed_rows(orig, m));
    }
}

/// The views of the places kept for each value.
spec fn bucket_views(b: Seq<Vec<usize>>) -> Seq<Seq<usize>> {
    b.map_values(|v: Vec<usize>| v@)
}

/// The name of the selected row, as text.
spec fn key_view(key: Option<String>) -> Option<Seq<char>> {
    match key {
        Some(k) => Some(k@),
        None => None,
    }
}

/// At the start every place is left to settle and the places kept for each value are
/// all open.
proof fn lemma_reorder_start(
    orig: Seq<ModEntry>, uns: Seq<usize>, bk: Seq<Seq<usize>>, key: Option<Seq<char>>,
    m: Map<Seq<char>, usize>, ps: Seq<(Seq<char>, usize)>, u: Set<Seq<char>>,
)
    requires
        orig.len() <= usize::MAX,
        uns == Seq::new(orig.len(), |j: int| j as usize),
        bk.len() == ps.len() + 1,
        forall|v: int| 0 <= v <= ps.len() ==> #[trigger] bk[v] == slot_seq(known_below(ps, u, v) as int, known_count(ps, u, v) as int),
        pairs_of(ps, m),
        keys_match(orig, m, u),
        unordered_names_distinct(orig, m),
        known_values_without_gap(ps, u),
    ensures
        reorder_inv(orig, orig, uns, bk, Set::empty(), Set::empty(), 0, key, 0, false, false, m, ps, u),
{
    let n = orig.len();
    let top = ps.len() as int;
    lemma_rows_count(orig, m, u, ps, 0);
    assert forall|x: usize| (x as int) < n implies #[trigger] uns.contains(x) by {
        assert(uns[x as int] == x);
    }
    assert forall|j: int| 0 <= j < uns.len() implies (#[trigger] uns[j]) < n by {}
    assert forall|v: int| 0 <= v <= top implies (#[trigger] bk[v]).no_duplicates() by {
        lemma_below_step(ps, u, v);
        lemma_below_total(ps, u, v + 1);
        assert forall|a: int, b: int| 0 <= a < bk[v].len() && 0 <= b < bk[v].len() && a != b implies bk[v][a] != bk[v][b] by {
            assert(bk[v][a] == (known_below(ps, u, v) + a) as usize);
            assert(bk[v][b] == (known_below(ps, u, v) + b) as usize);
        }
    }
    assert forall|v: int, x: usize| 0 <= v <= top implies (#[trigger] bk[v].contains(x) <==> in_slots(ps, u, v, x as int) && uns.contains(x)) by {
        lemma_below_step(ps, u, v);
        lemma_below_total(ps, u, v + 1);
        if in_slots(ps, u, v, x as int) {
            let k = x as int - known_below(ps, u, v);
            assert(bk[v][k] == x);
        }
        if bk[v].contains(x) {
            let k = choose|k: int| 0 <= k < bk[v].len() && bk[v][k] == x;
            assert(bk[v][k] == (known_below(ps, u, v) + k) as usize);
        }
    }
    assert forall|v: int| 0 <= v <= top implies #[trigger] uns_with(uns, orig, m, v).finite()
        && bk[v].len() == uns_with(uns, orig, m, v).len() by {
        lemma_rows_count(orig, m, u, ps, v);
        assert(uns_with(uns, orig, m, v) =~= rows_with(orig, m, v)) by {
            assert forall|p: int| 0 <= p < n implies #[trigger] uns.contains(p as usize) by {
                assert(uns[p] == p as usize);
            }
        }
    }
    assert forall|v: int| 0 <= v <= top implies (#[trigger] bk[v]).len() == uns_with(uns, orig, m, v).len() by {
        assert(uns_with(uns, orig, m, v).finite());
    }
    assert forall|p: int| 0 <= p < n && #[trigger] row_order(orig[p], m) is Some implies row_order(orig[p], m)->0 <= top by {
        let k = row_key(orig[p])->0;
        assert(!u.contains(k));
        let j = choose|j: int| 0 <= j < ps.len() && #[trigger] ps[j].0 == k;
        lemma_known_value_bound(ps, u, j);
        lemma_below_total(ps, u, 0);
    }
    assert(Set::<Seq<char>>::empty() =~= Set::<usize>::empty().map(|p: usize| orig[p as int].name@));
}

/// The load order `order_map` gives a row (`row_order`).
fn order_of_row(r: &ModEntry, order_map: &OrderMap) -> (o: Option<usize>)
    ensures
        o == row_order(*r, order_map.view()),
{
    if r.order.i < r.dll_files.len() {
        order_map.get(r.dll_files[r.order.i].as_str())
    } else {
        None
    }
}

/// `true` when `key` is the name of the row.
fn is_named(key: &Option<String>, r: &ModEntry) -> (b: bool)
    ensures
        b == (key_view(*key) matches Some(k) && r.name@ == k),
{
    match key {
        Some(k) => str_eq(r.name.as_str(), k.as_str()),
        None => false,
    }
}

/// The first index at which `v` holds `x`.
fn position_of(v: &Vec<usize>, x: usize) -> (r: Option<usize>)
    ensures
        match r {
            Some(k) => k < v@.len() && v@[k as int] == x,
            None => !v@.contains(x),
        },
{
    let mut k: usize = 0;
    while k < v.len()
        invariant
            k <= v@.len(),
            forall|j: int| 0 <= j < k ==> v@[j] != x,
        decreases v@.len() - k,
    {
        if v[k] == x {
            return Some(k);
        }
        k = k + 1;
    }
    None
}

/// Exchanges the rows at `a` and `b`.
fn swap_rows(rows: &mut Vec<ModEntry>, a: usize, b: usize)
    requires
        a < old(rows)@.len(),
        b < old(rows)@.len(),
        a != b,
    ensures
        final(rows)@ == old(rows)@.update(a as int, old(rows)@[b as int]).update(b as int, old(rows)@[a as int]),
{
    let mut tmp = ModEntry {
        displayname: String::new(),
        name: String::new(),
        enabled: false,
        files: Vec::new(),
        dll_files: Vec::new(),
        config_files: Vec::new(),
        order: LoadOrder { set: false, i: 0, at: 0 },
    };
    std::mem::swap(&mut rows[a], &mut tmp);
    std::mem::swap(&mut rows[b], &mut tmp);
    std::mem::swap(&mut rows[a], &mut tmp);
    assert(rows@ =~= old(rows)@.update(a as int, old(rows)@[b as int]).update(b as int, old(rows)@[a as int]));
}

/// `Sortable::update_order` of the list of mods: puts the rows in load order.
///
/// Nothing is done (`None`) when no key of `order_map` outside `unknown_orders` has a
/// value. Else every row whose file `order_map` gives a value shows that value and
/// sits in a place kept for it: the values take the places from the first on, lowest
/// first, as many places for a value as the map gives it; the rows without a value
/// come after. The result holds where the row named as the one at `selected_row` went,
/// and whether any two rows were exchanged.
pub fn update_order(rows: &mut Vec<ModEntry>, selected_row: Option<usize>, order_map: &OrderMap, unknown_orders: &StrSet)
    -> (r: Option<(Option<usize>, bool)>)
    requires
        selected_row matches Some(s) ==> s < old(rows)@.len(),
        order_map.pairs().len() < usize::MAX,
        keys_match(old(rows)@, order_map.view(), unknown_orders@),
        unordered_names_distinct(old(rows)@, order_map.view()),
        known_values_without_gap(order_map.pairs(), unknown_orders@),
    ensures
        r is None <==> known_total(order_map.pairs(), unknown_orders@) == 0,
        r is None ==> final(rows)@ == old(rows)@,
        r matches Some((sel, swapped)) ==> {
            let m = order_map.view();
            let ps = order_map.pairs();
            let u = unknown_orders@;
            &&& final(rows)@.len() == old(rows)@.len()
            &&& final(rows)@.to_multiset() == placed_rows(old(rows)@, m).to_multiset()
            &&& forall|p: int| 0 <= p < final(rows)@.len() ==> match row_order(#[trigger] final(rows)@[p], m) {
                Some(v) => in_slots(ps, u, v as int, p) && final(rows)@[p].order.at == v,
                None => p >= known_total(ps, u),
            }
            &&& match selected_row {
                Some(s) => sel matches Some(j) && j < final(rows)@.len()
                    && final(rows)@[j as int].name@ == old(rows)@[s as int].name@,
                None => sel is None,
            }
            &&& !swapped ==> final(rows)@ == placed_rows(old(rows)@, m)
        },
{
    let ghost m = order_map.view();
    let ghost ps = order_map.pairs();
    let ghost u = unknown_orders@;
    let ghost orig = rows@;
    let len = order_map.len();
    proof {
        lemma_below_total(ps, u, 0);
    }
    if len == 0 {
        return None;
    }
    let selected_key: Option<String> = match selected_row {
        Some(row) => Some(rows[row].name.clone()),
        None => None,
    };
    let entries = order_map.entries();
    assert(pairs_view(entries@) == ps);
    assert(pairs_of(ps, m));
    assert forall|j: int| 0 <= j < entries@.len() && !u.contains(#[trigger] entries@[j].0@) implies entries@[j].1 <= entries@.len() by {
        assert(ps[j] == (entries@[j].0@, entries@[j].1));
        lemma_known_value_bound(ps, u, j);
        lemma_below_total(ps, u, 0);
    }
    let counts = count_orders(entries, unknown_orders);
    // the number of known entries
    let mut total: usize = 0;
    let mut v: usize = 0;
    while v < counts.len()
        invariant
            counts@.len() == len + 1,
            len == ps.len() < usize::MAX,
            forall|w: int| 0 <= w <= len ==> #[trigger] counts@[w] == known_count(ps, u, w),
            v <= counts@.len(),
            total == known_below(ps, u, v as int),
        decreases counts@.len() - v,
    {
        proof {
            lemma_below_step(ps, u, v as int);
            lemma_below_total(ps, u, v + 1);
        }
        total = total + counts[v];
        v = v + 1;
    }
    proof {
        assert forall|j: int| 0 <= j < ps.len() && !u.contains(ps[j].0) implies ps[j].1 < len + 1 by {
            lemma_known_value_bound(ps, u, j);
            lemma_below_total(ps, u, 0);
        }
        lemma_below_total(ps, u, len + 1);
    }
    if total == 0 {
        return None;
    }
    let mut buckets = placement_rows(&counts, Ghost(ps), Ghost(u));
    let n = rows.len();
    let mut unsorted: Vec<usize> = Vec::new();
    let mut k: usize = 0;
    while k < n
        invariant
            n == rows@.len(),
            k <= n,
            unsorted@ == Seq::new(k as nat, |j: int| j as usize),
        decreases n - k,
    {
        unsorted.push(k);
        assert(unsorted@ =~= Seq::new((k + 1) as nat, |j: int| j as usize));
        k = k + 1;
    }
    let mut i: usize = 0;
    let mut selected_i: usize = 0;
    let mut no_order_count: usize = 0;
    let mut row_swapped = false;
    let mut seen = StrSet::new();
    let ghost mut seen_pos: Set<usize> = Set::empty();
    let ghost mut sel_seen = false;
    proof {
        assert(bucket_views(buckets@).len() == ps.len() + 1);
        assert forall|w: int| 0 <= w <= ps.len() implies #[trigger] bucket_views(buckets@)[w]
            == slot_seq(known_below(ps, u, w) as int, known_count(ps, u, w) as int) by {
            assert(bucket_views(buckets@)[w] == buckets@[w]@);
        }
        lemma_reorder_start(orig, unsorted@, bucket_views(buckets@), key_view(selected_key), m, ps, u);
    }
    while unsorted.len() > 0 && no_order_count != unsorted.len()
        invariant
            reorder_inv(rows@, orig, unsorted@, bucket_views(buckets@), seen@, seen_pos, no_order_count as int,
                key_view(selected_key), selected_i as int, sel_seen, row_swapped, m, ps, u),
            i <= unsorted@.len(),
            m == order_map.view(),
            ps == order_map.pairs(),
            u == unknown_orders@,
            match selected_row {
                Some(s) => s < orig.len() && key_view(selected_key) == Some(orig[s as int].name@),
                None => selected_key is None,
            },
        decreases unsorted@.len() - no_order_count, cyc(quals(unsorted@, seen_pos), if i >= unsorted@.len() { 0 } else { i as int }),
    {
        if i >= unsorted.len() {
            i = 0;
        }
        let ghost rows0 = rows@;
        let ghost uns0 = unsorted@;
        let ghost bk0 = bucket_views(buckets@);
        let ghost seen0 = seen@;
        let ghost sp0 = seen_pos;
        let ghost count0 = no_order_count as int;
        let ghost sel_i0 = selected_i as int;
        let ghost sel_seen0 = sel_seen;
        let ghost swapped0 = row_swapped;
        let ghost key = key_view(selected_key);
        let ghost ii = i as int;
        proof {
            lemma_some_unseen(uns0, sp0);
        }
        let ui = unsorted[i];
        assert(uns0.contains(ui));
        match order_of_row(&rows[ui], order_map) {
            Some(v) => {
                proof {
                    assert(row_order(rows0[ui as int], m) is Some);
                    assert(v <= ps.len());
                }
                match position_of(&buckets[v], ui) {
                    Some(index) => {
                        proof {
                            assert(bk0[v as int] == buckets@[v as int]@);
                            lemma_finalize(rows0, orig, uns0, bk0, seen0, sp0, count0, key, sel_i0, sel_seen0, swapped0,
                                m, ps, u, ii, index as int);
                        }
                        if is_named(&selected_key, &rows[ui]) {
                            selected_i = ui;
                            proof {
                                sel_seen = true;
                            }
                        }
                        if rows[ui].order.at != v {
                            rows[ui].order.at = v;
                        }
                        buckets[v].remove(index);
                        unsorted.swap_remove(i);
                        proof {
                            assert(rows@ =~= rows0.update(ui as int, placed(rows0[ui as int], m)));
                            assert(bucket_views(buckets@) =~= bk0.update(v as int, bk0[v as int].remove(index as int)));
                            lemma_some_unseen(unsorted@, seen_pos);
                        }
                    },
                    None => {
                        proof {
                            assert(bk0[v as int] == buckets@[v as int]@);
                            lemma_bucket_open(rows0, orig, uns0, bk0, seen0, sp0, count0, key, sel_i0, sel_seen0, swapped0,
                                m, ps, u, ii);
                        }
                        let swap_i = buckets[v].remove(0);
                        let found_i = match position_of(&unsorted, swap_i) {
                            Some(f) => f,
                            None => unreached(),
                        };
                        proof {
                            lemma_swap(rows0, orig, uns0, bk0, seen0, sp0, count0, key, sel_i0, sel_seen0, swapped0,
                                m, ps, u, ii, found_i as int);
                        }
                        let swap_named = is_named(&selected_key, &rows[swap_i]);
                        let curr_named = is_named(&selected_key, &rows[ui]);
                        if swap_named {
                            selected_i = ui;
                        } else if curr_named {
                            selected_i = swap_i;
                        }
                        proof {
                            sel_seen = sel_seen || swap_named || curr_named;
                            if seen_pos.contains(swap_i) {
                                seen_pos = seen_pos.remove(swap_i).insert(ui);
                            }
                        }
                        if rows[ui].order.at != v {
                            rows[ui].order.at = v;
                        }
                        swap_rows(rows, ui, swap_i);
                        row_swapped = true;
                        unsorted.swap_remove(found_i);
                        proof {
                            assert(rows@ =~= rows0.update(ui as int, rows0[swap_i as int]).update(swap_i as int, placed(rows0[ui as int], m)));
                            assert(bucket_views(buckets@) =~= bk0.update(v as int, bk0[v as int].remove(0)));
                            lemma_some_unseen(unsorted@, seen_pos);
                        }
                    },
                }
            },
            None => {
                proof {
                    lemma_visit(rows0, orig, uns0, bk0, seen0, sp0, count0, key, sel_i0, sel_seen0, swapped0, m, ps, u, ii);
                }
                if is_named(&selected_key, &rows[ui]) {
                    selected_i = ui;
                    proof {
                        sel_seen = true;
                    }
                }
                if seen.insert(rows[ui].name.as_str()) {
                    proof {
                        seen_pos = seen_pos.insert(ui);
                    }
                    no_order_count = no_order_count + 1;
                    proof {
                        lemma_some_unseen(unsorted@, seen_pos);
                    }
                } else {
                    proof {
                        let j = choose|j: int| 0 <= j < uns0.len() && !sp0.contains(uns0[j]);
                        lemma_cyc_step(quals(uns0, sp0), ii, j);
                    }
                }
                i = i + 1;
            },
        }
    }
    proof {
        let s = match selected_row {
            Some(x) => Some(x as int),
            None => None,
        };
        lemma_reorder_done(rows@, orig, unsorted@, bucket_views(buckets@), seen@, seen_pos, no_order_count as int,
            key_view(selected_key), selected_i as int, sel_seen, row_swapped, m, ps, u, s);
    }
    let sel = match selected_row {
        Some(_) => Some(selected_i),
        None => None,
    };
    Some((sel, row_swapped))
}

} // verus!
