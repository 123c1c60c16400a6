//! Windows-style paths held as text.
//!
//! A path is the text of a Windows path, in which both `\` and `/` separate the
//! parts.  The operations follow `std::path` on Windows for paths made of plain
//! parts: a part is a maximal run of non-separator characters, and joining writes `\`.
use vstd::prelude::*;
use crate::text::{chars_of, concat, copy_str, str_eq, string_of};

verus! {

/// `true` for the two Windows path separators.
pub open spec fn is_sep(c: char) -> bool {
    c == '\\' || c == '/'
}

/// `s` without its trailing separators.
pub open spec fn trim_end_seps(s: Seq<char>) -> Seq<char>
    decreases s.len(),
{
    if s.len() > 0 && is_sep(s.last()) {
        trim_end_seps(s.drop_last())
    } else {
        s
    }
}

/// The position just after the last separator of `s` (0 when there is none).
pub open spec fn seg_start(s: Seq<char>) -> int
    decreases s.len(),
{
    if s.len() == 0 {
        0
    } else if is_sep(s.last()) {
        s.len() as int
    } else {
        seg_start(s.drop_last())
    }
}

/// The last part of `s` (empty when `s` has no parts).
pub open spec fn last_part(s: Seq<char>) -> Seq<char> {
    let t = trim_end_seps(s);
    t.subrange(seg_start(t), t.len() as int)
}

/// `Path::file_name`: the last part, unless there is none or it is `..`.
pub open spec fn file_name_spec(s: Seq<char>) -> Option<Seq<char>> {
    let l = last_part(s);
    if l.len() == 0 || l == seq!['.', '.'] {
        None
    } else {
        Some(l)
    }
}

/// `PathBuf::set_file_name`: the last part is replaced by `name` when there is a file
/// name, else `name` is pushed.
pub open spec fn set_file_name_spec(s: Seq<char>, name: Seq<char>) -> Seq<char> {
    if file_name_spec(s) is Some {
        let t = trim_end_seps(s);
        t.subrange(0, seg_start(t)) + name
    } else {
        push_spec(s, name)
    }
}

/// `true` when `p` is absolute or names a drive (`\x`, `/x` or `C:x`).
pub open spec fn is_rooted(p: Seq<char>) -> bool {
    (p.len() > 0 && is_sep(p[0])) || (p.len() > 1 && p[1] == ':')
}

/// `PathBuf::push` (and `Path::join`): a rooted `p` replaces `s`, else `p` is
/// appended after a `\` when `s` does not already end in a separator.
pub open spec fn push_spec(s: Seq<char>, p: Seq<char>) -> Seq<char> {
    if is_rooted(p) || s.len() == 0 {
        p
    } else if is_sep(s.last()) {
        s + p
    } else {
        s + seq!['\\'] + p
    }
}

/// `Path::parent`: the path without its last part and the separators before it;
/// a lone root separator is kept.  `None` when there is no part.
pub open spec fn parent_spec(s: Seq<char>) -> Option<Seq<char>> {
    let t = trim_end_seps(s);
    if last_part(s).len() == 0 {
        None
    } else {
        let pre = t.subrange(0, seg_start(t));
        let q = trim_end_seps(pre);
        if q.len() == 0 && pre.len() > 0 {
            Some(pre.subrange(0, 1))
        } else {
            Some(q)
        }
    }
}

/// The parts of `s[i..]`, given the part `cur` being read and the parts `acc` already read.
pub open spec fn parts_from(s: Seq<char>, i: int, cur: Seq<char>, acc: Seq<Seq<char>>) -> Seq<Seq<char>>
    decreases s.len() - i,
{
    if i >= s.len() {
        if cur.len() > 0 {
            acc.push(cur)
        } else {
            acc
        }
    } else if is_sep(s[i]) {
        parts_from(s, i + 1, Seq::empty(), if cur.len() > 0 { acc.push(cur) } else { acc })
    } else {
        parts_from(s, i + 1, cur.push(s[i]), acc)
    }
}

/// The parts of a path: its maximal runs of non-separator characters (`Path::components`).
pub open spec fn parts(s: Seq<char>) -> Seq<Seq<char>> {
    parts_from(s, 0, Seq::empty(), Seq::empty())
}

/// The parts `ps` written with `\` between them.
pub open spec fn join_parts(ps: Seq<Seq<char>>) -> Seq<char>
    decreases ps.len(),
{
    if ps.len() == 0 {
        Seq::empty()
    } else if ps.len() == 1 {
        ps[0]
    } else {
        join_parts(ps.drop_last()) + seq!['\\'] + ps.last()
    }
}

/// `Path::strip_prefix`: when the parts of `base` begin the parts of `p`, the
/// remaining parts of `p`.
pub open spec fn strip_prefix_spec(p: Seq<char>, base: Seq<char>) -> Option<Seq<char>> {
    let pp = parts(p);
    let bp = parts(base);
    if bp.len() <= pp.len() && pp.subrange(0, bp.len() as int) == bp {
        Some(join_parts(pp.subrange(bp.len() as int, pp.len() as int)))
    } else {
        None
    }
}

/// `Path::ends_with`: the parts of `child` end the parts of `p`.
pub open spec fn ends_with_spec(p: Seq<char>, child: Seq<char>) -> bool {
    let pp = parts(p);
    let cp = parts(child);
    cp.len() <= pp.len() && pp.subrange(pp.len() - cp.len(), pp.len() as int) == cp
}

fn is_sep_char(c: char) -> (r: bool)
    ensures
        r == is_sep(c),
{
    c == '\\' || c == '/'
}

/// The length of `v[..n]` without its trailing separators.
fn trim_end_len(v: &Vec<char>, n: usize) -> (m: usize)
    requires
        n <= v@.len(),
    ensures
        m <= n,
        v@.subrange(0, m as int) == trim_end_seps(v@.subrange(0, n as int)),
{
    let mut m = n;
    while m > 0 && is_sep_char(v[m - 1])
        invariant
            m <= n <= v@.len(),
            trim_end_seps(v@.subrange(0, m as int)) == trim_end_seps(v@.subrange(0, n as int)),
        decreases m,
    {
        assert(v@.subrange(0, m as int).drop_last() =~= v@.subrange(0, m - 1));
        m = m - 1;
    }
    m
}

/// The start of the last segment of `v[..n]`.
fn seg_start_exec(v: &Vec<char>, n: usize) -> (k: usize)
    requires
        n <= v@.len(),
    ensures
        k <= n,
        k as int == seg_start(v@.subrange(0, n as int)),
{
    let mut k = n;
    while k > 0 && !is_sep_char(v[k - 1])
        invariant
            k <= n <= v@.len(),
            seg_start(v@.subrange(0, k as int)) == seg_start(v@.subrange(0, n as int)),
        decreases k,
    {
        assert(v@.subrange(0, k as int).drop_last() =~= v@.subrange(0, k - 1));
        k = k - 1;
    }
    k
}

/// `Path::file_name`.
pub fn file_name(s: &str) -> (r: Option<String>)
    ensures
        match r {
            Some(f) => file_name_spec(s@) == Some(f@),
            None => file_name_spec(s@) is None,
        },
{
    let v = chars_of(s);
    let n = v.len();
    assert(v@.subrange(0, n as int) =~= s@);
    let m = trim_end_len(&v, n);
    let k = seg_start_exec(&v, m);
    let ghost t = trim_end_seps(s@);
    assert(t =~= v@.subrange(0, m as int));
    assert(v@.subrange(0, m as int).subrange(k as int, m as int) =~= v@.subrange(k as int, m as int));
    if k == m || (m - k == 2 && v[k] == '.' && v[k + 1] == '.') {
        proof {
            if k != m {
                assert(last_part(s@) =~= seq!['.', '.']);
            }
        }
        None
    } else {
        let f = string_of(&v, k, m);
        proof {
            if last_part(s@) == seq!['.', '.'] {
                assert(last_part(s@)[0] == v@[k as int]);
                assert(last_part(s@)[1] == v@[k + 1]);
            }
        }
        Some(f)
    }
}

/// `PathBuf::push`: see `push_spec`.
pub fn push_path(s: &str, p: &str) -> (r: String)
    ensures
        r@ == push_spec(s@, p@),
{
    let pl = p.unicode_len();
    let sl = s.unicode_len();
    let rooted = (pl > 0 && is_sep_char(p.get_char(0))) || (pl > 1 && p.get_char(1) == ':');
    if rooted || sl == 0 {
        copy_str(p)
    } else if is_sep_char(s.get_char(sl - 1)) {
        concat(s, p)
    } else {
        let mut r = copy_str(s);
        r.push('\\');
        r.append(p);
        r
    }
}

/// `PathBuf::set_file_name`: see `set_file_name_spec`.
pub fn set_file_name(s: &str, name: &str) -> (r: String)
    ensures
        r@ == set_file_name_spec(s@, name@),
{
    match file_name(s) {
        Some(_) => {
            let v = chars_of(s);
            let n = v.len();
            assert(v@.subrange(0, n as int) =~= s@);
            let m = trim_end_len(&v, n);
            let k = seg_start_exec(&v, m);
            let mut r = string_of(&v, 0, k);
            r.append(name);
            assert(v@.subrange(0, m as int).subrange(0, k as int) =~= v@.subrange(0, k as int));
            r
        },
        None => push_path(s, name),
    }
}

/// `Path::parent`: see `parent_spec`.
pub fn parent(s: &str) -> (r: Option<String>)
    ensures
        match r {
            Some(p) => parent_spec(s@) == Some(p@),
            None => parent_spec(s@) is None,
        },
{
    let v = chars_of(s);
    let n = v.len();
    assert(v@.subrange(0, n as int) =~= s@);
    let m = trim_end_len(&v, n);
    let k = seg_start_exec(&v, m);
    let ghost t = trim_end_seps(s@);
    assert(t =~= v@.subrange(0, m as int));
    assert(v@.subrange(0, m as int).subrange(k as int, m as int) =~= v@.subrange(k as int, m as int));
    if k == m {
        return None;
    }
    assert(v@.subrange(0, m as int).subrange(0, k as int) =~= v@.subrange(0, k as int));
    let q = trim_end_len(&v, k);
    if q == 0 && k > 0 {
        assert(v@.subrange(0, k as int).subrange(0, 1) =~= v@.subrange(0, 1));
        Some(string_of(&v, 0, 1))
    } else {
        Some(string_of(&v, 0, q))
    }
}

/// The parts of `s` (see `parts`).
pub fn split_parts(s: &str) -> (r: Vec<String>)
    ensures
        r@.map_values(|x: String| x@) == parts(s@),
{
    let v = chars_of(s);
    let n = v.len();
    let mut acc: Vec<String> = Vec::new();
    let mut cur = String::new();
    let mut i: usize = 0;
    assert(acc@.map_values(|x: String| x@) =~= Seq::<Seq<char>>::empty());
    assert(cur@ =~= Seq::<char>::empty());
    while i < n
        invariant
            v@ == s@,
            n == s@.len(),
            i <= n,
            parts_from(s@, i as int, cur@, acc@.map_values(|x: String| x@)) == parts(s@),
        decreases n - i,
    {
        let c = v[i];
        if is_sep_char(c) {
            if cur.unicode_len() > 0 {
                let ghost before = acc@.map_values(|x: String| x@);
                acc.push(cur);
                assert(acc@.map_values(|x: String| x@) =~= before.push(cur@));
            }
            cur = String::new();
        } else {
            cur.push(c);
        }
        i = i + 1;
    }
    if cur.unicode_len() > 0 {
        let ghost before = acc@.map_values(|x: String| x@);
        acc.push(cur);
        assert(acc@.map_values(|x: String| x@) =~= before.push(cur@));
    }
    acc
}

/// The parts `ps[from..to]` written with `\` between them.
fn join_parts_exec(ps: &Vec<String>, from: usize, to: usize) -> (r: String)
    requires
        from <= to <= ps@.len(),
    ensures
        r@ == join_parts(ps@.map_values(|x: String| x@).subrange(from as int, to as int)),
{
    let mut r = String::new();
    let mut i = from;
    while i < to
        invariant
            from <= i <= to <= ps@.len(),
            r@ == join_parts(ps@.map_values(|x: String| x@).subrange(from as int, i as int)),
        decreases to - i,
    {
        let ghost pre = ps@.map_values(|x: String| x@).subrange(from as int, i as int);
        let ghost nxt = ps@.map_values(|x: String| x@).subrange(from as int, i + 1);
        assert(nxt.drop_last() =~= pre);
        if i > from {
            r.push('\\');
        }
        r.append(ps[i].as_str());
        i = i + 1;
    }
    r
}

/// `true` when the parts `a[..k]` are `b[..k]`.
fn parts_prefix_eq(a: &Vec<String>, b: &Vec<String>, k: usize) -> (r: bool)
    requires
        k <= a@.len(),
        k <= b@.len(),
    ensures
        r == (a@.map_values(|x: String| x@).subrange(0, k as int) == b@.map_values(|x: String| x@).subrange(0, k as int)),
{
    let ghost av = a@.map_values(|x: String| x@);
    let ghost bv = b@.map_values(|x: String| x@);
    let mut i: usize = 0;
    while i < k
        invariant
            i <= k <= a@.len(),
            k <= b@.len(),
            av == a@.map_values(|x: String| x@),
            bv == b@.map_values(|x: String| x@),
            forall|j: int| 0 <= j < i ==> av[j] == bv[j],
        decreases k - i,
    {
        if !str_eq(a[i].as_str(), b[i].as_str()) {
            assert(av.subrange(0, k as int)[i as int] != bv.subrange(0, k as int)[i as int]);
            return false;
        }
        i = i + 1;
    }
    assert(av.subrange(0, k as int) =~= bv.subrange(0, k as int));
    true
}

/// `Path::strip_prefix`: see `strip_prefix_spec`.
pub fn strip_prefix(p: &str, base: &str) -> (r: Option<String>)
    ensures
        match r {
            Some(x) => strip_prefix_spec(p@, base@) == Some(x@),
            None => strip_prefix_spec(p@, base@) is None,
        },
{
    let pp = split_parts(p);
    let bp = split_parts(base);
    if bp.len() > pp.len() {
        return None;
    }
    if !parts_prefix_eq(&pp, &bp, bp.len()) {
        assert(bp@.map_values(|x: String| x@).subrange(0, bp@.len() as int) =~= bp@.map_values(|x: String| x@));
        return None;
    }
    assert(bp@.map_values(|x: String| x@).subrange(0, bp@.len() as int) =~= bp@.map_values(|x: String| x@));
    Some(join_parts_exec(&pp, bp.len(), pp.len()))
}

/// `Path::ends_with`: see `ends_with_spec`.
pub fn ends_with(p: &str, child: &str) -> (r: bool)
    ensures
        r == ends_with_spec(p@, child@),
{
    let pp = split_parts(p);
    let cp = split_parts(child);
    if cp.len() > pp.len() {
        return false;
    }
    let off = pp.len() - cp.len();
    let ghost pv = pp@.map_values(|x: String| x@);
    let ghost cv = cp@.map_values(|x: String| x@);
    let mut i: usize = 0;
    while i < cp.len()
        invariant
            off + cp@.len() == pp@.len(),
            pp@.len() <= usize::MAX,
            i <= cp@.len(),
            pv == pp@.map_values(|x: String| x@),
            cv == cp@.map_values(|x: String| x@),
            pv == parts(p@),
            cv == parts(child@),
            forall|j: int| 0 <= j < i ==> pv[off + j] == cv[j],
        decreases cp@.len() - i,
    {
        if !str_eq(pp[off + i].as_str(), cp[i].as_str()) {
            assert(pv.subrange(off as int, pv.len() as int)[i as int] == pv[off + i]);
            assert(pv.subrange(off as int, pv.len() as int)[i as int] != cv[i as int]);
            return false;
        }
        i = i + 1;
    }
    assert(pv.subrange(off as int, pv.len() as int) =~= cv);
    true
}

/// Where the last segment of `s` starts, and that a separator stands before it.
pub(crate) proof fn lemma_seg_start_bounds(s: Seq<char>)
    ensures
        0 <= seg_start(s) <= s.len(),
        seg_start(s) > 0 ==> is_sep(s[seg_start(s) - 1]),
    decreases s.len(),
{
    if s.len() > 0 && !is_sep(s.last()) {
        lemma_seg_start_bounds(s.drop_last());
        if seg_start(s) > 0 {
            assert(s[seg_start(s) - 1] == s.drop_last()[seg_start(s) - 1]);
        }
    }
}

/// Dropping trailing separators never lengthens a path.
proof fn lemma_trim_end_len(s: Seq<char>)
    ensures
        trim_end_seps(s).len() <= s.len(),
    decreases s.len(),
{
    if s.len() > 0 && is_sep(s.last()) {
        lemma_trim_end_len(s.drop_last());
    }
}

/// A parent is shorter than its path.
pub proof fn lemma_parent_shorter(s: Seq<char>)
    ensures
        parent_spec(s) matches Some(a) ==> a.len() < s.len(),
{
    let t = trim_end_seps(s);
    lemma_trim_end_len(s);
    lemma_seg_start_bounds(t);
    let pre = t.subrange(0, seg_start(t));
    lemma_trim_end_len(pre);
}

/// `true` when `a` and `b` have the same parts (`Path`'s `==`).
pub fn same_parts(a: &str, b: &str) -> (r: bool)
    ensures
        r == (parts(a@) == parts(b@)),
{
    let ap = split_parts(a);
    let bp = split_parts(b);
    if ap.len() != bp.len() {
        assert(ap@.map_values(|x: String| x@).len() != bp@.map_values(|x: String| x@).len());
        return false;
    }
    let r = parts_prefix_eq(&ap, &bp, ap.len());
    assert(ap@.map_values(|x: String| x@).subrange(0, ap@.len() as int) =~= ap@.map_values(|x: String| x@));
    assert(bp@.map_values(|x: String| x@).subrange(0, ap@.len() as int) =~= bp@.map_values(|x: String| x@));
    r
}

/// How many parents `Path::parent` finds one after another from `s`: the number of
/// `Path::ancestors` of `s` less one (`s` itself).
pub open spec fn parent_chain(s: Seq<char>) -> nat
    decreases s.len(),
{
    match parent_spec(s) {
        Some(p) => {
            proof {
                lemma_parent_shorter(s);
            }
            if p.len() < s.len() { 1 + parent_chain(p) } else { 0 }
        },
        None => 0,
    }
}

proof fn lemma_parent_chain_bound(s: Seq<char>)
    ensures
        parent_chain(s) <= s.len(),
        parent_spec(s) matches Some(p) ==> parent_chain(s) == 1 + parent_chain(p),
    decreases s.len(),
{
    lemma_parent_shorter(s);
    if let Some(p) = parent_spec(s) {
        lemma_parent_chain_bound(p);
    }
}

/// the number of ancestors of the path `s` (`Path::ancestors().count()`) less one
pub fn parent_count(s: &str) -> (n: usize)
    ensures
        n == parent_chain(s@),
{
    let mut n: usize = 0;
    let len = s.unicode_len();
    let mut cur: String = copy_str(s);
    proof {
        lemma_parent_chain_bound(s@);
    }
    loop
        invariant
            n + parent_chain(cur@) == parent_chain(s@),
            parent_chain(s@) <= s@.len(),
            s@.len() == len,
        decreases cur@.len(),
    {
        proof {
            lemma_parent_chain_bound(cur@);
            lemma_parent_shorter(cur@);
        }
        match parent(cur.as_str()) {
            Some(p) => {
                n = n + 1;
                cur = p;
            },
            None => {
                return n;
            },
        }
    }
}

/// `Iterator::min_by_key` over the number of ancestors: the index of the first path
/// with the fewest ancestors, `None` for no paths
pub fn fewest_ancestors(paths: &[String]) -> (r: Option<usize>)
    ensures
        match r {
            None => paths@.len() == 0,
            Some(i) => i < paths@.len()
                && (forall|j: int| 0 <= j < paths@.len() ==> parent_chain(paths@[i as int]@) <= parent_chain(#[trigger] paths@[j]@))
                && (forall|j: int| 0 <= j < i ==> parent_chain(paths@[i as int]@) < parent_chain(#[trigger] paths@[j]@)),
        },
{
    if paths.len() == 0 {
        return None;
    }
    let mut best: usize = 0;
    let mut best_n = parent_count(paths[0].as_str());
    let mut j: usize = 1;
    while j < paths.len()
        invariant
            1 <= j <= paths@.len(),
            best < j,
            best_n == parent_chain(paths@[best as int]@),
            forall|k: int| 0 <= k < j ==> parent_chain(paths@[best as int]@) <= parent_chain(#[trigger] paths@[k]@),
            forall|k: int| 0 <= k < best ==> parent_chain(paths@[best as int]@) < parent_chain(#[trigger] paths@[k]@),
        decreases paths@.len() - j,
    {
        let c = parent_count(paths[j].as_str());
        if c < best_n {
            best = j;
            best_n = c;
        }
        j = j + 1;
    }
    Some(best)
}

} // verus!
