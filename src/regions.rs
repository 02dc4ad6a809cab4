//! Half-open spans of character offsets, the canonical merge of a list of
//! them, and removal of merged spans from a text.
use vstd::prelude::*;
use vstd::string::*;

verus! {

/// A span `[start, end)` of character offsets.
pub type Region = (usize, usize);

/// Every region starts no later than it ends.
pub open spec fn well_formed(rs: Seq<Region>) -> bool {
    forall|i: int| 0 <= i < rs.len() ==> #[trigger] rs[i].0 <= rs[i].1
}

/// Well formed, in increasing order, and no region touches or overlaps a later one.
pub open spec fn separated(rs: Seq<Region>) -> bool {
    &&& well_formed(rs)
    &&& forall|i: int, j: int| 0 <= i < j < rs.len() ==> #[trigger] rs[i].1 < #[trigger] rs[j].0
}

/// Whether the closed span of `r`, measured in half steps, holds the point `k`.
/// Half steps tell two regions that touch (`(0, 2)`, `(2, 4)`) from two that
/// leave a gap (`(0, 2)`, `(3, 4)`), and make an empty region hold its one point.
pub open spec fn spans(r: Region, k: int) -> bool {
    2 * r.0 <= k <= 2 * r.1
}

/// Whether some region of `rs` holds the half-step point `k`.
pub open spec fn covers(rs: Seq<Region>, k: int) -> bool {
    exists|i: int| 0 <= i < rs.len() && #[trigger] spans(rs[i], k)
}

/// Two lists hold the same points.
pub open spec fn same_cover(a: Seq<Region>, b: Seq<Region>) -> bool {
    forall|k: int| #![trigger covers(a, k)] #![trigger covers(b, k)] covers(a, k) == covers(b, k)
}

/// Adds one region to a separated list, fusing it with every region it
/// touches or overlaps.
pub open spec fn add_region(m: Seq<Region>, r: Region) -> Seq<Region>
    decreases m.len(),
{
    if m.len() == 0 {
        seq![r]
    } else if r.1 < m[0].0 {
        seq![r] + m
    } else if m[0].1 < r.0 {
        seq![m[0]] + add_region(m.drop_first(), r)
    } else {
        let lo = if m[0].0 <= r.0 { m[0].0 } else { r.0 };
        let hi = if m[0].1 >= r.1 { m[0].1 } else { r.1 };
        add_region(m.drop_first(), (lo, hi))
    }
}

/// The merge of a list of regions: each region added in turn to the merge of
/// those before it.
pub open spec fn merged(rs: Seq<Region>) -> Seq<Region>
    decreases rs.len(),
{
    if rs.len() == 0 {
        Seq::empty()
    } else {
        add_region(merged(rs.drop_last()), rs.last())
    }
}

proof fn lemma_covers_tail(a: Seq<Region>, k: int)
    requires
        separated(a),
        a.len() > 0,
    ensures
        covers(a.drop_first(), k) == (covers(a, k) && k > 2 * a[0].1),
{
    if covers(a.drop_first(), k) {
        let i = choose|i: int| 0 <= i < a.len() - 1 && #[trigger] spans(a.drop_first()[i], k);
        assert(spans(a[i + 1], k));
        assert(a[0].1 < a[i + 1].0);
    }
    if covers(a, k) && k > 2 * a[0].1 {
        let i = choose|i: int| 0 <= i < a.len() && #[trigger] spans(a[i], k);
        assert(i != 0);
        assert(spans(a.drop_first()[i - 1], k));
    }
}

proof fn lemma_covers_first(a: Seq<Region>, j: int)
    requires
        well_formed(a),
        0 <= j < a.len(),
    ensures
        covers(a, 2 * a[j].0),
        covers(a, 2 * a[j].1),
{
    assert(spans(a[j], 2 * a[j].0));
    assert(spans(a[j], 2 * a[j].1));
}

/// A separated list is fixed by the points it holds.
pub proof fn lemma_separated_unique(a: Seq<Region>, b: Seq<Region>)
    requires
        separated(a),
        separated(b),
        same_cover(a, b),
    ensures
        a == b,
    decreases a.len(),
{
    if a.len() == 0 {
        if b.len() > 0 {
            lemma_covers_first(b, 0);
            assert(covers(a, 2 * b[0].0));
        }
        assert(a =~= b);
    } else if b.len() == 0 {
        lemma_covers_first(a, 0);
        assert(covers(b, 2 * a[0].0));
    } else {
        lemma_covers_first(a, 0);
        lemma_covers_first(b, 0);
        assert(covers(b, 2 * a[0].0));
        assert(covers(a, 2 * b[0].0));
        let ja = choose|i: int| 0 <= i < a.len() && #[trigger] spans(a[i], 2 * b[0].0);
        let jb = choose|i: int| 0 <= i < b.len() && #[trigger] spans(b[i], 2 * a[0].0);
        assert(a[0].0 <= a[ja].0);
        assert(b[0].0 <= b[jb].0);
        assert(a[0].0 == b[0].0);
        if a[0].1 < b[0].1 {
            let k = 2 * a[0].1 + 1;
            assert(spans(b[0], k));
            assert(covers(a, k));
            let i = choose|i: int| 0 <= i < a.len() && #[trigger] spans(a[i], k);
            assert(i != 0);
            assert(a[0].1 < a[i].0);
        }
        if b[0].1 < a[0].1 {
            let k = 2 * b[0].1 + 1;
            assert(spans(a[0], k));
            assert(covers(b, k));
            let i = choose|i: int| 0 <= i < b.len() && #[trigger] spans(b[i], k);
            assert(i != 0);
            assert(b[0].1 < b[i].0);
        }
        assert(a[0] == b[0]);
        assert forall|k: int| covers(a.drop_first(), k) == covers(b.drop_first(), k) by {
            lemma_covers_tail(a, k);
            lemma_covers_tail(b, k);
        }
        lemma_separated_unique(a.drop_first(), b.drop_first());
        assert(a =~= seq![a[0]] + a.drop_first());
        assert(b =~= seq![b[0]] + b.drop_first());
    }
}

/// Adding a region keeps the list separated and adds exactly the region's points.
pub proof fn lemma_add_region(m: Seq<Region>, r: Region)
    requires
        separated(m),
        r.0 <= r.1,
    ensures
        separated(add_region(m, r)),
        forall|k: int| #[trigger] covers(add_region(m, r), k) == (covers(m, k) || spans(r, k)),
    decreases m.len(),
{
    let a = add_region(m, r);
    if m.len() == 0 {
        assert forall|k: int| #[trigger] covers(a, k) == (covers(m, k) || spans(r, k)) by {
            if spans(r, k) {
                assert(spans(a[0], k));
            }
        }
    } else if r.1 < m[0].0 {
        assert forall|i: int, j: int| 0 <= i < j < a.len() implies #[trigger] a[i].1 < #[trigger] a[j].0 by {
            if i == 0 {
                assert(a[j] == m[j - 1]);
                assert(m[0].0 <= m[j - 1].0) by {
                    if j - 1 > 0 {
                        assert(m[0].1 < m[j - 1].0);
                    }
                }
            } else {
                assert(a[i] == m[i - 1]);
                assert(a[j] == m[j - 1]);
            }
        }
        assert forall|k: int| #[trigger] covers(a, k) == (covers(m, k) || spans(r, k)) by {
            if spans(r, k) {
                assert(spans(a[0], k));
            }
            if covers(m, k) {
                let i = choose|i: int| 0 <= i < m.len() && #[trigger] spans(m[i], k);
                assert(spans(a[i + 1], k));
            }
            if covers(a, k) {
                let i = choose|i: int| 0 <= i < a.len() && #[trigger] spans(a[i], k);
                if i > 0 {
                    assert(spans(m[i - 1], k));
                }
            }
        }
    } else if m[0].1 < r.0 {
        let t = m.drop_first();
        let rest = add_region(t, r);
        lemma_add_region(t, r);
        assert(a == seq![m[0]] + rest);
        assert forall|k: int| #[trigger] covers(rest, k) implies k > 2 * m[0].1 by {
            if covers(rest, k) {
                if covers(t, k) {
                    let i = choose|i: int| 0 <= i < t.len() && #[trigger] spans(t[i], k);
                    assert(m[0].1 < m[i + 1].0);
                }
            }
        }
        assert forall|i: int, j: int| 0 <= i < j < a.len() implies #[trigger] a[i].1 < #[trigger] a[j].0 by {
            assert(a[j] == rest[j - 1]);
            if i == 0 {
                lemma_covers_first(rest, j - 1);
            } else {
                assert(a[i] == rest[i - 1]);
            }
        }
        assert forall|k: int| #[trigger] covers(a, k) == (covers(m, k) || spans(r, k)) by {
            lemma_covers_tail(m, k);
            if covers(a, k) {
                let i = choose|i: int| 0 <= i < a.len() && #[trigger] spans(a[i], k);
                if i > 0 {
                    assert(spans(rest[i - 1], k));
                } else {
                    assert(spans(m[0], k));
                }
            }
            if spans(m[0], k) {
                assert(spans(a[0], k));
            }
            if covers(rest, k) {
                let i = choose|i: int| 0 <= i < rest.len() && #[trigger] spans(rest[i], k);
                assert(spans(a[i + 1], k));
            }
            if covers(m, k) && !spans(m[0], k) {
                let i = choose|i: int| 0 <= i < m.len() && #[trigger] spans(m[i], k);
                assert(i != 0);
                assert(m[0].1 < m[i].0);
            }
        }
    } else {
        let t = m.drop_first();
        let lo = if m[0].0 <= r.0 { m[0].0 } else { r.0 };
        let hi = if m[0].1 >= r.1 { m[0].1 } else { r.1 };
        lemma_add_region(t, (lo, hi));
        assert forall|k: int| #[trigger] covers(a, k) == (covers(m, k) || spans(r, k)) by {
            lemma_covers_tail(m, k);
            if spans(m[0], k) {
                assert(covers(m, k));
            }
            if covers(m, k) && !spans(m[0], k) {
                let i = choose|i: int| 0 <= i < m.len() && #[trigger] spans(m[i], k);
                assert(i != 0);
                assert(m[0].1 < m[i].0);
            }
        }
    }
}

/// The merge is separated and holds exactly the points of its input.
pub proof fn lemma_merged_canonical(rs: Seq<Region>)
    requires
        well_formed(rs),
    ensures
        separated(merged(rs)),
        same_cover(merged(rs), rs),
    decreases rs.len(),
{
    if rs.len() > 0 {
        let init = rs.drop_last();
        lemma_merged_canonical(init);
        lemma_add_region(merged(init), rs.last());
        assert forall|k: int| covers(merged(rs), k) == covers(rs, k) by {
            if covers(init, k) {
                let i = choose|i: int| 0 <= i < init.len() && #[trigger] spans(init[i], k);
                assert(spans(rs[i], k));
            }
            if spans(rs.last(), k) {
                assert(spans(rs[rs.len() - 1], k));
            }
            if covers(rs, k) {
                let i = choose|i: int| 0 <= i < rs.len() && #[trigger] spans(rs[i], k);
                if i < rs.len() - 1 {
                    assert(spans(init[i], k));
                }
            }
        }
    }
}

/// Merging does not depend on the order of its input: any permutation of a
/// list of regions merges to the same list.
pub proof fn lemma_merge_order_independent(a: Seq<Region>, b: Seq<Region>)
    requires
        well_formed(a),
        a.to_multiset() == b.to_multiset(),
    ensures
        merged(a) == merged(b),
{
    broadcast use vstd::seq_lib::group_to_multiset_ensures;

    assert forall|k: int| covers(a, k) == covers(b, k) by {
        if covers(a, k) {
            let i = choose|i: int| 0 <= i < a.len() && #[trigger] spans(a[i], k);
            assert(a.contains(a[i]));
            assert(a.to_multiset().count(a[i]) > 0);
            assert(b.contains(a[i]));
            let j = choose|j: int| 0 <= j < b.len() && b[j] == a[i];
            assert(spans(b[j], k));
        }
        if covers(b, k) {
            let i = choose|i: int| 0 <= i < b.len() && #[trigger] spans(b[i], k);
            assert(b.contains(b[i]));
            assert(b.to_multiset().count(b[i]) > 0);
            assert(a.contains(b[i]));
            let j = choose|j: int| 0 <= j < a.len() && a[j] == b[i];
            assert(spans(a[j], k));
        }
    }
    assert(well_formed(b)) by {
        assert forall|i: int| 0 <= i < b.len() implies #[trigger] b[i].0 <= b[i].1 by {
            assert(b.contains(b[i]));
            assert(b.to_multiset().count(b[i]) > 0);
            assert(a.contains(b[i]));
            let j = choose|j: int| 0 <= j < a.len() && a[j] == b[i];
            assert(a[j].0 <= a[j].1);
        }
    }
    lemma_merged_canonical(a);
    lemma_merged_canonical(b);
    lemma_separated_unique(merged(a), merged(b));
}

/// Merging an already merged list gives it back unchanged.
pub proof fn lemma_merge_idempotent(rs: Seq<Region>)
    requires
        well_formed(rs),
    ensures
        merged(merged(rs)) == merged(rs),
{
    lemma_merged_canonical(rs);
    lemma_merged_canonical(merged(rs));
    assert forall|k: int| covers(merged(merged(rs)), k) == covers(merged(rs), k) by {
    }
    lemma_separated_unique(merged(merged(rs)), merged(rs));
}

/// Adds `r` to the separated list `m`.
pub fn insert_region(m: &Vec<Region>, r: Region) -> (out: Vec<Region>)
    requires
        separated(m@),
        r.0 <= r.1,
    ensures
        out@ == add_region(m@, r),
{
    let n = m.len();
    let mut out: Vec<Region> = Vec::new();
    let mut cur = r;
    let mut placed = false;
    let mut j: usize = 0;
    assert(m@.subrange(0, n as int) =~= m@);
    while j < n
        invariant
            n == m.len(),
            j <= n,
            add_region(m@, r) == out@ + (if placed {
                m@.subrange(j as int, n as int)
            } else {
                add_region(m@.subrange(j as int, n as int), cur)
            }),
        decreases n - j,
    {
        let t = Ghost(m@.subrange(j as int, n as int));
        assert(t@.drop_first() =~= m@.subrange(j + 1, n as int));
        assert(t@[0] == m@[j as int]);
        let x = m[j];
        if placed {
            out.push(x);
            assert(t@ =~= seq![x] + t@.drop_first());
        } else if cur.1 < x.0 {
            out.push(cur);
            out.push(x);
            placed = true;
            assert(t@ =~= seq![x] + t@.drop_first());
        } else if x.1 < cur.0 {
            out.push(x);
        } else {
            let lo = if x.0 <= cur.0 { x.0 } else { cur.0 };
            let hi = if x.1 >= cur.1 { x.1 } else { cur.1 };
            cur = (lo, hi);
        }
        proof {
            assert(add_region(m@, r) == out@ + (if placed {
                m@.subrange(j + 1, n as int)
            } else {
                add_region(m@.subrange(j + 1, n as int), cur)
            }));
        }
        j = j + 1;
    }
    if !placed {
        out.push(cur);
    }
    proof {
        assert(m@.subrange(n as int, n as int) =~= Seq::<Region>::empty());
    }
    out
}

/// `s` with the regions of `rs` taken out, the last region first.
pub open spec fn cut(s: Seq<char>, rs: Seq<Region>) -> Seq<char>
    decreases rs.len(),
{
    if rs.len() == 0 {
        s
    } else {
        let r = rs.last();
        cut(s.subrange(0, r.0 as int), rs.drop_last()) + s.subrange(r.1 as int, s.len() as int)
    }
}

/// Every region of `rs` ends at or before `n`.
pub open spec fn ends_within(rs: Seq<Region>, n: int) -> bool {
    forall|i: int| 0 <= i < rs.len() ==> #[trigger] rs[i].1 <= n
}

/// How many of the offsets below `p` the regions of `rs` take out.
pub open spec fn removed_before(rs: Seq<Region>, p: int) -> int
    decreases rs.len(),
{
    if rs.len() == 0 {
        0
    } else {
        let r = rs.last();
        let part = if p <= r.0 {
            0
        } else if p >= r.1 {
            r.1 - r.0
        } else {
            p - r.0
        };
        removed_before(rs.drop_last(), p) + part
    }
}

/// Where the offset `p` lands once the regions of `rs` are taken out.
pub open spec fn shifted(rs: Seq<Region>, p: int) -> int {
    p - removed_before(rs, p)
}

proof fn lemma_cut_prefix(s: Seq<char>, rs: Seq<Region>, p: int, q: int)
    requires
        well_formed(rs),
        ends_within(rs, p),
        0 <= p <= q <= s.len(),
    ensures
        cut(s.subrange(0, q), rs) == cut(s.subrange(0, p), rs) + s.subrange(p, q),
{
    if rs.len() == 0 {
        assert(s.subrange(0, q) =~= s.subrange(0, p) + s.subrange(p, q));
    } else {
        let r = rs.last();
        assert(r.1 <= p);
        assert(s.subrange(0, q).subrange(0, r.0 as int) =~= s.subrange(0, p).subrange(0, r.0 as int));
        assert(s.subrange(0, q).subrange(r.1 as int, q) =~= s.subrange(0, p).subrange(r.1 as int, p)
            + s.subrange(p, q));
    }
}

/// Removing the regions one after another from the highest leaves
/// `removed_before(rs, n)` fewer characters.
pub proof fn lemma_cut_len(s: Seq<char>, rs: Seq<Region>)
    requires
        separated(rs),
        ends_within(rs, s.len() as int),
    ensures
        cut(s, rs).len() == s.len() - removed_before(rs, s.len() as int),
    decreases rs.len(),
{
    if rs.len() > 0 {
        let r = rs.last();
        let init = rs.drop_last();
        assert(ends_within(init, r.0 as int)) by {
            assert forall|i: int| 0 <= i < init.len() implies #[trigger] init[i].1 <= r.0 by {
                assert(rs[i].1 < rs[rs.len() - 1].0);
            }
        }
        lemma_cut_len(s.subrange(0, r.0 as int), init);
        lemma_removed_before_flat(init, r.0 as int, s.len() as int);
    }
}

/// Past the end of every region, `removed_before` no longer grows.
proof fn lemma_removed_before_flat(rs: Seq<Region>, p: int, q: int)
    requires
        well_formed(rs),
        ends_within(rs, p),
        p <= q,
    ensures
        removed_before(rs, p) == removed_before(rs, q),
    decreases rs.len(),
{
    if rs.len() > 0 {
        lemma_removed_before_flat(rs.drop_last(), p, q);
    }
}

/// Between `p` and `q` at most `q - p` offsets are taken out.
pub proof fn lemma_removed_before_step(rs: Seq<Region>, p: int, q: int)
    requires
        separated(rs),
        p <= q,
    ensures
        0 <= removed_before(rs, q) - removed_before(rs, p) <= q - p,
    decreases rs.len(),
{
    if rs.len() > 0 {
        let r = rs.last();
        let init = rs.drop_last();
        assert(separated(init));
        assert(ends_within(init, r.0 as int)) by {
            assert forall|i: int| 0 <= i < init.len() implies #[trigger] init[i].1 <= r.0 by {
                assert(rs[i].1 < rs[rs.len() - 1].0);
            }
        }
        if q <= r.0 {
            lemma_removed_before_step(init, p, q);
        } else if p >= r.0 {
            lemma_removed_before_flat(init, r.0 as int, p);
            lemma_removed_before_flat(init, r.0 as int, q);
        } else {
            lemma_removed_before_step(init, p, r.0 as int);
            lemma_removed_before_flat(init, r.0 as int, q);
        }
    }
}

/// `s` with the separated regions of `rs` taken out, built from the front.
pub fn cut_regions(s: &String, rs: &Vec<Region>) -> (out: String)
    requires
        separated(rs@),
        ends_within(rs@, s@.len() as int),
    ensures
        out@ == cut(s@, rs@),
{
    let n = s.as_str().unicode_len();
    let mut out = String::new();
    let mut prev: usize = 0;
    let mut k: usize = 0;
    while k < rs.len()
        invariant
            separated(rs@),
            ends_within(rs@, s@.len() as int),
            n == s@.len(),
            k <= rs.len(),
            prev <= n,
            k == 0 ==> prev == 0,
            k > 0 ==> prev == rs@[k - 1].1,
            out@ == cut(s@.subrange(0, prev as int), rs@.take(k as int)),
        decreases rs.len() - k,
    {
        let r = rs[k];
        assert(prev <= r.0) by {
            if k > 0 {
                assert(rs@[k - 1].1 < rs@[k as int].0);
            }
        }
        assert(ends_within(rs@.take(k as int), prev as int)) by {
            assert forall|i: int| 0 <= i < k implies #[trigger] rs@.take(k as int)[i].1 <= prev by {
                if i < k - 1 {
                    assert(rs@[i].1 < rs@[k - 1].0);
                }
            }
        }
        proof {
            lemma_cut_prefix(s@, rs@.take(k as int), prev as int, r.0 as int);
        }
        out.append(s.as_str().substring_char(prev, r.0));
        proof {
            let q = r.1 as int;
            let t = rs@.take(k + 1);
            assert(t.drop_last() =~= rs@.take(k as int));
            assert(t.last() == r);
            assert(s@.subrange(0, q).subrange(0, r.0 as int) =~= s@.subrange(0, r.0 as int));
            assert(s@.subrange(0, q).subrange(q, q) =~= Seq::<char>::empty());
            assert(cut(s@.subrange(0, q), t) =~= cut(s@.subrange(0, r.0 as int), rs@.take(k as int)));
        }
        prev = r.1;
        k = k + 1;
    }
    assert(ends_within(rs@, prev as int)) by {
        assert forall|i: int| 0 <= i < rs@.len() implies #[trigger] rs@[i].1 <= prev by {
            if i < k - 1 {
                assert(rs@[i].1 < rs@[k - 1].0);
            }
        }
    }
    proof {
        lemma_cut_prefix(s@, rs@, prev as int, n as int);
    }
    out.append(s.as_str().substring_char(prev, n));
    assert(rs@.take(k as int) =~= rs@);
    assert(s@.subrange(0, n as int) =~= s@);
    out
}

/// Nothing is taken out below offset `0`.
proof fn lemma_removed_before_zero(rs: Seq<Region>)
    ensures
        removed_before(rs, 0) == 0,
    decreases rs.len(),
{
    if rs.len() > 0 {
        lemma_removed_before_zero(rs.drop_last());
    }
}

/// An offset within the text lands within what is left of it.
pub proof fn lemma_shifted_bounds(s: Seq<char>, rs: Seq<Region>, p: int)
    requires
        separated(rs),
        ends_within(rs, s.len() as int),
        0 <= p <= s.len(),
    ensures
        0 <= shifted(rs, p) <= cut(s, rs).len(),
        shifted(rs, p) <= p,
{
    lemma_removed_before_zero(rs);
    lemma_removed_before_step(rs, 0, p);
    lemma_removed_before_step(rs, p, s.len() as int);
    lemma_cut_len(s, rs);
}

/// Where offset `p` lands once the separated regions of `rs` are taken out.
pub fn shift_index(rs: &Vec<Region>, p: usize) -> (r: usize)
    requires
        separated(rs@),
    ensures
        r == shifted(rs@, p as int),
{
    let mut removed: usize = 0;
    let mut k: usize = 0;
    while k < rs.len()
        invariant
            separated(rs@),
            k <= rs.len(),
            removed == removed_before(rs@.take(k as int), p as int),
        decreases rs.len() - k,
    {
        let r = rs[k];
        proof {
            let t = rs@.take(k + 1);
            assert(t.drop_last() =~= rs@.take(k as int));
            assert(separated(t));
            lemma_removed_before_zero(t);
            lemma_removed_before_step(t, 0, p as int);
        }
        if p <= r.0 {
        } else if p >= r.1 {
            removed = removed + (r.1 - r.0);
        } else {
            removed = removed + (p - r.0);
        }
        k = k + 1;
    }
    proof {
        assert(rs@.take(k as int) =~= rs@);
        lemma_removed_before_zero(rs@);
        lemma_removed_before_step(rs@, 0, p as int);
    }
    p - removed
}

/// The merge of regions that end within `n` ends within `n`.
pub proof fn lemma_merged_ends_within(rs: Seq<Region>, n: int)
    requires
        well_formed(rs),
        ends_within(rs, n),
    ensures
        ends_within(merged(rs), n),
{
    lemma_merged_canonical(rs);
    let m = merged(rs);
    assert forall|i: int| 0 <= i < m.len() implies #[trigger] m[i].1 <= n by {
        assert(spans(m[i], 2 * m[i].1));
        assert(covers(m, 2 * m[i].1));
        assert(covers(rs, 2 * m[i].1));
        let j = choose|j: int| 0 <= j < rs.len() && #[trigger] spans(rs[j], 2 * m[i].1);
        assert(rs[j].1 <= n);
    }
}

/// Whether some region of `rs` takes out the character at offset `k`.
pub open spec fn gone(rs: Seq<Region>, k: int) -> bool {
    exists|i: int| 0 <= i < rs.len() && #[trigger] rs[i].0 <= k < rs[i].1
}

/// The first `n` characters of `s` that no region of `rs` takes out.
pub open spec fn kept(s: Seq<char>, rs: Seq<Region>, n: int) -> Seq<char>
    decreases n,
{
    if n <= 0 {
        Seq::empty()
    } else if gone(rs, n - 1) {
        kept(s, rs, n - 1)
    } else {
        kept(s, rs, n - 1).push(s[n - 1])
    }
}

/// `s` with the region `r` taken out.
pub open spec fn remove_one(s: Seq<char>, r: Region) -> Seq<char> {
    s.subrange(0, r.0 as int) + s.subrange(r.1 as int, s.len() as int)
}

/// `s` with the regions of `rs` taken out one after another, in order.
pub open spec fn remove_each(s: Seq<char>, rs: Seq<Region>) -> Seq<char>
    decreases rs.len(),
{
    if rs.len() == 0 {
        s
    } else {
        remove_each(remove_one(s, rs[0]), rs.drop_first())
    }
}

/// Each region lies at or below the start of every region before it.
pub open spec fn descending(rs: Seq<Region>) -> bool {
    &&& well_formed(rs)
    &&& forall|i: int, j: int| 0 <= i < j < rs.len() ==> #[trigger] rs[j].1 <= #[trigger] rs[i].0
}

proof fn lemma_kept_same(s: Seq<char>, t: Seq<char>, a: Seq<Region>, b: Seq<Region>, n: int)
    requires
        0 <= n <= s.len(),
        n <= t.len(),
        forall|k: int| 0 <= k < n ==> s[k] == t[k],
        forall|k: int| 0 <= k < n ==> gone(a, k) == gone(b, k),
    ensures
        kept(s, a, n) == kept(t, b, n),
    decreases n,
{
    if n > 0 {
        lemma_kept_same(s, t, a, b, n - 1);
    }
}

proof fn lemma_kept_skip(s: Seq<char>, rs: Seq<Region>, a: int, n: int)
    requires
        0 <= a <= n,
        forall|k: int| a <= k < n ==> gone(rs, k),
    ensures
        kept(s, rs, n) == kept(s, rs, a),
    decreases n,
{
    if n > a {
        lemma_kept_skip(s, rs, a, n - 1);
    }
}

proof fn lemma_kept_tail(s: Seq<char>, rs: Seq<Region>, b: int, n: int)
    requires
        0 <= b <= n <= s.len(),
        forall|k: int| b <= k < n ==> !gone(rs, k),
    ensures
        kept(s, rs, n) == kept(s, rs, b) + s.subrange(b, n),
    decreases n,
{
    if n > b {
        lemma_kept_tail(s, rs, b, n - 1);
        assert(s.subrange(b, n) =~= s.subrange(b, n - 1).push(s[n - 1]));
    } else {
        assert(s.subrange(b, n) =~= Seq::<char>::empty());
    }
}

/// What is kept splits around a span `[a, b)` that is taken out whole.
proof fn lemma_kept_split(s: Seq<char>, rs: Seq<Region>, others: Seq<Region>, a: int, b: int)
    requires
        0 <= a <= b <= s.len(),
        forall|k: int| 0 <= k < a ==> gone(rs, k) == gone(others, k),
        forall|k: int| a <= k < b ==> gone(rs, k),
        forall|k: int| b <= k < s.len() ==> !gone(rs, k),
    ensures
        kept(s, rs, s.len() as int) == kept(s.subrange(0, a), others, a) + s.subrange(b, s.len() as int),
{
    lemma_kept_tail(s, rs, b, s.len() as int);
    lemma_kept_skip(s, rs, a, b);
    lemma_kept_same(s, s.subrange(0, a), rs, others, a);
}

/// Taking out ordered regions from the highest keeps what no region covers.
proof fn lemma_cut_is_kept(s: Seq<char>, rs: Seq<Region>)
    requires
        well_formed(rs),
        forall|i: int, j: int| 0 <= i < j < rs.len() ==> #[trigger] rs[i].1 <= #[trigger] rs[j].0,
        ends_within(rs, s.len() as int),
    ensures
        cut(s, rs) == kept(s, rs, s.len() as int),
    decreases rs.len(),
{
    if rs.len() > 0 {
        let n = rs.len() - 1;
        let r = rs[n];
        let init = rs.drop_last();
        assert(ends_within(init, r.0 as int)) by {
            assert forall|i: int| 0 <= i < init.len() implies #[trigger] init[i].1 <= r.0 by {
                assert(rs[i].1 <= rs[n].0);
            }
        }
        lemma_cut_is_kept(s.subrange(0, r.0 as int), init);
        assert forall|k: int| 0 <= k < r.0 implies gone(rs, k) == gone(init, k) by {
            if gone(rs, k) {
                let i = choose|i: int| 0 <= i < rs.len() && #[trigger] rs[i].0 <= k < rs[i].1;
                assert(i != n);
                assert(init[i].0 <= k < init[i].1);
            }
            if gone(init, k) {
                let i = choose|i: int| 0 <= i < init.len() && #[trigger] init[i].0 <= k < init[i].1;
                assert(rs[i].0 <= k < rs[i].1);
            }
        }
        assert forall|k: int| r.0 <= k < r.1 implies gone(rs, k) by {
            assert(rs[n].0 <= k < rs[n].1);
        }
        assert forall|k: int| r.1 <= k < s.len() implies !gone(rs, k) by {
            if gone(rs, k) {
                let i = choose|i: int| 0 <= i < rs.len() && #[trigger] rs[i].0 <= k < rs[i].1;
                if i < n {
                    assert(rs[i].1 <= rs[n].0);
                }
            }
        }
        lemma_kept_split(s, rs, init, r.0 as int, r.1 as int);
    } else {
        assert forall|k: int| 0 <= k < s.len() implies !gone(rs, k) by {}
        lemma_kept_tail(s, rs, 0, s.len() as int);
        assert(s.subrange(0, s.len() as int) =~= s);
    }
}

/// Taking out regions one by one from the highest keeps what no region covers.
proof fn lemma_remove_each_is_kept(s: Seq<char>, rs: Seq<Region>)
    requires
        descending(rs),
        ends_within(rs, s.len() as int),
    ensures
        remove_each(s, rs) == kept(s, rs, s.len() as int),
    decreases rs.len(),
{
    if rs.len() > 0 {
        let r = rs[0];
        let rest = rs.drop_first();
        let a = r.0 as int;
        let b = r.1 as int;
        let t = remove_one(s, r);
        assert(descending(rest));
        assert(ends_within(rest, a)) by {
            assert forall|i: int| 0 <= i < rest.len() implies #[trigger] rest[i].1 <= a by {
                assert(rs[i + 1].1 <= rs[0].0);
            }
        }
        lemma_remove_each_is_kept(t, rest);
        assert(ends_within(rest, t.len() as int));
        assert forall|k: int| 0 <= k < a implies gone(rs, k) == gone(rest, k) by {
            if gone(rs, k) {
                let i = choose|i: int| 0 <= i < rs.len() && #[trigger] rs[i].0 <= k < rs[i].1;
                assert(i != 0);
                assert(rest[i - 1].0 <= k < rest[i - 1].1);
            }
            if gone(rest, k) {
                let i = choose|i: int| 0 <= i < rest.len() && #[trigger] rest[i].0 <= k < rest[i].1;
                assert(rs[i + 1].0 <= k < rs[i + 1].1);
            }
        }
        assert forall|k: int| a <= k < b implies gone(rs, k) by {
            assert(rs[0].0 <= k < rs[0].1);
        }
        assert forall|k: int| b <= k < s.len() implies !gone(rs, k) by {
            if gone(rs, k) {
                let i = choose|i: int| 0 <= i < rs.len() && #[trigger] rs[i].0 <= k < rs[i].1;
                if i > 0 {
                    assert(rs[i].1 <= rs[0].0);
                }
            }
        }
        lemma_kept_split(s, rs, rest, a, b);
        assert forall|k: int| a <= k < t.len() implies !gone(rest, k) by {
            if gone(rest, k) {
                let i = choose|i: int| 0 <= i < rest.len() && #[trigger] rest[i].0 <= k < rest[i].1;
                assert(rest[i].1 <= a);
            }
        }
        lemma_kept_split(t, rest, rest, a, a);
        assert(t.subrange(0, a) =~= s.subrange(0, a));
        assert(t.subrange(a, t.len() as int) =~= s.subrange(b, s.len() as int));
    } else {
        assert forall|k: int| 0 <= k < s.len() implies !gone(rs, k) by {}
        lemma_kept_tail(s, rs, 0, s.len() as int);
        assert(s.subrange(0, s.len() as int) =~= s);
    }
}

/// Taking out spans one after another, from the highest offset to the
/// lowest, leaves the same text as taking out their merge at once, provided
/// no two spans overlap.
pub proof fn lemma_sequential_removal(s: Seq<char>, rs: Seq<Region>)
    requires
        descending(rs),
        ends_within(rs, s.len() as int),
    ensures
        remove_each(s, rs) == cut(s, merged(rs)),
{
    lemma_remove_each_is_kept(s, rs);
    lemma_merged_canonical(rs);
    lemma_merged_ends_within(rs, s.len() as int);
    let m = merged(rs);
    lemma_cut_is_kept(s, m);
    assert forall|k: int| 0 <= k < s.len() implies gone(m, k) == gone(rs, k) by {
        if gone(m, k) {
            let i = choose|i: int| 0 <= i < m.len() && #[trigger] m[i].0 <= k < m[i].1;
            assert(spans(m[i], 2 * k + 1));
            assert(covers(m, 2 * k + 1));
            assert(covers(rs, 2 * k + 1));
            let j = choose|j: int| 0 <= j < rs.len() && #[trigger] spans(rs[j], 2 * k + 1);
            assert(rs[j].0 <= k < rs[j].1);
        }
        if gone(rs, k) {
            let i = choose|i: int| 0 <= i < rs.len() && #[trigger] rs[i].0 <= k < rs[i].1;
            assert(spans(rs[i], 2 * k + 1));
            assert(covers(rs, 2 * k + 1));
            assert(covers(m, 2 * k + 1));
            let j = choose|j: int| 0 <= j < m.len() && #[trigger] spans(m[j], 2 * k + 1);
            assert(m[j].0 <= k < m[j].1);
        }
    }
    lemma_kept_same(s, s, rs, m, s.len() as int);
}

} // verus!
