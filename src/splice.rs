//! Insertion of pieces of text at increasing offsets.
use vstd::prelude::*;
use vstd::string::*;

verus! {

/// Each offset is smaller than the next.
pub open spec fn strictly_increasing(ps: Seq<usize>) -> bool {
    forall|i: int, j: int| 0 <= i < j < ps.len() ==> #[trigger] ps[i] < #[trigger] ps[j]
}

/// Every offset of `ps` is at most `n`.
pub open spec fn all_at_most(ps: Seq<usize>, n: int) -> bool {
    forall|i: int| 0 <= i < ps.len() ==> #[trigger] ps[i] <= n
}

/// `s` with `ts[k]` inserted at offset `ps[k]` for each `k`, the highest
/// offset first.
pub open spec fn spliced(s: Seq<char>, ps: Seq<usize>, ts: Seq<Seq<char>>) -> Seq<char>
    decreases ps.len(),
{
    if ps.len() == 0 {
        s
    } else {
        let p = ps.last() as int;
        spliced(s.subrange(0, p), ps.drop_last(), ts.drop_last()) + ts.last() + s.subrange(
            p,
            s.len() as int,
        )
    }
}

/// The summed length of the pieces.
pub open spec fn total_len(ts: Seq<Seq<char>>) -> int
    decreases ts.len(),
{
    if ts.len() == 0 {
        0
    } else {
        total_len(ts.drop_last()) + ts.last().len()
    }
}

/// The text of each string.
pub open spec fn texts(ts: Seq<String>) -> Seq<Seq<char>> {
    ts.map_values(|t: String| t@)
}

proof fn lemma_spliced_prefix(s: Seq<char>, ps: Seq<usize>, ts: Seq<Seq<char>>, p: int, q: int)
    requires
        all_at_most(ps, p),
        0 <= p <= q <= s.len(),
    ensures
        spliced(s.subrange(0, q), ps, ts) == spliced(s.subrange(0, p), ps, ts) + s.subrange(p, q),
{
    if ps.len() == 0 {
        assert(s.subrange(0, q) =~= s.subrange(0, p) + s.subrange(p, q));
    } else {
        let l = ps.last() as int;
        assert(ps[ps.len() - 1] <= p);
        assert(s.subrange(0, q).subrange(0, l) =~= s.subrange(0, p).subrange(0, l));
        assert(s.subrange(0, q).subrange(l, q) =~= s.subrange(0, p).subrange(l, p) + s.subrange(p, q));
    }
}

/// Inserting adds the pieces' length.
pub proof fn lemma_spliced_len(s: Seq<char>, ps: Seq<usize>, ts: Seq<Seq<char>>)
    requires
        ps.len() == ts.len(),
        strictly_increasing(ps),
        all_at_most(ps, s.len() as int),
    ensures
        spliced(s, ps, ts).len() == s.len() + total_len(ts),
    decreases ps.len(),
{
    if ps.len() > 0 {
        let l = ps.last() as int;
        let init = ps.drop_last();
        assert(all_at_most(init, l)) by {
            assert forall|i: int| 0 <= i < init.len() implies #[trigger] init[i] <= l by {
                assert(ps[i] < ps[ps.len() - 1]);
            }
        }
        lemma_spliced_len(s.subrange(0, l), init, ts.drop_last());
    }
}

/// The first `b + 1` pieces are the first `b` and piece `b`.
pub proof fn lemma_total_len_step(ts: Seq<Seq<char>>, b: int)
    requires
        0 <= b < ts.len(),
    ensures
        total_len(ts.take(b + 1)) == total_len(ts.take(b)) + ts[b].len(),
{
    assert(ts.take(b + 1).drop_last() =~= ts.take(b));
}

/// The sums of the pieces grow with their number.
pub proof fn lemma_total_len_grows(ts: Seq<Seq<char>>, a: int, b: int)
    requires
        0 <= a <= b <= ts.len(),
    ensures
        0 <= total_len(ts.take(a)) <= total_len(ts.take(b)),
        total_len(ts.take(ts.len() as int)) == total_len(ts),
    decreases b,
{
    assert(ts.take(ts.len() as int) =~= ts);
    if b == 0 {
        assert(ts.take(0).len() == 0);
    } else if a == b {
        lemma_total_len_grows(ts, 0, b - 1);
        lemma_total_len_step(ts, b - 1);
    } else {
        lemma_total_len_grows(ts, a, b - 1);
        lemma_total_len_step(ts, b - 1);
    }
}

/// `s` with `ts[k]` inserted at `ps[k]`, built from the front.
pub fn splice_at(s: &String, ps: &Vec<usize>, ts: &Vec<String>) -> (r: String)
    requires
        ps.len() == ts.len(),
        strictly_increasing(ps@),
        all_at_most(ps@, s@.len() as int),
    ensures
        r@ == spliced(s@, ps@, texts(ts@)),
{
    let ghost vs = texts(ts@);
    let n = s.as_str().unicode_len();
    let mut out = String::new();
    let mut prev: usize = 0;
    let mut k: usize = 0;
    while k < ps.len()
        invariant
            ps.len() == ts.len(),
            vs == texts(ts@),
            strictly_increasing(ps@),
            all_at_most(ps@, s@.len() as int),
            n == s@.len(),
            k <= ps.len(),
            prev <= n,
            k == 0 ==> prev == 0,
            k > 0 ==> prev == ps@[k - 1],
            out@ == spliced(s@.subrange(0, prev as int), ps@.take(k as int), vs.take(k as int)),
        decreases ps.len() - k,
    {
        let p = ps[k];
        assert(prev <= p) by {
            if k > 0 {
                assert(ps@[k - 1] < ps@[k as int]);
            }
        }
        proof {
            assert(all_at_most(ps@.take(k as int), prev as int)) by {
                assert forall|i: int| 0 <= i < k implies #[trigger] ps@.take(k as int)[i] <= prev by {
                    if i < k - 1 {
                        assert(ps@[i] < ps@[k - 1]);
                    }
                }
            }
            lemma_spliced_prefix(s@, ps@.take(k as int), vs.take(k as int), prev as int, p as int);
        }
        out.append(s.as_str().substring_char(prev, p));
        out.append(ts[k].as_str());
        proof {
            let q = p as int;
            assert(ps@.take(k + 1).drop_last() =~= ps@.take(k as int));
            assert(vs.take(k + 1).drop_last() =~= vs.take(k as int));
            assert(vs.take(k + 1).last() == ts@[k as int]@);
            assert(s@.subrange(0, q).subrange(0, q) =~= s@.subrange(0, q));
            assert(s@.subrange(0, q).subrange(q, q) =~= Seq::<char>::empty());
            assert(spliced(s@.subrange(0, q), ps@.take(k + 1), vs.take(k + 1)) =~= spliced(
                s@.subrange(0, q),
                ps@.take(k as int),
                vs.take(k as int),
            ) + ts@[k as int]@);
        }
        prev = p;
        k = k + 1;
    }
    proof {
        assert(all_at_most(ps@, prev as int)) by {
            assert forall|i: int| 0 <= i < ps@.len() implies #[trigger] ps@[i] <= prev by {
                if i < k - 1 {
                    assert(ps@[i] < ps@[k - 1]);
                }
            }
        }
        lemma_spliced_prefix(s@, ps@, vs, prev as int, n as int);
        assert(ps@.take(k as int) =~= ps@);
        assert(vs.take(k as int) =~= vs);
        assert(s@.subrange(0, n as int) =~= s@);
    }
    out.append(s.as_str().substring_char(prev, n));
    out
}

/// `s` with `t` inserted at offset `p`.
pub open spec fn insert_one(s: Seq<char>, p: int, t: Seq<char>) -> Seq<char> {
    s.subrange(0, p) + t + s.subrange(p, s.len() as int)
}

/// `s` with `ts[k]` inserted at `ps[k]` one piece after another, the
/// highest offset first.
pub open spec fn insert_from_last(s: Seq<char>, ps: Seq<usize>, ts: Seq<Seq<char>>) -> Seq<char>
    decreases ps.len(),
{
    if ps.len() == 0 {
        s
    } else {
        insert_from_last(insert_one(s, ps.last() as int, ts.last()), ps.drop_last(), ts.drop_last())
    }
}

/// Inserting at several offsets at once leaves the same text as inserting
/// at each offset on its own, from the highest offset to the lowest.
pub proof fn lemma_sequential_insertion(s: Seq<char>, ps: Seq<usize>, ts: Seq<Seq<char>>)
    requires
        ps.len() == ts.len(),
        strictly_increasing(ps),
        all_at_most(ps, s.len() as int),
    ensures
        insert_from_last(s, ps, ts) == spliced(s, ps, ts),
    decreases ps.len(),
{
    if ps.len() > 0 {
        let p = ps.last() as int;
        let t = ts.last();
        let init = ps.drop_last();
        let s2 = insert_one(s, p, t);
        assert(all_at_most(init, p)) by {
            assert forall|i: int| 0 <= i < init.len() implies #[trigger] init[i] <= p by {
                assert(ps[i] < ps[ps.len() - 1]);
            }
        }
        assert(strictly_increasing(init));
        assert(all_at_most(init, s2.len() as int));
        lemma_sequential_insertion(s2, init, ts.drop_last());
        lemma_spliced_prefix(s2, init, ts.drop_last(), p, s2.len() as int);
        assert(s2.subrange(0, s2.len() as int) =~= s2);
        assert(s2.subrange(0, p) =~= s.subrange(0, p));
        assert(s2.subrange(p, s2.len() as int) =~= t + s.subrange(p, s.len() as int));
    }
}

/// Inserting at one offset is `insert_one`, what a single caret does.
pub proof fn lemma_single_insertion(s: Seq<char>, p: usize, t: Seq<char>)
    requires
        p <= s.len(),
    ensures
        spliced(s, seq![p], seq![t]) == insert_one(s, p as int, t),
{
    assert(seq![p].drop_last() =~= Seq::<usize>::empty());
    assert(seq![t].drop_last() =~= Seq::<Seq<char>>::empty());
    assert(spliced(s.subrange(0, p as int), Seq::<usize>::empty(), Seq::<Seq<char>>::empty()) == s.subrange(
        0,
        p as int,
    ));
}

} // verus!
