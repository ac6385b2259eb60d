use vstd::prelude::*;

verus! {

/// One measurement: a probed world and the average round-trip latency that
/// its probe reported, in microseconds.
#[derive(Clone, Copy, Debug, PartialEq, Eq, Structural)]
pub struct WorldResult {
    pub world_id: i64,
    pub average_ping: u64,
}

/// Builds the record for one extracted latency.
pub fn process_world(world_id: i64, average_ping: u64) -> (r: WorldResult)
    ensures
        r.world_id == world_id,
        r.average_ping == average_ping,
{
    WorldResult { world_id, average_ping }
}

/// Every adjacent pair is in ascending latency order.
pub open spec fn is_ranked(s: Seq<WorldResult>) -> bool {
    forall|i: int| 0 <= i < s.len() - 1 ==> #[trigger] s[i].average_ping <= s[i + 1].average_ping
}

/// Places `x` directly after the last record whose latency does not exceed its own.
pub open spec fn insert_ranked(s: Seq<WorldResult>, x: WorldResult) -> Seq<WorldResult>
    decreases s.len(),
{
    if s.len() == 0 {
        seq![x]
    } else if s.last().average_ping <= x.average_ping {
        s.push(x)
    } else {
        insert_ranked(s.drop_last(), x).push(s.last())
    }
}

/// The stable ascending ordering of `s` by latency: each record, in insertion
/// order, goes after every earlier record of equal or lower latency.
pub open spec fn ranked(s: Seq<WorldResult>) -> Seq<WorldResult>
    decreases s.len(),
{
    if s.len() == 0 {
        s
    } else {
        insert_ranked(ranked(s.drop_last()), s.last())
    }
}

/// The records of `s` whose latency is `k`, in their order in `s`.
pub open spec fn with_latency(s: Seq<WorldResult>, k: u64) -> Seq<WorldResult>
    decreases s.len(),
{
    if s.len() == 0 {
        s
    } else if s.last().average_ping == k {
        with_latency(s.drop_last(), k).push(s.last())
    } else {
        with_latency(s.drop_last(), k)
    }
}

proof fn lemma_insert_ranked_keeps_order(s: Seq<WorldResult>, x: WorldResult)
    requires
        is_ranked(s),
    ensures
        is_ranked(insert_ranked(s, x)),
        insert_ranked(s, x).len() == s.len() + 1,
        insert_ranked(s, x).last() == x || insert_ranked(s, x).last() == s.last(),
    decreases s.len(),
{
    if s.len() > 0 && s.last().average_ping > x.average_ping {
        let t = s.drop_last();
        assert(is_ranked(t));
        lemma_insert_ranked_keeps_order(t, x);
        let r = insert_ranked(t, x);
        if t.len() > 0 {
            assert(t.last() == s[s.len() - 2]);
        }
        assert(r.last().average_ping <= s.last().average_ping);
        let full = r.push(s.last());
        assert forall|i: int| 0 <= i < full.len() - 1 implies #[trigger] full[i].average_ping
            <= full[i + 1].average_ping by {
            if i < r.len() - 1 {
                assert(full[i] == r[i] && full[i + 1] == r[i + 1]);
            }
        }
    } else if s.len() > 0 {
        let full = s.push(x);
        assert forall|i: int| 0 <= i < full.len() - 1 implies #[trigger] full[i].average_ping
            <= full[i + 1].average_ping by {
            if i < s.len() - 1 {
                assert(full[i] == s[i] && full[i + 1] == s[i + 1]);
            }
        }
    }
}

proof fn lemma_insert_ranked_with_latency(s: Seq<WorldResult>, x: WorldResult, k: u64)
    ensures
        with_latency(insert_ranked(s, x), k) == with_latency(s.push(x), k),
    decreases s.len(),
{
    assert(s.push(x).drop_last() =~= s);
    if s.len() == 0 {
        assert(seq![x].drop_last() =~= s);
    } else if s.last().average_ping <= x.average_ping {
    } else {
        let t = s.drop_last();
        lemma_insert_ranked_with_latency(t, x, k);
        let r = insert_ranked(t, x);
        assert(r.push(s.last()).drop_last() =~= r);
        assert(t.push(x).drop_last() =~= t);
        assert(t.push(s.last()) =~= s);
        assert(with_latency(r, k) == with_latency(t.push(x), k));
        assert(with_latency(s, k) == if s.last().average_ping == k {
            with_latency(t, k).push(s.last())
        } else {
            with_latency(t, k)
        });
        if x.average_ping == k {
            assert(with_latency(r.push(s.last()), k) =~= with_latency(t, k).push(x));
        } else if s.last().average_ping == k {
            assert(with_latency(r.push(s.last()), k) =~= with_latency(t, k).push(s.last()));
        }
    }
}

/// The ranked sequence is in ascending latency order.
pub proof fn lemma_ranked_is_ordered(s: Seq<WorldResult>)
    ensures
        is_ranked(ranked(s)),
        ranked(s).len() == s.len(),
    decreases s.len(),
{
    if s.len() > 0 {
        lemma_ranked_is_ordered(s.drop_last());
        lemma_insert_ranked_keeps_order(ranked(s.drop_last()), s.last());
    }
}

/// Ranking is stable: the records of any one latency keep their insertion order.
pub proof fn lemma_ranked_is_stable(s: Seq<WorldResult>, k: u64)
    ensures
        with_latency(ranked(s), k) == with_latency(s, k),
    decreases s.len(),
{
    if s.len() > 0 {
        let t = s.drop_last();
        lemma_ranked_is_stable(t, k);
        lemma_insert_ranked_with_latency(ranked(t), s.last(), k);
        let rt = ranked(t);
        assert(rt.push(s.last()).drop_last() =~= rt);
        assert(t.push(s.last()) =~= s);
    }
}

proof fn lemma_insert_ranked_multiset(s: Seq<WorldResult>, x: WorldResult)
    ensures
        insert_ranked(s, x).to_multiset() == s.to_multiset().insert(x),
    decreases s.len(),
{
    broadcast use vstd::seq_lib::group_to_multiset_ensures;

    if s.len() == 0 {
        assert(seq![x] =~= s.push(x));
    } else if s.last().average_ping <= x.average_ping {
    } else {
        let t = s.drop_last();
        lemma_insert_ranked_multiset(t, x);
        assert(t.push(s.last()) =~= s);
        assert(insert_ranked(t, x).push(s.last()).to_multiset() =~= s.to_multiset().insert(x));
    }
}

/// Ranking only reorders: it holds the same records, each as many times.
pub proof fn lemma_ranked_is_permutation(s: Seq<WorldResult>)
    ensures
        ranked(s).to_multiset() == s.to_multiset(),
    decreases s.len(),
{
    broadcast use vstd::seq_lib::group_to_multiset_ensures;

    if s.len() > 0 {
        let t = s.drop_last();
        lemma_ranked_is_permutation(t);
        lemma_insert_ranked_multiset(ranked(t), s.last());
        assert(t.push(s.last()) =~= s);
    }
}

/// Ranking an already ranked sequence leaves it as it is.
pub proof fn lemma_ranked_of_ordered(s: Seq<WorldResult>)
    requires
        is_ranked(s),
    ensures
        ranked(s) == s,
    decreases s.len(),
{
    if s.len() > 0 {
        let t = s.drop_last();
        assert(is_ranked(t));
        lemma_ranked_of_ordered(t);
        if t.len() > 0 {
            assert(t.last() == s[s.len() - 2]);
        }
        assert(t.push(s.last()) =~= s);
    }
}

/// Ranking twice gives the same sequence as ranking once.
pub proof fn lemma_ranking_is_idempotent(s: Seq<WorldResult>)
    ensures
        ranked(ranked(s)) == ranked(s),
{
    lemma_ranked_is_ordered(s);
    lemma_ranked_of_ordered(ranked(s));
}

/// Inserts `x` into `v` at the place that `insert_ranked` gives it.
fn insert_by_ping(v: &mut Vec<WorldResult>, x: WorldResult)
    ensures
        final(v)@ == insert_ranked(old(v)@, x),
{
    let ghost s = v@;
    let mut p: usize = v.len();
    assert(s.take(s.len() as int) =~= s);
    assert(s.skip(s.len() as int) =~= Seq::<WorldResult>::empty());
    while p > 0 && v[p - 1].average_ping > x.average_ping
        invariant
            v@ == s,
            p <= s.len(),
            insert_ranked(s, x) == insert_ranked(s.take(p as int), x) + s.skip(p as int),
        decreases p,
    {
        let ghost t = s.take(p as int);
        assert(t.drop_last() =~= s.take(p - 1));
        assert(t.last() == s[p - 1]);
        assert(insert_ranked(s.take(p - 1), x).push(s[p - 1]) + s.skip(p as int)
            =~= insert_ranked(s.take(p - 1), x) + s.skip(p - 1));
        p = p - 1;
    }
    proof {
        let t = s.take(p as int);
        if p == 0 {
            assert(insert_ranked(t, x) == seq![x]);
        } else {
            assert(t.last() == s[p - 1]);
            assert(insert_ranked(t, x) == t.push(x));
        }
        assert(insert_ranked(t, x) + s.skip(p as int) =~= s.insert(p as int, x));
    }
    v.insert(p, x);
}

/// The ranking step: orders `world_results` by ascending latency, keeping the
/// insertion order of records with equal latency.
pub fn sort_by_ping(world_results: &mut Vec<WorldResult>)
    ensures
        final(world_results)@ == ranked(old(world_results)@),
        final(world_results)@.len() == old(world_results)@.len(),
        final(world_results)@.to_multiset() == old(world_results)@.to_multiset(),
        is_ranked(final(world_results)@),
{
    let ghost s = world_results@;
    let mut out: Vec<WorldResult> = Vec::new();
    let mut i: usize = 0;
    while i < world_results.len()
        invariant
            world_results@ == s,
            i <= s.len(),
            out@ == ranked(s.take(i as int)),
        decreases s.len() - i,
    {
        assert(s.take(i + 1).drop_last() =~= s.take(i as int));
        insert_by_ping(&mut out, world_results[i]);
        i = i + 1;
    }
    assert(s.take(s.len() as int) =~= s);
    proof {
        lemma_ranked_is_ordered(s);
        lemma_ranked_is_permutation(s);
    }
    *world_results = out;
}

} // verus!
