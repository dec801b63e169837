//! Counting votes: which versions of which protocols enough entries give.

use vstd::prelude::*;
use crate::entry::{
    all_wf,
    lemma_entry_bounded,
    lemma_entry_names,
    models,
    supports,
    UnvalidatedProtoEntry,
};
use crate::listing::EntryModel;
use crate::protocol::UnknownProtocol;
use crate::protoset::{range_set, ProtoSet, Version};
use crate::text::MAX_VERSION;

verus! {

/// How many of the entries give version `v` for the protocol named `n`.
pub open spec fn vote_count(entries: Seq<EntryModel>, n: Seq<char>, v: int) -> nat
    decreases entries.len(),
{
    if entries.len() == 0 {
        0
    } else {
        vote_count(entries.drop_last(), n, v) + if supports(entries.last(), n, v) {
            1nat
        } else {
            0nat
        }
    }
}

/// Whether version `v` of the protocol named `n` wins the vote: at least
/// `threshold` entries give it, and at least one does.
pub open spec fn voted(entries: Seq<EntryModel>, threshold: int, n: Seq<char>, v: int) -> bool {
    vote_count(entries, n, v) >= threshold && vote_count(entries, n, v) >= 1
}

/// The outcome of the vote: the protocols of which some version wins,
/// each with the versions that win.
pub open spec fn vote_model(entries: Seq<EntryModel>, threshold: int) -> EntryModel {
    Map::new(
        |n: Seq<char>| exists|v: int| voted(entries, threshold, n, v),
        |n: Seq<char>| Set::new(|v: int| voted(entries, threshold, n, v)),
    )
}

/// Counting one entry more.
pub proof fn lemma_count_step(entries: Seq<EntryModel>, j: int, n: Seq<char>, v: int)
    requires
        0 <= j < entries.len(),
    ensures
        vote_count(entries.take(j + 1), n, v) == vote_count(entries.take(j), n, v) + if supports(
            entries[j],
            n,
            v,
        ) {
            1nat
        } else {
            0nat
        },
{
    assert(entries.take(j + 1).drop_last() =~= entries.take(j));
    assert(entries.take(j + 1).last() == entries[j]);
}

/// A version that is counted at all is given by one of the entries.
pub proof fn lemma_count_positive(entries: Seq<EntryModel>, n: Seq<char>, v: int)
    requires
        vote_count(entries, n, v) >= 1,
    ensures
        exists|i: int| 0 <= i < entries.len() && supports(#[trigger] entries[i], n, v),
    decreases entries.len(),
{
    if entries.len() > 0 {
        if supports(entries.last(), n, v) {
            assert(supports(entries[entries.len() - 1], n, v));
        } else {
            lemma_count_positive(entries.drop_last(), n, v);
            let i = choose|i: int|
                0 <= i < entries.drop_last().len() && supports(
                    #[trigger] entries.drop_last()[i],
                    n,
                    v,
                );
            assert(supports(entries[i], n, v));
        }
    }
}

/// No more entries give a version than there are entries.
pub proof fn lemma_count_bounded(entries: Seq<EntryModel>, n: Seq<char>, v: int)
    ensures
        vote_count(entries, n, v) <= entries.len(),
    decreases entries.len(),
{
    if entries.len() > 0 {
        lemma_count_bounded(entries.drop_last(), n, v);
    }
}

/// The vote over protocol lists.
pub struct ProtoverVote {}

impl ProtoverVote {
    /// The versions of `proto` that win the vote.
    pub fn tally(proto_entries: &[UnvalidatedProtoEntry], proto: &UnknownProtocol, threshold: usize)
        -> (r: ProtoSet)
        requires
            all_wf(proto_entries@),
        ensures
            r.wf(),
            forall|v: int|
                r@.contains(v) == voted(models(proto_entries@), threshold as int, proto@, v),
    {
        let ghost ms = models(proto_entries@);
        let ghost n = proto@;
        let mut out = ProtoSet::new();
        let mut from: Version = 0;
        while from <= MAX_VERSION
            invariant
                all_wf(proto_entries@),
                ms == models(proto_entries@),
                n == proto@,
                out.wf(),
                from <= MAX_VERSION + 1,
                forall|v: int|
                    out@.contains(v) == (0 <= v < from && voted(ms, threshold as int, n, v)),
            decreases MAX_VERSION + 1 - from,
        {
            let mut count: usize = 0;
            let mut end: Version = MAX_VERSION + 1;
            let mut j: usize = 0;
            while j < proto_entries.len()
                invariant
                    all_wf(proto_entries@),
                    ms == models(proto_entries@),
                    n == proto@,
                    j <= proto_entries.len(),
                    from < end <= MAX_VERSION + 1,
                    count <= j,
                    count == vote_count(ms.take(j as int), n, from as int),
                    forall|w: int|
                        from <= w < end ==> #[trigger] vote_count(ms.take(j as int), n, w)
                            == vote_count(ms.take(j as int), n, from as int),
                decreases proto_entries.len() - j,
            {
                let ghost old_end = end;
                assert(proto_entries@[j as int].wf());
                assert(ms[j as int] == proto_entries@[j as int]@);
                match proto_entries[j].get(proto) {
                    Some(s) => {
                        let e = s.run_end(from);
                        if e < end {
                            end = e;
                        }
                        if s.contains(from) {
                            count = count + 1;
                        }
                    },
                    None => {},
                }
                proof {
                    lemma_count_step(ms, j as int, n, from as int);
                    assert forall|w: int| from <= w < end implies #[trigger] vote_count(
                        ms.take(j + 1),
                        n,
                        w,
                    ) == vote_count(ms.take(j + 1), n, from as int) by {
                        lemma_count_step(ms, j as int, n, w);
                        assert(vote_count(ms.take(j as int), n, w) == vote_count(
                            ms.take(j as int),
                            n,
                            from as int,
                        ));
                    }
                }
                j = j + 1;
            }
            proof {
                assert(ms.take(proto_entries.len() as int) =~= ms);
            }
            let ghost prev = out@;
            if count >= threshold && count >= 1 {
                out.push_range(from, end - 1);
            }
            proof {
                assert forall|v: int|
                    out@.contains(v) == (0 <= v < end && voted(ms, threshold as int, n, v)) by {
                    assert(range_set(from as int, end - 1).contains(v) == (from <= v <= end - 1));
                    assert(prev.contains(v) == (0 <= v < from && voted(
                        ms,
                        threshold as int,
                        n,
                        v,
                    )));
                    if from <= v < end {
                        assert(vote_count(ms, n, v) == vote_count(ms, n, from as int));
                    }
                }
            }
            from = end;
        }
        proof {
            assert forall|v: int|
                out@.contains(v) == voted(ms, threshold as int, n, v) by {
                if voted(ms, threshold as int, n, v) {
                    lemma_count_positive(ms, n, v);
                    let i = choose|i: int| 0 <= i < ms.len() && supports(#[trigger] ms[i], n, v);
                    assert(proto_entries@[i].wf());
                    lemma_entry_bounded(proto_entries@[i], n, v);
                }
            }
        }
        out
    }

    /// The outcome of the vote over `proto_entries`: a version of a
    /// protocol is in it exactly if at least `threshold` of the entries,
    /// and at least one, give it. Ranges are counted version by version.
    pub fn compute(proto_entries: &[UnvalidatedProtoEntry], threshold: &usize) -> (r:
        UnvalidatedProtoEntry)
        requires
            all_wf(proto_entries@),
        ensures
            r.wf(),
            r@ == vote_model(models(proto_entries@), *threshold as int),
    {
        let ghost ms = models(proto_entries@);
        let ghost t = *threshold as int;
        let ghost goal = vote_model(ms, t);
        let mut result = UnvalidatedProtoEntry::new();
        let mut i: usize = 0;
        while i < proto_entries.len()
            invariant
                all_wf(proto_entries@),
                ms == models(proto_entries@),
                t == *threshold as int,
                goal == vote_model(ms, t),
                i <= proto_entries.len(),
                result.wf(),
                forall|n: Seq<char>| #[trigger]
                    result@.dom().contains(n) ==> goal.dom().contains(n) && result@[n] == goal[n],
                forall|k: int, n: Seq<char>|
                    0 <= k < i && #[trigger] ms[k].dom().contains(n) && goal.dom().contains(n)
                        ==> result@.dom().contains(n),
            decreases proto_entries.len() - i,
        {
            let entry = &proto_entries[i];
            let m = entry.len();
            let mut k: usize = 0;
            assert(ms[i as int] == entry@);
            while k < m
                invariant
                    all_wf(proto_entries@),
                    ms == models(proto_entries@),
                    t == *threshold as int,
                    goal == vote_model(ms, t),
                    i < proto_entries.len(),
                    entry == &proto_entries@[i as int],
                    m == entry.listing().len(),
                    k <= m,
                    result.wf(),
                    forall|n: Seq<char>| #[trigger]
                        result@.dom().contains(n) ==> goal.dom().contains(n) && result@[n]
                            == goal[n],
                    forall|k: int, n: Seq<char>|
                        0 <= k < i && #[trigger] ms[k].dom().contains(n) && goal.dom().contains(n)
                            ==> result@.dom().contains(n),
                    forall|j: int|
                        0 <= j < k && goal.dom().contains((#[trigger] entry.listing()[j]).0)
                            ==> result@.dom().contains(entry.listing()[j].0),
                decreases m - k,
            {
                let name = entry.name_at(k);
                if result.get(&name).is_none() {
                    let set = Self::tally(proto_entries, &name, *threshold);
                    proof {
                        if goal.dom().contains(name@) {
                            let v = choose|v: int| voted(ms, t, name@, v);
                            assert(set@.contains(v));
                        }
                    }
                    if !set.is_empty() {
                        proof {
                            assert(exists|v: int| set@.contains(v)) by {
                                if forall|v: int| !set@.contains(v) {
                                    assert(set@ =~= Set::<int>::empty());
                                }
                            }
                            let v = choose|v: int| set@.contains(v);
                            assert(voted(ms, t, name@, v));
                            assert(goal.dom().contains(name@));
                            assert(set@ =~= goal[name@]);
                        }
                        result.insert(name, set);
                    }
                }
                k = k + 1;
            }
            proof {
                assert forall|n: Seq<char>| #[trigger]
                    ms[i as int].dom().contains(n) && goal.dom().contains(
                        n,
                    ) implies result@.dom().contains(n) by {
                    lemma_entry_names(*entry, n);
                    let j = choose|j: int|
                        0 <= j < entry.listing().len() && (#[trigger] entry.listing()[j]).0 == n;
                    assert(goal.dom().contains(entry.listing()[j].0));
                }
            }
            i = i + 1;
        }
        proof {
            assert forall|n: Seq<char>| goal.dom().contains(n) implies result@.dom().contains(
                n,
            ) by {
                let v = choose|v: int| voted(ms, t, n, v);
                lemma_count_positive(ms, n, v);
                let k = choose|k: int| 0 <= k < ms.len() && supports(#[trigger] ms[k], n, v);
                assert(ms[k].dom().contains(n));
            }
            assert(result@ =~= goal);
        }
        result
    }
}

/// A version that one of the entries gives is counted at least once.
pub proof fn lemma_count_of_supporter(entries: Seq<EntryModel>, i: int, n: Seq<char>, v: int)
    requires
        0 <= i < entries.len(),
        supports(entries[i], n, v),
    ensures
        vote_count(entries, n, v) >= 1,
    decreases entries.len(),
{
    if i < entries.len() - 1 {
        assert(entries.drop_last()[i] == entries[i]);
        lemma_count_of_supporter(entries.drop_last(), i, n, v);
    }
}

/// With a threshold of zero, or of one, the outcome is the union of the
/// entries: a version wins exactly if some entry gives it.
pub proof fn lemma_vote_union(entries: Seq<EntryModel>, threshold: int, n: Seq<char>, v: int)
    requires
        threshold <= 1,
    ensures
        supports(vote_model(entries, threshold), n, v) <==> exists|i: int|
            0 <= i < entries.len() && supports(#[trigger] entries[i], n, v),
{
    if supports(vote_model(entries, threshold), n, v) {
        assert(voted(entries, threshold, n, v));
        lemma_count_positive(entries, n, v);
    }
    if exists|i: int| 0 <= i < entries.len() && supports(#[trigger] entries[i], n, v) {
        let i = choose|i: int| 0 <= i < entries.len() && supports(#[trigger] entries[i], n, v);
        lemma_count_of_supporter(entries, i, n, v);
        assert(voted(entries, threshold, n, v));
    }
}

/// With a threshold above the number of entries nothing wins.
pub proof fn lemma_vote_above_count(entries: Seq<EntryModel>, threshold: int)
    requires
        threshold > entries.len(),
    ensures
        vote_model(entries, threshold) == Map::<Seq<char>, Set<int>>::empty(),
{
    assert forall|n: Seq<char>| !vote_model(entries, threshold).dom().contains(n) by {
        if vote_model(entries, threshold).dom().contains(n) {
            let v = choose|v: int| voted(entries, threshold, n, v);
            lemma_count_bounded(entries, n, v);
        }
    }
    assert(vote_model(entries, threshold) =~= Map::<Seq<char>, Set<int>>::empty());
}

/// A higher threshold never lets a version win that a lower one refuses.
pub proof fn lemma_vote_monotone(entries: Seq<EntryModel>, t1: int, t2: int, n: Seq<char>, v: int)
    requires
        t1 <= t2,
        supports(vote_model(entries, t2), n, v),
    ensures
        supports(vote_model(entries, t1), n, v),
{
    assert(voted(entries, t2, n, v));
    assert(voted(entries, t1, n, v));
}

} // verus!
