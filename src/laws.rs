use vstd::prelude::*;

use crate::controller::{
    conflict_at, implied_after, policy_frontier, ratchet, CollectionState, GlobalId, ReadPolicy,
    SourceDesc,
};
use crate::frontier::{apply, count, frontier_delta, frontier_le, is_frontier, Frontier, Timestamp};

verus! {

/// The antichain order is transitive.
pub proof fn lemma_frontier_le_transitive(a: Frontier, b: Frontier, c: Frontier)
    requires
        frontier_le(a, b),
        frontier_le(b, c),
    ensures
        frontier_le(a, c),
{
}

/// The implied capability never regresses: one ratchet step moves it forward or leaves it.
pub proof fn lemma_ratchet_advances(implied: Frontier, proposal: Frontier)
    ensures
        frontier_le(implied, ratchet(implied, proposal)),
{
    if !frontier_le(implied, proposal) {
        match implied {
            Some(x) => {},
            None => {},
        }
    }
}

/// The implied capability never regresses across any sequence of policy assignments.
pub proof fn lemma_policies_advance(
    write: Frontier,
    id: GlobalId,
    ps: Seq<(GlobalId, ReadPolicy)>,
    init: Frontier,
)
    ensures
        frontier_le(init, implied_after(write, id, ps, init)),
    decreases ps.len(),
{
    if ps.len() > 0 {
        let prev = implied_after(write, id, ps.drop_last(), init);
        lemma_policies_advance(write, id, ps.drop_last(), init);
        lemma_ratchet_advances(prev, policy_frontier(ps.last().1, write));
        lemma_frontier_le_transitive(
            init,
            prev,
            ratchet(prev, policy_frontier(ps.last().1, write)),
        );
    }
}

/// Compaction never moves backwards when a held implied capability advances: if the old
/// implied capability is held in the read capabilities and the new one is at or beyond it,
/// moving the hold leaves the read frontier at or beyond where it was.
pub proof fn lemma_compaction_advances(
    m: Map<Timestamp, int>,
    old: Frontier,
    new: Frontier,
    f: Frontier,
    g: Frontier,
)
    requires
        frontier_le(old, new),
        match old {
            Some(t) => count(m, t) > 0,
            None => true,
        },
        is_frontier(m, f),
        is_frontier(apply(m, frontier_delta(old, new)), g),
    ensures
        frontier_le(f, g),
{
    let d = frontier_delta(old, new);
    let m2 = apply(m, d);
    if old == new {
        assert(d.len() == 0);
        assert(m2 == m);
        crate::frontier::lemma_frontier_unique(m, f, g);
        match f {
            Some(x) => {},
            None => {},
        }
    } else {
        // Every time positive afterwards was positive before or is the new hold.
        let m1 = if d.len() > 0 {
            crate::frontier::apply_one(m, d[0])
        } else {
            m
        };
        assert forall|t: Timestamp| count(m2, t) > 0 implies (count(m, t) > 0 || new == Some(t)) by {
            match new {
                Some(x) => {
                    assert(d[0] == (x, 1i64));
                    match old {
                        Some(y) => {
                            assert(d.len() == 2);
                            assert(m2 == apply(m1, d.drop_first()));
                            assert(d.drop_first()[0] == d[1]);
                            assert(d.drop_first().drop_first().len() == 0);
                            assert(apply(m1, d.drop_first()) == apply(
                                crate::frontier::apply_one(m1, d.drop_first()[0]),
                                d.drop_first().drop_first(),
                            ));
                            assert(m2 == crate::frontier::apply_one(m1, d[1]));
                        },
                        None => {
                            assert(d.len() == 1);
                            assert(m2 == apply(m1, d.drop_first()));
                            assert(d.drop_first().len() == 0);
                            assert(m2 == m1);
                        },
                    }
                },
                None => {
                    match old {
                        Some(y) => {
                            assert(d.len() == 1);
                            assert(d[0] == (y, -1i64));
                            assert(m2 == apply(m1, d.drop_first()));
                            assert(d.drop_first().len() == 0);
                            assert(m2 == m1);
                        },
                        None => {},
                    }
                },
            }
        }
        match g {
            None => {},
            Some(z) => {
                assert(count(m2, z) > 0);
                match f {
                    None => {
                        match old {
                            Some(t) => {
                                assert(count(m, t) > 0);
                            },
                            None => {
                                assert(new.is_none());
                            },
                        }
                    },
                    Some(x) => {
                        if count(m, z) > 0 {
                            assert(x <= z);
                        } else {
                            match old {
                                Some(t) => {
                                    assert(count(m, t) > 0);
                                    assert(x <= t);
                                },
                                None => {},
                            }
                        }
                    },
                }
            },
        }
    }
}

/// Under a lag policy, advancing the write frontier keeps the implied capability at or below
/// it, provided it was at or below the earlier write frontier.
pub proof fn lemma_lag_stays_behind_writes(implied: Frontier, lag: Timestamp, write: Frontier, next: Frontier)
    requires
        frontier_le(implied, write),
        frontier_le(write, next),
    ensures
        frontier_le(ratchet(implied, policy_frontier(ReadPolicy::LagBy(lag), next)), next),
{
}

/// Reads never advance past writes while the implied capability is held and lies at or
/// below the write frontier: the read frontier is then at or below the write frontier.
pub proof fn lemma_reads_behind_writes(m: Map<Timestamp, int>, implied: Frontier, f: Frontier, write: Frontier)
    requires
        match implied {
            Some(t) => count(m, t) > 0,
            None => true,
        },
        is_frontier(m, f),
        frontier_le(implied, write),
    ensures
        frontier_le(f, write),
{
    match implied {
        Some(t) => {
            match f {
                Some(x) => {
                    assert(x <= t);
                },
                None => {
                    assert(count(m, t) > 0);
                },
            }
        },
        None => {},
    }
}

/// Once registered, an id keeps its slot and description: binding it again to any other
/// description conflicts with the registry, so creation fails with `SourceIdReused`.
pub proof fn lemma_rebinding_conflicts(
    m: Map<GlobalId, CollectionState>,
    id: GlobalId,
    desc: (SourceDesc, Frontier),
)
    requires
        m.contains_key(id),
        m[id].description != desc,
    ensures
        conflict_at(m, seq![(id, desc)], 0),
{
}

} // verus!

verus! {

/// Moving a hold onto a new time raises the count there by one.
pub proof fn lemma_new_hold_counted(m: Map<Timestamp, int>, old: Frontier, x: Timestamp)
    requires
        old != Some(x),
    ensures
        count(apply(m, frontier_delta(old, Some(x))), x) == count(m, x) + 1,
{
    let d = frontier_delta(old, Some(x));
    let m1 = crate::frontier::apply_one(m, d[0]);
    assert(d[0] == (x, 1i64));
    assert(apply(m, d) == apply(m1, d.drop_first()));
    match old {
        Some(y) => {
            assert(d.len() == 2);
            assert(d.drop_first()[0] == (y, -1i64));
            assert(d.drop_first().drop_first().len() == 0);
            assert(apply(m1, d.drop_first()) == apply(
                crate::frontier::apply_one(m1, d.drop_first()[0]),
                d.drop_first().drop_first(),
            ));
        },
        None => {
            assert(d.len() == 1);
            assert(d.drop_first().len() == 0);
        },
    }
}

/// Reads stay behind writes under a lag policy: when the held implied capability (with no
/// negative holds) is at or below the write frontier and the write frontier advances, the
/// updated collection reads at or below its write frontier.
pub proof fn lemma_lag_keeps_reads_behind_writes(o: CollectionState, f: CollectionState, lag: Timestamp)
    requires
        o.wf(),
        f.wf(),
        o.read_policy == ReadPolicy::LagBy(lag),
        crate::controller::held(o),
        forall|t: Timestamp| count(o.read_capabilities@, t) >= 0,
        frontier_le(o.implied_capability, o.upper()),
        frontier_le(o.upper(), f.upper()),
        f.implied_capability == ratchet(o.implied_capability, policy_frontier(o.read_policy, f.upper())),
        f.read_capabilities@ == apply(
            o.read_capabilities@,
            frontier_delta(o.implied_capability, f.implied_capability),
        ),
    ensures
        frontier_le(f.since(), f.upper()),
{
    lemma_frontier_le_transitive(o.implied_capability, o.upper(), f.upper());
    lemma_lag_stays_behind_writes(o.implied_capability, lag, f.upper(), f.upper());
    f.read_capabilities.lemma_wf_frontier();
    if f.implied_capability == o.implied_capability {
        assert(frontier_delta(o.implied_capability, f.implied_capability).len() == 0);
        assert(f.read_capabilities@ == o.read_capabilities@);
    } else {
        match f.implied_capability {
            Some(x) => {
                lemma_new_hold_counted(o.read_capabilities@, o.implied_capability, x);
                assert(count(o.read_capabilities@, x) >= 0);
            },
            None => {},
        }
    }
    lemma_reads_behind_writes(
        f.read_capabilities@,
        f.implied_capability,
        f.since(),
        f.upper(),
    );
}

} // verus!
