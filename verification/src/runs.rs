//! Laws about whole runs: sequences of cycles, each a successful poll
//! (with its observations) or a failed one, starting from an initial
//! snapshot (what a restart loaded, or empty).

use vstd::prelude::*;
use crate::torrent::EventV;
use crate::snapshot::{obs_map, lemma_obs_map_last};
use crate::detector::{cycle_events, event_for, event_name};

verus! {

/// One cycle's poll as the specification sees it: the observations,
/// or `None` for a failed poll.
pub type PollV = Option<Seq<(Seq<u8>, bool)>>;

/// The snapshot in force after a run: the last successful poll's
/// observations decide it; failed polls leave it alone.
pub open spec fn snap_after(p0: Map<Seq<u8>, bool>, run: Seq<PollV>) -> Map<Seq<u8>, bool>
    decreases run.len(),
{
    if run.len() == 0 {
        p0
    } else {
        match run.last() {
            None => snap_after(p0, run.drop_last()),
            Some(c) => obs_map(c),
        }
    }
}

/// How many events of a sequence are "download started" for name `n`.
pub open spec fn count_started(evs: Seq<EventV>, n: Seq<u8>) -> nat
    decreases evs.len(),
{
    if evs.len() == 0 {
        0
    } else {
        count_started(evs.drop_last(), n) + if evs.last() == EventV::Started(n) {
            1nat
        } else {
            0nat
        }
    }
}

/// How many events of a sequence speak about name `n` at all.
pub open spec fn count_named(evs: Seq<EventV>, n: Seq<u8>) -> nat
    decreases evs.len(),
{
    if evs.len() == 0 {
        0
    } else {
        count_named(evs.drop_last(), n) + if event_name(evs.last()) == n {
            1nat
        } else {
            0nat
        }
    }
}

/// How many observations of a cycle carry name `n`.
pub open spec fn obs_count(c: Seq<(Seq<u8>, bool)>, n: Seq<u8>) -> nat
    decreases c.len(),
{
    if c.len() == 0 {
        0
    } else {
        obs_count(c.drop_last(), n) + if c.last().0 == n {
            1nat
        } else {
            0nat
        }
    }
}

/// "Download started" notifications for `n` across a whole run.
pub open spec fn run_started_count(p0: Map<Seq<u8>, bool>, run: Seq<PollV>, n: Seq<u8>) -> nat
    decreases run.len(),
{
    if run.len() == 0 {
        0
    } else {
        run_started_count(p0, run.drop_last(), n) + match run.last() {
            None => 0nat,
            Some(c) => count_started(cycle_events(snap_after(p0, run.drop_last()), c), n),
        }
    }
}

/// Notifications of either kind for `n` across a whole run.
pub open spec fn run_named_count(p0: Map<Seq<u8>, bool>, run: Seq<PollV>, n: Seq<u8>) -> nat
    decreases run.len(),
{
    if run.len() == 0 {
        0
    } else {
        run_named_count(p0, run.drop_last(), n) + match run.last() {
            None => 0nat,
            Some(c) => count_named(cycle_events(snap_after(p0, run.drop_last()), c), n),
        }
    }
}

/// Cycles of a run in which `n` vanished: it was in the snapshot and
/// a successful poll no longer observed it.
pub open spec fn run_vanish_count(p0: Map<Seq<u8>, bool>, run: Seq<PollV>, n: Seq<u8>) -> nat
    decreases run.len(),
{
    if run.len() == 0 {
        0
    } else {
        run_vanish_count(p0, run.drop_last(), n) + match run.last() {
            None => 0nat,
            Some(c) => if snap_after(p0, run.drop_last()).contains_key(n)
                && !obs_map(c).contains_key(n) {
                1nat
            } else {
                0nat
            },
        }
    }
}

/// Every observation of `n` in the cycle reports it finished.
pub open spec fn all_finished_for(c: Seq<(Seq<u8>, bool)>, n: Seq<u8>) -> bool {
    forall|j: int| 0 <= j < c.len() && c[j].0 == n ==> c[j].1
}

proof fn lemma_count_started_concat(a: Seq<EventV>, b: Seq<EventV>, n: Seq<u8>)
    ensures
        count_started(a + b, n) == count_started(a, n) + count_started(b, n),
    decreases b.len(),
{
    if b.len() == 0 {
        assert(a + b =~= a);
    } else {
        assert((a + b).drop_last() =~= a + b.drop_last());
        assert((a + b).last() == b.last());
        lemma_count_started_concat(a, b.drop_last(), n);
    }
}

proof fn lemma_count_named_concat(a: Seq<EventV>, b: Seq<EventV>, n: Seq<u8>)
    ensures
        count_named(a + b, n) == count_named(a, n) + count_named(b, n),
    decreases b.len(),
{
    if b.len() == 0 {
        assert(a + b =~= a);
    } else {
        assert((a + b).drop_last() =~= a + b.drop_last());
        assert((a + b).last() == b.last());
        lemma_count_named_concat(a, b.drop_last(), n);
    }
}

proof fn lemma_counts_single(e: EventV, n: Seq<u8>)
    ensures
        count_started(seq![e], n) == if e == EventV::Started(n) {
            1nat
        } else {
            0nat
        },
        count_named(seq![e], n) == if event_name(e) == n {
            1nat
        } else {
            0nat
        },
{
    reveal_with_fuel(count_started, 2);
    reveal_with_fuel(count_named, 2);
    assert(seq![e].drop_last() =~= Seq::<EventV>::empty());
    assert(seq![e].last() == e);
}

proof fn lemma_started_le_obs(p: Map<Seq<u8>, bool>, c: Seq<(Seq<u8>, bool)>, n: Seq<u8>)
    ensures
        count_started(cycle_events(p, c), n) <= obs_count(c, n),
    decreases c.len(),
{
    if c.len() > 0 {
        lemma_started_le_obs(p, c.drop_last(), n);
        lemma_count_started_concat(cycle_events(p, c.drop_last()), event_for(p, c.last()), n);
        let ef = event_for(p, c.last());
        if ef.len() > 0 {
            assert(ef =~= seq![ef[0]]);
            lemma_counts_single(ef[0], n);
        }
        assert(count_started(ef, n) <= if c.last().0 == n {
            1nat
        } else {
            0nat
        });
    }
}

proof fn lemma_started_zero_if_known(p: Map<Seq<u8>, bool>, c: Seq<(Seq<u8>, bool)>, n: Seq<u8>)
    requires
        p.contains_key(n),
    ensures
        count_started(cycle_events(p, c), n) == 0,
    decreases c.len(),
{
    if c.len() > 0 {
        lemma_started_zero_if_known(p, c.drop_last(), n);
        lemma_count_started_concat(cycle_events(p, c.drop_last()), event_for(p, c.last()), n);
        let ef = event_for(p, c.last());
        if ef.len() > 0 {
            assert(ef =~= seq![ef[0]]);
            lemma_counts_single(ef[0], n);
        }
        assert(count_started(ef, n) == 0);
    }
}

proof fn lemma_obs_count_pos_contains(c: Seq<(Seq<u8>, bool)>, n: Seq<u8>)
    requires
        obs_count(c, n) > 0,
    ensures
        obs_map(c).contains_key(n),
    decreases c.len(),
{
    if c.len() > 0 {
        if c.last().0 == n {
        } else {
            lemma_obs_count_pos_contains(c.drop_last(), n);
        }
    }
}

proof fn lemma_started_bound_inductive(p0: Map<Seq<u8>, bool>, run: Seq<PollV>, n: Seq<u8>)
    requires
        forall|i: int| 0 <= i < run.len() && (#[trigger] run[i]) is Some
            ==> obs_count(run[i]->Some_0, n) <= 1,
    ensures
        snap_after(p0, run).contains_key(n) ==> run_started_count(p0, run, n)
            <= run_vanish_count(p0, run, n) + 1,
        !snap_after(p0, run).contains_key(n) ==> run_started_count(p0, run, n)
            <= run_vanish_count(p0, run, n),
    decreases run.len(),
{
    if run.len() > 0 {
        let rp = run.drop_last();
        assert forall|i: int| 0 <= i < rp.len() && (#[trigger] rp[i]) is Some implies obs_count(
            rp[i]->Some_0,
            n,
        ) <= 1 by {
            assert(rp[i] == run[i]);
        }
        lemma_started_bound_inductive(p0, rp, n);
        let pre = snap_after(p0, rp);
        match run.last() {
            None => {}
            Some(c) => {
                assert(run[run.len() - 1] is Some);
                assert(obs_count(c, n) <= 1);
                if pre.contains_key(n) {
                    lemma_started_zero_if_known(pre, c, n);
                } else {
                    lemma_started_le_obs(pre, c, n);
                    if !obs_map(c).contains_key(n) {
                        if obs_count(c, n) > 0 {
                            lemma_obs_count_pos_contains(c, n);
                        }
                        assert(obs_count(c, n) == 0);
                    }
                }
            }
        }
    }
}

/// For every torrent name, the "download started" notifications a run
/// emits number at most one more than the cycles in which the name
/// vanished from the source.  (It must vanish before it can be
/// reported as started again.)  The premise asks each successful poll
/// to observe the name at most once: a poll repeating one name could
/// report it started twice in a single cycle.
pub proof fn lemma_started_at_most_one_plus_vanishes(
    p0: Map<Seq<u8>, bool>,
    run: Seq<PollV>,
    n: Seq<u8>,
)
    requires
        forall|i: int| 0 <= i < run.len() && (#[trigger] run[i]) is Some
            ==> obs_count(run[i]->Some_0, n) <= 1,
    ensures
        run_started_count(p0, run, n) <= 1 + run_vanish_count(p0, run, n),
{
    lemma_started_bound_inductive(p0, run, n);
}

/// A "download complete" notification for `n` comes only out of a
/// cycle whose prior snapshot recorded `n` as unfinished and whose
/// poll observed `n` as finished.
pub proof fn lemma_completed_requires_transition(
    p: Map<Seq<u8>, bool>,
    c: Seq<(Seq<u8>, bool)>,
    n: Seq<u8>,
)
    requires
        cycle_events(p, c).contains(EventV::Completed(n)),
    ensures
        p.contains_key(n),
        p[n] == false,
        exists|i: int| 0 <= i < c.len() && c[i] == (n, true),
    decreases c.len(),
{
    assert(c.len() > 0);
    let evs = cycle_events(p, c);
    let k = choose|k: int| 0 <= k < evs.len() && evs[k] == EventV::Completed(n);
    let pre = cycle_events(p, c.drop_last());
    let ef = event_for(p, c.last());
    if k < pre.len() {
        assert(pre[k] == EventV::Completed(n));
        assert(pre.contains(EventV::Completed(n)));
        lemma_completed_requires_transition(p, c.drop_last(), n);
        let i = choose|i: int| 0 <= i < c.drop_last().len() && c.drop_last()[i] == (n, true);
        assert(c[i] == (n, true));
    } else {
        assert(ef[k - pre.len()] == EventV::Completed(n));
        assert(c.last() == (n, true));
        assert(c[c.len() - 1] == (n, true));
    }
}

/// A cycle in which `n` is not recorded as unfinished, and every
/// observation of `n` reports it finished, emits nothing about `n`.
/// In particular a torrent first observed already finished gets no
/// notification.
pub proof fn lemma_no_event_for_already_finished(
    p: Map<Seq<u8>, bool>,
    c: Seq<(Seq<u8>, bool)>,
    n: Seq<u8>,
)
    requires
        p.contains_key(n) ==> p[n] == true,
        all_finished_for(c, n),
    ensures
        count_named(cycle_events(p, c), n) == 0,
    decreases c.len(),
{
    if c.len() > 0 {
        assert(all_finished_for(c.drop_last(), n)) by {
            assert(forall|j: int| 0 <= j < c.drop_last().len() ==> c.drop_last()[j] == c[j]);
        }
        lemma_no_event_for_already_finished(p, c.drop_last(), n);
        lemma_count_named_concat(cycle_events(p, c.drop_last()), event_for(p, c.last()), n);
        let o = c.last();
        let ef = event_for(p, o);
        if ef.len() > 0 {
            assert(ef =~= seq![ef[0]]);
            lemma_counts_single(ef[0], n);
        }
        if o.0 == n {
            assert(c[c.len() - 1].0 == n);
            assert(o.1);
            assert(count_named(ef, n) == 0);
        } else {
            assert(count_named(ef, n) == 0);
        }
    }
}

proof fn lemma_obs_map_value_from_obs(c: Seq<(Seq<u8>, bool)>, n: Seq<u8>)
    requires
        all_finished_for(c, n),
        obs_map(c).contains_key(n),
    ensures
        obs_map(c)[n] == true,
    decreases c.len(),
{
    assert(c.len() > 0);
    if c.last().0 == n {
        assert(c[c.len() - 1].0 == n);
    } else {
        assert(all_finished_for(c.drop_last(), n)) by {
            assert(forall|j: int| 0 <= j < c.drop_last().len() ==> c.drop_last()[j] == c[j]);
        }
        lemma_obs_map_value_from_obs(c.drop_last(), n);
    }
}

/// Across a whole run, a torrent that is never recorded or observed
/// unfinished is never notified about: neither "started" nor
/// "complete".
pub proof fn lemma_finished_first_never_notified(
    p0: Map<Seq<u8>, bool>,
    run: Seq<PollV>,
    n: Seq<u8>,
)
    requires
        p0.contains_key(n) ==> p0[n] == true,
        forall|i: int| 0 <= i < run.len() && (#[trigger] run[i]) is Some
            ==> all_finished_for(run[i]->Some_0, n),
    ensures
        run_named_count(p0, run, n) == 0,
        snap_after(p0, run).contains_key(n) ==> snap_after(p0, run)[n] == true,
    decreases run.len(),
{
    if run.len() > 0 {
        let rp = run.drop_last();
        assert forall|i: int| 0 <= i < rp.len() && (#[trigger] rp[i]) is Some implies
            all_finished_for(rp[i]->Some_0, n) by {
            assert(rp[i] == run[i]);
        }
        lemma_finished_first_never_notified(p0, rp, n);
        let pre = snap_after(p0, rp);
        match run.last() {
            None => {}
            Some(c) => {
                assert(run[run.len() - 1] is Some);
                assert(all_finished_for(c, n));
                lemma_no_event_for_already_finished(pre, c, n);
                if obs_map(c).contains_key(n) {
                    lemma_obs_map_value_from_obs(c, n);
                }
            }
        }
    }
}

proof fn lemma_events_empty_if_all_unchanged(p: Map<Seq<u8>, bool>, c: Seq<(Seq<u8>, bool)>)
    requires
        forall|j: int| 0 <= j < c.len()
            ==> p.contains_key(#[trigger] c[j].0) && p[c[j].0] == c[j].1,
    ensures
        cycle_events(p, c) == Seq::<EventV>::empty(),
    decreases c.len(),
{
    if c.len() > 0 {
        assert(forall|j: int| 0 <= j < c.drop_last().len() ==> c.drop_last()[j] == c[j]);
        lemma_events_empty_if_all_unchanged(p, c.drop_last());
        assert(c[c.len() - 1].0 == c.last().0);
        assert(event_for(p, c.last()) =~= Seq::<EventV>::empty());
        assert(cycle_events(p, c) =~= Seq::<EventV>::empty());
    }
}

/// Idempotence after advancement: once the snapshot has been advanced
/// to a poll's observations, running the detector again on the same
/// observations emits nothing.  (On the same prior snapshot it emits
/// the same events: the events are a function of snapshot and
/// observations.)  The premise rules out a poll repeating one name
/// with two different flags.
pub proof fn lemma_after_advance_silent(c: Seq<(Seq<u8>, bool)>)
    requires
        forall|i: int, j: int| 0 <= i < j < c.len() ==> (#[trigger] c[i]).0 != (#[trigger] c[j]).0,
    ensures
        cycle_events(obs_map(c), c) == Seq::<EventV>::empty(),
{
    let p = obs_map(c);
    assert forall|j: int| 0 <= j < c.len() implies p.contains_key(#[trigger] c[j].0)
        && p[c[j].0] == c[j].1 by {
        lemma_obs_map_last(c, c[j].0, j);
    }
    lemma_events_empty_if_all_unchanged(p, c);
}

} // verus!

