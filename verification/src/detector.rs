//! The change detector: classifies each observation of a poll against
//! the prior snapshot, decides which notifications to emit, derives
//! the snapshot to persist, and picks the next wait interval.

use vstd::prelude::*;
use crate::torrent::{TorrentStatus, Event, EventV, obs_seq, clone_bytes};
use crate::snapshot::{Snapshot, obs_map};

verus! {

/// Seconds to wait after a successful poll.
pub const WAIT_AFTER_SUCCESS_SECS: u64 = 60;

/// Seconds to wait after a failed poll.
pub const WAIT_AFTER_FAILURE_SECS: u64 = 300;

/// Seconds to wait before the first poll: none, so that transitions
/// bridging a restart are reported promptly.
pub const INITIAL_WAIT_SECS: u64 = 0;

/// The name an event speaks about.
pub open spec fn event_name(e: EventV) -> Seq<u8> {
    match e {
        EventV::Started(n) => n,
        EventV::Completed(n) => n,
    }
}

/// The notifications one observation gives rise to, given the prior
/// snapshot `p`: a "started" event for a new unfinished torrent, a
/// "completed" event for a recorded-unfinished torrent now finished,
/// nothing otherwise.
pub open spec fn event_for(p: Map<Seq<u8>, bool>, o: (Seq<u8>, bool)) -> Seq<EventV> {
    if !p.contains_key(o.0) && !o.1 {
        seq![EventV::Started(o.0)]
    } else if p.contains_key(o.0) && p[o.0] == false && o.1 {
        seq![EventV::Completed(o.0)]
    } else {
        Seq::empty()
    }
}

/// The notifications of one whole cycle, in observation order.  Every
/// observation is classified against the same prior snapshot `p`.
pub open spec fn cycle_events(p: Map<Seq<u8>, bool>, c: Seq<(Seq<u8>, bool)>) -> Seq<EventV>
    decreases c.len(),
{
    if c.len() == 0 {
        Seq::empty()
    } else {
        cycle_events(p, c.drop_last()) + event_for(p, c.last())
    }
}

/// The events of a sequence, as the specification sees them.
pub open spec fn evs_view(s: Seq<Event>) -> Seq<EventV> {
    s.map_values(|e: Event| e@)
}

/// Classifies every observation of the current poll against the prior
/// snapshot and returns the notifications to emit, in observation
/// order.
pub fn detect_events(prior: &Snapshot, current: &Vec<TorrentStatus>) -> (events: Vec<Event>)
    ensures
        evs_view(events@) == cycle_events(prior@, obs_seq(current@)),
{
    let ghost p = prior@;
    let ghost c = obs_seq(current@);
    let mut events: Vec<Event> = Vec::new();
    let mut i: usize = 0;
    proof {
        assert(c.take(0) =~= Seq::<(Seq<u8>, bool)>::empty());
        assert(evs_view(events@) =~= Seq::<EventV>::empty());
    }
    while i < current.len()
        invariant
            i <= current@.len(),
            p == prior@,
            c == obs_seq(current@),
            evs_view(events@) == cycle_events(p, c.take(i as int)),
        decreases current@.len() - i,
    {
        let ghost evs0 = events@;
        let fin = current[i].is_finished;
        match prior.lookup(&current[i].name) {
            None => {
                if !fin {
                    let name = clone_bytes(&current[i].name);
                    events.push(Event::Started { name });
                }
            }
            Some(prev) => {
                if fin && !prev {
                    let name = clone_bytes(&current[i].name);
                    events.push(Event::Completed { name });
                }
            }
        }
        proof {
            assert(c.take(i + 1).drop_last() =~= c.take(i as int));
            assert(c.take(i + 1).last() == c[i as int]);
            assert(evs_view(events@) =~= evs_view(evs0) + event_for(p, c[i as int]));
        }
        i = i + 1;
    }
    proof {
        assert(c.take(c.len() as int) =~= c);
    }
    events
}

/// What one cycle leaves behind: the snapshot to carry forward (and
/// persist, if the poll succeeded), the notifications to emit, and
/// the next wait interval in seconds.
pub struct CycleOutcome {
    pub snapshot: Snapshot,
    pub events: Vec<Event>,
    pub next_wait_secs: u64,
}

/// Runs the decision part of one cycle.  `poll` is `Some(c)` when the
/// poll succeeded with observations `c` (possibly empty), `None` when
/// it failed.
///
/// On success the events are exactly the classification of `c`
/// against the prior snapshot, the new snapshot is derived from `c`
/// alone, and the next wait is short.  On failure nothing is emitted,
/// the prior snapshot is kept unchanged, and the next wait is long.
pub fn run_cycle(prior: Snapshot, poll: Option<Vec<TorrentStatus>>) -> (out: CycleOutcome)
    ensures
        match poll {
            Some(c) => {
                &&& evs_view(out.events@) == cycle_events(prior@, obs_seq(c@))
                &&& out.snapshot@ == obs_map(obs_seq(c@))
                &&& out.snapshot.wf()
                &&& out.next_wait_secs == WAIT_AFTER_SUCCESS_SECS
            },
            None => {
                &&& out.events@ == Seq::<Event>::empty()
                &&& out.snapshot == prior
                &&& out.next_wait_secs == WAIT_AFTER_FAILURE_SECS
            },
        },
{
    match poll {
        Some(c) => {
            let events = detect_events(&prior, &c);
            let snapshot = Snapshot::from_observations(&c);
            CycleOutcome { snapshot, events, next_wait_secs: WAIT_AFTER_SUCCESS_SECS }
        }
        None => {
            CycleOutcome {
                snapshot: prior,
                events: Vec::new(),
                next_wait_secs: WAIT_AFTER_FAILURE_SECS,
            }
        }
    }
}

/// Turns the raw per-torrent fields of a poll response into
/// observations.  A torrent missing either field poisons the whole
/// poll: the result is `None`, to be treated as a poll failure.
pub fn observations_from_fields(raw: &Vec<(Option<Vec<u8>>, Option<bool>)>) -> (r: Option<
    Vec<TorrentStatus>,
>)
    ensures
        match r {
            Some(obs) => {
                &&& (forall|j: int| 0 <= j < raw@.len()
                    ==> raw@[j].0 is Some && raw@[j].1 is Some)
                &&& obs_seq(obs@) == Seq::new(
                    raw@.len(),
                    |j: int| (raw@[j].0->Some_0@, raw@[j].1->Some_0),
                )
            },
            None => exists|j: int| 0 <= j < raw@.len()
                && (raw@[j].0 is None || raw@[j].1 is None),
        },
{
    let ghost rv = raw@;
    let mut obs: Vec<TorrentStatus> = Vec::new();
    let mut i: usize = 0;
    proof {
        assert(obs_seq(obs@) =~= Seq::new(0nat, |j: int| (rv[j].0->Some_0@, rv[j].1->Some_0)));
    }
    while i < raw.len()
        invariant
            i <= rv.len(),
            rv == raw@,
            forall|j: int| 0 <= j < i ==> rv[j].0 is Some && rv[j].1 is Some,
            obs_seq(obs@) == Seq::new(i as nat, |j: int| (rv[j].0->Some_0@, rv[j].1->Some_0)),
        decreases rv.len() - i,
    {
        let ghost obs0 = obs@;
        match (&raw[i].0, &raw[i].1) {
            (Some(name_ref), Some(fin_ref)) => {
                let name = clone_bytes(name_ref);
                let fin = *fin_ref;
                proof {
                    assert(name@ == rv[i as int].0->Some_0@);
                    assert(fin == rv[i as int].1->Some_0);
                }
                obs.push(TorrentStatus { name, is_finished: fin });
                proof {
                    assert(obs_seq(obs@) =~= obs_seq(obs0).push(
                        (rv[i as int].0->Some_0@, rv[i as int].1->Some_0),
                    ));
                    assert(obs_seq(obs@) =~= Seq::new(
                        (i + 1) as nat,
                        |j: int| (rv[j].0->Some_0@, rv[j].1->Some_0),
                    ));
                }
            }
            _ => {
                proof {
                    assert(rv[i as int].0 is None || rv[i as int].1 is None);
                    assert(exists|j: int| 0 <= j < rv.len()
                        && (rv[j].0 is None || rv[j].1 is None)) by {
                        assert((i as int) < rv.len()
                            && (rv[i as int].0 is None || rv[i as int].1 is None));
                    }
                }
                return None;
            }
        }
        i = i + 1;
    }
    Some(obs)
}

} // verus!
