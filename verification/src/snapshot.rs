//! The snapshot: the record of the most recent fully successful poll,
//! a mapping from torrent name to completion flag.

use vstd::prelude::*;
use crate::torrent::{TorrentStatus, obs_seq, clone_bytes, bytes_eq};

verus! {

/// The mapping that a sequence of observations induces: later
/// observations of the same name win.
pub open spec fn obs_map(s: Seq<(Seq<u8>, bool)>) -> Map<Seq<u8>, bool>
    decreases s.len(),
{
    if s.len() == 0 {
        Map::empty()
    } else {
        obs_map(s.drop_last()).insert(s.last().0, s.last().1)
    }
}

/// If the last occurrence of name `n` in `s` is at index `i`, the
/// induced map sends `n` to the flag observed there.
pub proof fn lemma_obs_map_last(s: Seq<(Seq<u8>, bool)>, n: Seq<u8>, i: int)
    requires
        0 <= i < s.len(),
        s[i].0 == n,
        forall|j: int| i < j < s.len() ==> s[j].0 != n,
    ensures
        obs_map(s).contains_key(n),
        obs_map(s)[n] == s[i].1,
    decreases s.len(),
{
    if i == s.len() - 1 {
    } else {
        assert(s.last().0 != n);
        lemma_obs_map_last(s.drop_last(), n, i);
    }
}

/// A name observed nowhere in `s` is absent from the induced map.
pub proof fn lemma_obs_map_absent(s: Seq<(Seq<u8>, bool)>, n: Seq<u8>)
    requires
        forall|j: int| 0 <= j < s.len() ==> s[j].0 != n,
    ensures
        !obs_map(s).contains_key(n),
    decreases s.len(),
{
    if s.len() > 0 {
        lemma_obs_map_absent(s.drop_last(), n);
    }
}

/// Appending one observation updates the induced map at its name.
pub proof fn lemma_obs_map_push(s: Seq<(Seq<u8>, bool)>, o: (Seq<u8>, bool))
    ensures
        obs_map(s.push(o)) == obs_map(s).insert(o.0, o.1),
{
    assert(s.push(o).drop_last() =~= s);
    assert(s.push(o).last() == o);
}

/// Overwriting the flag at the unique index of name `n` updates the
/// induced map exactly as an insert does.
pub proof fn lemma_obs_map_update(s: Seq<(Seq<u8>, bool)>, i: int, f: bool)
    requires
        0 <= i < s.len(),
        forall|j: int| 0 <= j < s.len() && j != i ==> s[j].0 != s[i].0,
    ensures
        obs_map(s.update(i, (s[i].0, f))) == obs_map(s).insert(s[i].0, f),
    decreases s.len(),
{
    let n = s[i].0;
    let t = s.update(i, (n, f));
    if i == s.len() - 1 {
        assert(t.drop_last() =~= s.drop_last());
        assert(t.last() == (n, f));
        assert(obs_map(t) == obs_map(s.drop_last()).insert(n, f));
        assert(obs_map(s).insert(n, f) =~= obs_map(s.drop_last()).insert(n, f));
    } else {
        assert(t.drop_last() =~= s.drop_last().update(i, (n, f)));
        assert(s.drop_last()[i] == s[i]);
        lemma_obs_map_update(s.drop_last(), i, f);
        assert(t.last() == s.last());
        assert(s.last().0 != n);
        assert(obs_map(t) == obs_map(s.drop_last()).insert(n, f).insert(s.last().0, s.last().1));
        assert(obs_map(s.drop_last()).insert(n, f).insert(s.last().0, s.last().1)
            =~= obs_map(s.drop_last()).insert(s.last().0, s.last().1).insert(n, f));
    }
}

/// The snapshot of the last successful poll.  Internally a list of
/// records with pairwise distinct names; its abstract value is the
/// induced name-to-flag map.
#[derive(Debug, PartialEq, Eq)]
pub struct Snapshot {
    pub records: Vec<TorrentStatus>,
}

impl View for Snapshot {
    type V = Map<Seq<u8>, bool>;

    open spec fn view(&self) -> Map<Seq<u8>, bool> {
        obs_map(obs_seq(self.records@))
    }
}

impl Snapshot {
    /// The records in the order held, as the specification sees them.
    pub open spec fn records_view(self) -> Seq<(Seq<u8>, bool)> {
        obs_seq(self.records@)
    }

    /// Well-formedness: no name occurs twice.
    pub open spec fn wf(self) -> bool {
        forall|i: int, j: int|
            0 <= i < j < self.records@.len()
                ==> self.records@[i].name@ != self.records@[j].name@
    }

    /// The empty snapshot: no torrent is known.
    pub fn new() -> (s: Snapshot)
        ensures
            s@ == Map::<Seq<u8>, bool>::empty(),
            s.wf(),
            s.records_view() == Seq::<(Seq<u8>, bool)>::empty(),
    {
        let s = Snapshot { records: Vec::new() };
        proof {
            assert(obs_seq(s.records@) =~= Seq::<(Seq<u8>, bool)>::empty());
        }
        s
    }

    /// Index of the last record named `n`, if any.
    fn find(&self, n: &Vec<u8>) -> (r: Option<usize>)
        ensures
            match r {
                Some(i) => i < self.records@.len() && self.records@[i as int].name@ == n@
                    && forall|j: int| i < j < self.records@.len()
                        ==> self.records@[j].name@ != n@,
                None => forall|j: int| 0 <= j < self.records@.len()
                    ==> self.records@[j].name@ != n@,
            },
    {
        let mut i: usize = self.records.len();
        while i > 0
            invariant
                i <= self.records@.len(),
                forall|j: int| i <= j < self.records@.len()
                    ==> self.records@[j].name@ != n@,
            decreases i,
        {
            i = i - 1;
            if bytes_eq(&self.records[i].name, n) {
                return Some(i);
            }
        }
        None
    }

    /// The flag recorded for name `n`, or `None` if `n` is unknown.
    pub fn lookup(&self, n: &Vec<u8>) -> (r: Option<bool>)
        ensures
            r == if self@.contains_key(n@) {
                Some(self@[n@])
            } else {
                None::<bool>
            },
    {
        match self.find(n) {
            Some(i) => {
                let f = self.records[i].is_finished;
                proof {
                    lemma_obs_map_last(obs_seq(self.records@), n@, i as int);
                }
                Some(f)
            }
            None => {
                proof {
                    lemma_obs_map_absent(obs_seq(self.records@), n@);
                }
                None
            }
        }
    }

    /// Whether name `n` is recorded at all.
    pub fn contains(&self, n: &Vec<u8>) -> (r: bool)
        ensures
            r == self@.contains_key(n@),
    {
        self.lookup(n).is_some()
    }

    /// Builds the snapshot that a successful poll leaves behind.  The
    /// snapshot is derived from the observations alone; on a repeated
    /// name the later observation wins.
    pub fn from_observations(obs: &Vec<TorrentStatus>) -> (s: Snapshot)
        ensures
            s@ == obs_map(obs_seq(obs@)),
            s.wf(),
    {
        let mut s = Snapshot::new();
        let mut i: usize = 0;
        proof {
            assert(obs_seq(obs@).take(0) =~= Seq::<(Seq<u8>, bool)>::empty());
        }
        while i < obs.len()
            invariant
                i <= obs@.len(),
                s.wf(),
                s@ == obs_map(obs_seq(obs@).take(i as int)),
            decreases obs@.len() - i,
        {
            let name = clone_bytes(&obs[i].name);
            let fin = obs[i].is_finished;
            proof {
                assert(obs_seq(obs@).take(i + 1).drop_last() =~= obs_seq(obs@).take(i as int));
                assert(obs_seq(obs@).take(i + 1).last() == (name@, fin));
            }
            s.upsert(TorrentStatus { name, is_finished: fin });
            i = i + 1;
        }
        proof {
            assert(obs_seq(obs@).take(obs@.len() as int) =~= obs_seq(obs@));
        }
        s
    }

    /// Records one observation, replacing any record of the same name.
    fn upsert(&mut self, o: TorrentStatus)
        requires
            old(self).wf(),
        ensures
            final(self).wf(),
            final(self)@ == old(self)@.insert(o.name@, o.is_finished),
    {
        let ghost s0 = obs_seq(self.records@);
        match self.find(&o.name) {
            Some(i) => {
                proof {
                    assert(forall|j: int| 0 <= j < s0.len() && j != i ==> s0[j].0 != s0[i as int].0);
                }
                self.records.set(i, o);
                proof {
                    assert(obs_seq(self.records@) =~= s0.update(i as int, (s0[i as int].0, o.is_finished)));
                    lemma_obs_map_update(s0, i as int, o.is_finished);
                }
            }
            None => {
                self.records.push(o);
                proof {
                    assert(obs_seq(self.records@) =~= s0.push((o.name@, o.is_finished)));
                    lemma_obs_map_push(s0, (o.name@, o.is_finished));
                }
            }
        }
    }
}

} // verus!
