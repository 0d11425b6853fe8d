//! The per-poll observation of one torrent, and the notification
//! events the bridge can emit for it.

use vstd::prelude::*;

verus! {

/// One remote torrent as seen during a single poll.  The name (as
/// bytes) is the stable identity key; the flag says whether the
/// download has finished.
#[derive(Debug, PartialEq, Eq)]
pub struct TorrentStatus {
    pub name: Vec<u8>,
    pub is_finished: bool,
}

impl View for TorrentStatus {
    type V = (Seq<u8>, bool);

    open spec fn view(&self) -> (Seq<u8>, bool) {
        (self.name@, self.is_finished)
    }
}

impl Clone for TorrentStatus {
    fn clone(&self) -> (r: Self)
        ensures
            r@ == self@,
    {
        TorrentStatus { name: clone_bytes(&self.name), is_finished: self.is_finished }
    }
}

/// The observation sequence as the specification sees it: a sequence
/// of (name, finished) pairs.
pub open spec fn obs_seq(v: Seq<TorrentStatus>) -> Seq<(Seq<u8>, bool)> {
    v.map_values(|t: TorrentStatus| t@)
}

/// A notification event decided by the change detector.
#[derive(Debug, PartialEq, Eq)]
pub enum Event {
    /// The torrent was newly observed, still downloading.
    Started { name: Vec<u8> },
    /// The torrent was previously recorded as unfinished and is now
    /// observed finished.
    Completed { name: Vec<u8> },
}

/// Specification-level form of an event.
pub enum EventV {
    Started(Seq<u8>),
    Completed(Seq<u8>),
}

impl View for Event {
    type V = EventV;

    open spec fn view(&self) -> EventV {
        match self {
            Event::Started { name } => EventV::Started(name@),
            Event::Completed { name } => EventV::Completed(name@),
        }
    }
}

/// The bytes of " download started", the message tail of a
/// start notification.
pub open spec fn started_suffix() -> Seq<u8> {
    seq![0x20u8, 0x64u8, 0x6fu8, 0x77u8, 0x6eu8, 0x6cu8, 0x6fu8, 0x61u8, 0x64u8, 0x20u8, 0x73u8,
        0x74u8, 0x61u8, 0x72u8, 0x74u8, 0x65u8, 0x64u8]
}

/// The bytes of " download complete", the message tail of a
/// completion notification.
pub open spec fn completed_suffix() -> Seq<u8> {
    seq![0x20u8, 0x64u8, 0x6fu8, 0x77u8, 0x6eu8, 0x6cu8, 0x6fu8, 0x61u8, 0x64u8, 0x20u8, 0x63u8,
        0x6fu8, 0x6du8, 0x70u8, 0x6cu8, 0x65u8, 0x74u8, 0x65u8]
}

/// The notification message for an event: the torrent's name followed
/// by what happened to it.
pub open spec fn message_of(e: EventV) -> Seq<u8> {
    match e {
        EventV::Started(n) => n + started_suffix(),
        EventV::Completed(n) => n + completed_suffix(),
    }
}

/// Builds the notification message for an event.
pub fn notification_message(e: &Event) -> (m: Vec<u8>)
    ensures
        m@ == message_of(e@),
{
    match e {
        Event::Started { name } => {
            let mut m = clone_bytes(name);
            m.push(0x20);
            m.push(0x64);
            m.push(0x6f);
            m.push(0x77);
            m.push(0x6e);
            m.push(0x6c);
            m.push(0x6f);
            m.push(0x61);
            m.push(0x64);
            m.push(0x20);
            m.push(0x73);
            m.push(0x74);
            m.push(0x61);
            m.push(0x72);
            m.push(0x74);
            m.push(0x65);
            m.push(0x64);
            proof {
                assert(m@ =~= name@ + started_suffix());
            }
            m
        }
        Event::Completed { name } => {
            let mut m = clone_bytes(name);
            m.push(0x20);
            m.push(0x64);
            m.push(0x6f);
            m.push(0x77);
            m.push(0x6e);
            m.push(0x6c);
            m.push(0x6f);
            m.push(0x61);
            m.push(0x64);
            m.push(0x20);
            m.push(0x63);
            m.push(0x6f);
            m.push(0x6d);
            m.push(0x70);
            m.push(0x6c);
            m.push(0x65);
            m.push(0x74);
            m.push(0x65);
            proof {
                assert(m@ =~= name@ + completed_suffix());
            }
            m
        }
    }
}

/// The fixed topic of every notification.
pub fn notification_topic() -> (s: &'static str)
    ensures
        s@ == "transmission"@,
{
    "transmission"
}

/// The fixed title of every notification.
pub fn notification_title() -> (s: &'static str)
    ensures
        s@ == "Transmission"@,
{
    "Transmission"
}

/// Byte-for-byte copy of a byte vector.
pub fn clone_bytes(b: &Vec<u8>) -> (r: Vec<u8>)
    ensures
        r@ == b@,
{
    let mut out: Vec<u8> = Vec::new();
    let mut i: usize = 0;
    while i < b.len()
        invariant
            i <= b.len(),
            out@ == b@.take(i as int),
        decreases b.len() - i,
    {
        out.push(b[i]);
        i = i + 1;
        proof {
            assert(out@ =~= b@.take(i as int));
        }
    }
    proof {
        assert(b@.take(b@.len() as int) =~= b@);
    }
    out
}

/// Byte-vector equality, decided by comparing the contents.
pub fn bytes_eq(a: &Vec<u8>, b: &Vec<u8>) -> (r: bool)
    ensures
        r == (a@ == b@),
{
    if a.len() != b.len() {
        proof {
            assert(a@ != b@);
        }
        return false;
    }
    let mut i: usize = 0;
    while i < a.len()
        invariant
            i <= a.len(),
            a@.len() == b@.len(),
            forall|j: int| 0 <= j < i ==> a@[j] == b@[j],
        decreases a.len() - i,
    {
        if a[i] != b[i] {
            proof {
                assert(a@[i as int] != b@[i as int]);
            }
            return false;
        }
        i = i + 1;
    }
    proof {
        assert(a@ =~= b@);
    }
    true
}

} // verus!
