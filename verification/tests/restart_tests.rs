//! The restart story: transitions bridged by a process restart are
//! detected from the persisted snapshot.

use transmission_notifier::codec::{decode_snapshot, encode_snapshot};
use transmission_notifier::detector::{run_cycle, INITIAL_WAIT_SECS};
use transmission_notifier::snapshot::Snapshot;
use transmission_notifier::torrent::{Event, TorrentStatus};

fn obs(name: &str, fin: bool) -> TorrentStatus {
    TorrentStatus { name: name.as_bytes().to_vec(), is_finished: fin }
}

#[test]
fn completion_across_a_restart_is_reported() {
    // Before the restart: A is known, unfinished; the snapshot is on disk.
    let before = Snapshot::from_observations(&vec![obs("A", false)]);
    let file = encode_snapshot(&before);

    // After the restart: load the file, poll, detect.
    let records = decode_snapshot(&file).unwrap();
    let prior = Snapshot::from_observations(&records);
    let out = run_cycle(prior, Some(vec![obs("A", true)]));
    assert_eq!(out.events, vec![Event::Completed { name: b"A".to_vec() }]);
    assert_eq!(out.snapshot.lookup(&b"A".to_vec()), Some(true));

    // What the cycle persists reads back as what it observed.
    let file2 = encode_snapshot(&out.snapshot);
    let records2 = decode_snapshot(&file2).unwrap();
    assert_eq!(records2, vec![obs("A", true)]);
}

#[test]
fn first_cycle_runs_without_waiting() {
    assert_eq!(INITIAL_WAIT_SECS, 0);
}
