use transmission_notifier::detector::{run_cycle, detect_events, observations_from_fields};
use transmission_notifier::snapshot::Snapshot;
use transmission_notifier::torrent::{Event, TorrentStatus};

fn obs(name: &str, fin: bool) -> TorrentStatus {
    TorrentStatus { name: name.as_bytes().to_vec(), is_finished: fin }
}

fn started(name: &str) -> Event {
    Event::Started { name: name.as_bytes().to_vec() }
}

fn completed(name: &str) -> Event {
    Event::Completed { name: name.as_bytes().to_vec() }
}

fn lookup(s: &Snapshot, name: &str) -> Option<bool> {
    s.lookup(&name.as_bytes().to_vec())
}

#[test]
fn first_cycle_new_and_already_finished() {
    let prior = Snapshot::new();
    let out = run_cycle(prior, Some(vec![obs("A", false), obs("B", true)]));
    assert_eq!(out.events, vec![started("A")]);
    assert_eq!(lookup(&out.snapshot, "A"), Some(false));
    assert_eq!(lookup(&out.snapshot, "B"), Some(true));
    assert_eq!(lookup(&out.snapshot, "C"), None);
    assert_eq!(out.next_wait_secs, 60);
}

#[test]
fn completion_is_reported_once() {
    let prior = Snapshot::from_observations(&vec![obs("A", false), obs("B", true)]);
    let out = run_cycle(prior, Some(vec![obs("A", true), obs("B", true)]));
    assert_eq!(out.events, vec![completed("A")]);
    assert_eq!(lookup(&out.snapshot, "A"), Some(true));
    assert_eq!(lookup(&out.snapshot, "B"), Some(true));
    assert_eq!(out.next_wait_secs, 60);
}

#[test]
fn failed_poll_keeps_snapshot_and_backs_off() {
    let prior = Snapshot::from_observations(&vec![obs("A", false)]);
    let out = run_cycle(prior, None);
    assert!(out.events.is_empty());
    assert_eq!(lookup(&out.snapshot, "A"), Some(false));
    assert_eq!(out.next_wait_secs, 300);
}

#[test]
fn empty_poll_clears_snapshot_quietly() {
    let prior = Snapshot::from_observations(&vec![obs("A", false)]);
    let out = run_cycle(prior, Some(vec![]));
    assert!(out.events.is_empty());
    assert_eq!(lookup(&out.snapshot, "A"), None);
    assert_eq!(out.next_wait_secs, 60);
}

#[test]
fn advanced_snapshot_silences_repeat() {
    let out1 = run_cycle(Snapshot::new(), Some(vec![obs("A", false)]));
    assert_eq!(out1.events, vec![started("A")]);
    assert_eq!(lookup(&out1.snapshot, "A"), Some(false));
    let out2 = run_cycle(out1.snapshot, Some(vec![obs("A", false)]));
    assert!(out2.events.is_empty());
    assert_eq!(lookup(&out2.snapshot, "A"), Some(false));
}

#[test]
fn unchanged_and_vanished_emit_nothing() {
    let prior = Snapshot::from_observations(&vec![obs("A", true), obs("B", false)]);
    let out = run_cycle(prior, Some(vec![obs("A", true)]));
    assert!(out.events.is_empty());
    assert_eq!(lookup(&out.snapshot, "A"), Some(true));
    assert_eq!(lookup(&out.snapshot, "B"), None);
}

#[test]
fn vanished_then_back_unfinished_restarts() {
    let out1 = run_cycle(Snapshot::new(), Some(vec![obs("A", false)]));
    assert_eq!(out1.events, vec![started("A")]);
    let out2 = run_cycle(out1.snapshot, Some(vec![]));
    assert!(out2.events.is_empty());
    let out3 = run_cycle(out2.snapshot, Some(vec![obs("A", false)]));
    assert_eq!(out3.events, vec![started("A")]);
}

#[test]
fn finished_to_unfinished_is_unchanged() {
    let prior = Snapshot::from_observations(&vec![obs("A", true)]);
    let out = run_cycle(prior, Some(vec![obs("A", false)]));
    assert!(out.events.is_empty());
    assert_eq!(lookup(&out.snapshot, "A"), Some(false));
}

#[test]
fn duplicate_names_last_observation_wins() {
    let out = run_cycle(Snapshot::new(), Some(vec![obs("A", false), obs("A", true)]));
    assert_eq!(out.events, vec![started("A")]);
    assert_eq!(lookup(&out.snapshot, "A"), Some(true));
}

#[test]
fn detect_events_alone_matches_cycle() {
    let prior = Snapshot::from_observations(&vec![obs("A", false)]);
    let events = detect_events(&prior, &vec![obs("A", true), obs("B", false), obs("C", true)]);
    assert_eq!(events, vec![completed("A"), started("B")]);
}

#[test]
fn started_twice_only_after_a_vanish() {
    // Four cycles: appear, stay, vanish, reappear.  "started" fires
    // twice for one vanish: the bound of one-plus-vanishes is tight.
    let mut started = 0;
    let mut snapshot = Snapshot::new();
    let polls = vec![
        Some(vec![obs("A", false)]),
        Some(vec![obs("A", false)]),
        Some(vec![]),
        Some(vec![obs("A", false)]),
    ];
    let mut vanishes = 0;
    for poll in polls {
        if let Some(c) = &poll {
            if lookup(&snapshot, "A").is_some() && !c.iter().any(|o| o.name == b"A") {
                vanishes += 1;
            }
        }
        let out = run_cycle(snapshot, poll);
        started += out
            .events
            .iter()
            .filter(|e| matches!(e, Event::Started { .. }))
            .count();
        snapshot = out.snapshot;
    }
    assert_eq!(started, 2);
    assert_eq!(vanishes, 1);
    assert!(started <= 1 + vanishes);
}

#[test]
fn repeated_unfinished_name_notifies_per_observation() {
    // A poll that repeats one unfinished name emits one "started" per
    // observation: each is classified against the same prior
    // snapshot.  This is why the counting law asks each poll to
    // observe a name at most once.
    let out = run_cycle(Snapshot::new(), Some(vec![obs("A", false), obs("A", false)]));
    assert_eq!(out.events, vec![started("A"), started("A")]);
}

#[test]
fn missing_field_poisons_the_poll() {
    let raw = vec![
        (Some(b"A".to_vec()), Some(false)),
        (Some(b"B".to_vec()), None),
    ];
    assert_eq!(observations_from_fields(&raw), None);
    let raw2 = vec![(None, Some(true))];
    assert_eq!(observations_from_fields(&raw2), None);
}

#[test]
fn complete_fields_become_observations() {
    let raw = vec![
        (Some(b"A".to_vec()), Some(false)),
        (Some(b"B".to_vec()), Some(true)),
    ];
    let got = observations_from_fields(&raw).unwrap();
    assert_eq!(got, vec![obs("A", false), obs("B", true)]);
}
