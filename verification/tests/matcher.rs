use restart_signals::eligible::{EligibleSet, RecordField, RecordParseError};
use restart_signals::identity::{Identity, IdentityParseError};
use restart_signals::matcher::{
    find_restart_signals, match_identity, restart_keys, restart_signal_keys, GossipEntryKey,
    SignalKind, SignalReport, StoreSnapshot, CONVERGENCE_DWELL_SECS,
};
use restart_signals::record::VoteAccountRecord;
use solana_program::pubkey::Pubkey;

fn base58(seed: u8) -> String {
    Pubkey::new_from_array([seed; 32]).to_string()
}

fn voter(vote: u8, node: u8) -> VoteAccountRecord {
    VoteAccountRecord {
        vote_pubkey: base58(vote),
        node_pubkey: base58(node),
        activated_stake: 0,
        commission: 100,
        epoch_vote_account: false,
        epoch_credits: vec![(0, 0, 0); 5],
        last_vote: 1,
        root_slot: 1,
    }
}

fn node(seed: u8) -> Identity {
    Identity::new([seed; 32])
}

fn set_of(records: Vec<VoteAccountRecord>) -> EligibleSet {
    EligibleSet::from_records(records).unwrap()
}

fn report(seed: u8, kind: SignalKind, entry: &str) -> SignalReport {
    SignalReport { identity: node(seed), kind, entry: entry.to_string() }
}

fn pairs(reports: &[SignalReport]) -> Vec<([u8; 32], bool)> {
    let mut found: Vec<([u8; 32], bool)> = reports
        .iter()
        .map(|r| (r.identity.to_bytes(), r.kind == SignalKind::HeaviestFork))
        .collect();
    found.sort();
    found
}

#[test]
fn the_dwell_is_a_hundred_and_fifty_seconds() {
    assert_eq!(CONVERGENCE_DWELL_SECS, 150);
}

#[test]
fn a_validator_has_two_lookup_keys() {
    let (first, second) = restart_keys(node(7));
    assert_eq!(first, GossipEntryKey::RestartLastVotedForkSlots(node(7)));
    assert_eq!(second, GossipEntryKey::RestartHeaviestFork(node(7)));
    assert!(first != second);
}

#[test]
fn a_key_knows_its_kind_and_its_validator() {
    for kind in [SignalKind::LastVotedForkSlots, SignalKind::HeaviestFork] {
        let key = GossipEntryKey::new(kind, node(9));
        assert_eq!(key.kind(), kind);
        assert_eq!(key.identity(), node(9));
    }
    assert_eq!(
        GossipEntryKey::new(SignalKind::HeaviestFork, node(9)),
        GossipEntryKey::RestartHeaviestFork(node(9))
    );
    assert_eq!(
        GossipEntryKey::new(SignalKind::LastVotedForkSlots, node(9)),
        GossipEntryKey::RestartLastVotedForkSlots(node(9))
    );
}

#[test]
fn keys_differ_by_kind_and_by_validator() {
    let key = GossipEntryKey::RestartHeaviestFork(node(1));
    assert!(key == GossipEntryKey::RestartHeaviestFork(node(1)));
    assert!(key != GossipEntryKey::RestartHeaviestFork(node(2)));
    assert!(key != GossipEntryKey::RestartLastVotedForkSlots(node(1)));
}

#[test]
fn the_snapshot_keeps_the_kinds_apart() {
    let mut store = StoreSnapshot::new();
    let heaviest = GossipEntryKey::RestartHeaviestFork(node(1));
    let last_voted = GossipEntryKey::RestartLastVotedForkSlots(node(1));
    assert_eq!(store.insert(heaviest, "h".to_string()), None);
    assert!(store.contains_key(&heaviest));
    assert!(!store.contains_key(&last_voted));
    assert_eq!(store.get(&last_voted), None);
    assert_eq!(store.insert(last_voted, "l".to_string()), None);
    assert_eq!(store.insert(heaviest, "h2".to_string()), Some("h".to_string()));
    assert_eq!(store.get(&heaviest), Some(&"h2".to_string()));
    assert_eq!(store.get(&last_voted), Some(&"l".to_string()));
}

#[test]
fn both_signals_of_a_validator_are_reported_last_voted_first() {
    let mut store = StoreSnapshot::new();
    store.insert(GossipEntryKey::RestartHeaviestFork(node(1)), "fork".to_string());
    store.insert(GossipEntryKey::RestartLastVotedForkSlots(node(1)), "slots".to_string());
    assert_eq!(
        match_identity(&node(1), &store),
        vec![
            report(1, SignalKind::LastVotedForkSlots, "slots"),
            report(1, SignalKind::HeaviestFork, "fork"),
        ]
    );
}

#[test]
fn scenario_only_the_heaviest_fork_of_a_is_in_the_store() {
    let eligible = set_of(vec![voter(1, 101), voter(2, 102)]);
    let mut store = StoreSnapshot::new();
    store.insert(GossipEntryKey::RestartHeaviestFork(node(101)), "heaviest of a".to_string());
    let reports = find_restart_signals(&eligible, &store).unwrap();
    assert_eq!(reports, vec![report(101, SignalKind::HeaviestFork, "heaviest of a")]);
    assert!(!reports.iter().any(|r| r.kind == SignalKind::LastVotedForkSlots));
    assert!(!reports.iter().any(|r| r.identity == node(102)));
}

#[test]
fn exactly_the_pairs_in_the_store_are_reported() {
    let eligible = set_of(vec![voter(1, 101), voter(2, 102), voter(3, 103), voter(4, 104)]);
    let mut store = StoreSnapshot::new();
    store.insert(GossipEntryKey::RestartLastVotedForkSlots(node(101)), "a".to_string());
    store.insert(GossipEntryKey::RestartHeaviestFork(node(103)), "b".to_string());
    store.insert(GossipEntryKey::RestartLastVotedForkSlots(node(103)), "c".to_string());
    store.insert(GossipEntryKey::RestartHeaviestFork(node(200)), "not eligible".to_string());
    let reports = find_restart_signals(&eligible, &store).unwrap();
    assert_eq!(
        reports,
        vec![
            report(101, SignalKind::LastVotedForkSlots, "a"),
            report(103, SignalKind::LastVotedForkSlots, "c"),
            report(103, SignalKind::HeaviestFork, "b"),
        ]
    );
}

#[test]
fn the_order_of_the_records_does_not_change_the_pairs() {
    let mut store = StoreSnapshot::new();
    store.insert(GossipEntryKey::RestartLastVotedForkSlots(node(101)), "a".to_string());
    store.insert(GossipEntryKey::RestartHeaviestFork(node(103)), "b".to_string());
    store.insert(GossipEntryKey::RestartHeaviestFork(node(102)), "c".to_string());
    let forward = set_of(vec![voter(1, 101), voter(2, 102), voter(3, 103)]);
    let backward = set_of(vec![voter(3, 103), voter(2, 102), voter(1, 101)]);
    let mixed = set_of(vec![voter(2, 102), voter(3, 103), voter(1, 101)]);
    let expected = pairs(&find_restart_signals(&forward, &store).unwrap());
    assert_eq!(expected.len(), 3);
    assert_eq!(pairs(&find_restart_signals(&backward, &store).unwrap()), expected);
    assert_eq!(pairs(&find_restart_signals(&mixed, &store).unwrap()), expected);
}

#[test]
fn an_empty_store_gives_no_report_and_no_error() {
    let eligible = set_of(vec![voter(1, 101), voter(2, 102)]);
    let store = StoreSnapshot::new();
    assert_eq!(find_restart_signals(&eligible, &store), Ok(vec![]));
    assert_eq!(match_identity(&node(101), &store), vec![]);
}

#[test]
fn a_validator_without_entries_gets_no_report() {
    let eligible = set_of(vec![voter(1, 101), voter(2, 102)]);
    let mut store = StoreSnapshot::new();
    store.insert(GossipEntryKey::RestartHeaviestFork(node(101)), "x".to_string());
    store.insert(GossipEntryKey::RestartLastVotedForkSlots(node(101)), "y".to_string());
    let reports = find_restart_signals(&eligible, &store).unwrap();
    assert_eq!(reports.len(), 2);
    assert!(reports.iter().all(|r| r.identity != node(102)));
}

#[test]
fn matching_twice_gives_the_same_reports() {
    let eligible = set_of(vec![voter(1, 101), voter(2, 102), voter(3, 101)]);
    let mut store = StoreSnapshot::new();
    store.insert(GossipEntryKey::RestartHeaviestFork(node(101)), "x".to_string());
    store.insert(GossipEntryKey::RestartLastVotedForkSlots(node(102)), "y".to_string());
    let first = find_restart_signals(&eligible, &store);
    let second = find_restart_signals(&eligible, &store);
    assert!(first.is_ok());
    assert_eq!(first, second);
}

#[test]
fn a_validator_with_two_vote_accounts_is_reported_for_each() {
    let eligible = set_of(vec![voter(1, 101), voter(2, 101)]);
    let mut store = StoreSnapshot::new();
    store.insert(GossipEntryKey::RestartHeaviestFork(node(101)), "x".to_string());
    let reports = find_restart_signals(&eligible, &store).unwrap();
    assert_eq!(
        reports,
        vec![
            report(101, SignalKind::HeaviestFork, "x"),
            report(101, SignalKind::HeaviestFork, "x"),
        ]
    );
}

#[test]
fn an_empty_set_gives_no_report() {
    let mut store = StoreSnapshot::new();
    store.insert(GossipEntryKey::RestartHeaviestFork(node(101)), "x".to_string());
    assert_eq!(find_restart_signals(&EligibleSet::new(), &store), Ok(vec![]));
    assert_eq!(restart_signal_keys(&EligibleSet::new()), Ok(vec![]));
}

#[test]
fn a_malformed_validator_identity_fails_the_matching() {
    let mut bad = voter(2, 102);
    bad.node_pubkey = "I am no key".to_string();
    let eligible = set_of(vec![voter(1, 101), bad, voter(3, 103)]);
    let mut store = StoreSnapshot::new();
    store.insert(GossipEntryKey::RestartHeaviestFork(node(101)), "x".to_string());
    let failure = RecordParseError {
        index: 1,
        field: RecordField::NodePubkey,
        kind: IdentityParseError::Invalid,
    };
    assert_eq!(find_restart_signals(&eligible, &store), Err(failure));
    assert_eq!(restart_signal_keys(&eligible), Err(failure));
}

#[test]
fn the_lookup_keys_of_a_set_are_two_for_each_record() {
    let eligible = set_of(vec![voter(1, 101), voter(2, 102)]);
    assert_eq!(
        restart_signal_keys(&eligible),
        Ok(vec![
            GossipEntryKey::RestartLastVotedForkSlots(node(101)),
            GossipEntryKey::RestartHeaviestFork(node(101)),
            GossipEntryKey::RestartLastVotedForkSlots(node(102)),
            GossipEntryKey::RestartHeaviestFork(node(102)),
        ])
    );
}

#[test]
fn a_snapshot_filled_by_the_lookup_keys_gives_the_reports_of_the_store() {
    let eligible = set_of(vec![voter(1, 101), voter(2, 102), voter(3, 103)]);
    let published = [
        (GossipEntryKey::RestartHeaviestFork(node(102)), "h102"),
        (GossipEntryKey::RestartLastVotedForkSlots(node(103)), "l103"),
        (GossipEntryKey::RestartLastVotedForkSlots(node(250)), "l250"),
    ];
    let mut store = StoreSnapshot::new();
    for key in restart_signal_keys(&eligible).unwrap() {
        if let Some((_, entry)) = published.iter().find(|(k, _)| *k == key) {
            store.insert(key, entry.to_string());
        }
    }
    assert_eq!(
        find_restart_signals(&eligible, &store),
        Ok(vec![
            report(102, SignalKind::HeaviestFork, "h102"),
            report(103, SignalKind::LastVotedForkSlots, "l103"),
        ])
    );
}
