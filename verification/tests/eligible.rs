use restart_signals::eligible::{EligibleSet, RecordField, RecordParseError};
use restart_signals::fetch::{eligible_records, VoteAccounts};
use restart_signals::identity::{Identity, IdentityParseError};
use restart_signals::identity_map::IdentityMap;
use restart_signals::record::VoteAccountRecord;
use solana_program::pubkey::Pubkey;

fn text_of(seed: u8) -> String {
    Pubkey::new_from_array([seed; 32]).to_string()
}

fn account(vote: u8, node: u8, epochs: usize) -> VoteAccountRecord {
    VoteAccountRecord {
        vote_pubkey: text_of(vote),
        node_pubkey: text_of(node),
        activated_stake: 5,
        commission: 0,
        epoch_vote_account: true,
        epoch_credits: vec![(1, 2, 3); epochs],
        last_vote: 0,
        root_slot: 0,
    }
}

fn id(seed: u8) -> Identity {
    Identity::new([seed; 32])
}

#[test]
fn identity_map_stores_and_replaces() {
    let mut map: IdentityMap<u64> = IdentityMap::new();
    assert_eq!(map.len(), 0);
    assert_eq!(map.insert(id(1), 10), None);
    assert_eq!(map.insert(id(2), 20), None);
    assert_eq!(map.insert(id(1), 30), Some(10));
    assert_eq!(map.len(), 2);
    assert_eq!(map.get(&id(1)), Some(&30));
    assert_eq!(map.get(&id(2)), Some(&20));
    assert_eq!(map.get(&id(3)), None);
    assert!(map.contains_key(&id(2)));
    assert!(!map.contains_key(&id(3)));
    assert_eq!(map.position(&id(1)), Some(0));
    assert_eq!(map.position(&id(2)), Some(1));
    assert_eq!(map.position(&id(3)), None);
}

#[test]
fn identity_map_keeps_the_order_of_first_arrival() {
    let mut map: IdentityMap<&str> = IdentityMap::new();
    map.insert(id(5), "five");
    map.insert(id(3), "three");
    map.insert(id(5), "five again");
    map.insert(id(4), "four");
    assert_eq!(map.entry_at(0).map(|e| (e.0, e.1)), Some((id(5), "five again")));
    assert_eq!(map.entry_at(1).map(|e| (e.0, e.1)), Some((id(3), "three")));
    assert_eq!(map.entry_at(2).map(|e| (e.0, e.1)), Some((id(4), "four")));
    assert!(map.entry_at(3).is_none());
    assert!(map.entry_at(usize::MAX).is_none());
}

#[test]
fn set_holds_each_record_under_its_vote_account() {
    let records = vec![account(1, 101, 6), account(2, 102, 7)];
    let set = EligibleSet::from_records(records).unwrap();
    assert_eq!(set.len(), 2);
    assert_eq!(set.get(&id(1)), Some(&account(1, 101, 6)));
    assert_eq!(set.get(&id(2)), Some(&account(2, 102, 7)));
    assert_eq!(set.get(&id(101)), None);
}

#[test]
fn set_of_no_records_is_empty() {
    let set = EligibleSet::from_records(vec![]).unwrap();
    assert_eq!(set.len(), 0);
    assert!(set.entry_at(0).is_none());
    assert_eq!(set.node_identities(), Ok(vec![]));
}

#[test]
fn a_later_record_of_a_vote_account_replaces_the_earlier_one() {
    let records = vec![account(1, 101, 6), account(2, 102, 7), account(1, 103, 9)];
    let set = EligibleSet::from_records(records).unwrap();
    assert_eq!(set.len(), 2);
    assert_eq!(set.get(&id(1)), Some(&account(1, 103, 9)));
    assert_eq!(set.entry_at(0).map(|e| e.0), Some(id(1)));
    assert_eq!(set.entry_at(1).map(|e| e.0), Some(id(2)));
}

#[test]
fn two_vote_accounts_of_one_validator_stay_apart() {
    let records = vec![account(1, 101, 6), account(2, 101, 7)];
    let set = EligibleSet::from_records(records).unwrap();
    assert_eq!(set.len(), 2);
    assert_eq!(set.node_identities(), Ok(vec![id(101), id(101)]));
}

#[test]
fn a_malformed_vote_address_is_reported_with_its_place() {
    let mut bad = account(2, 102, 7);
    bad.vote_pubkey = "not an address".to_string();
    let built = EligibleSet::from_records(vec![account(1, 101, 6), bad, account(3, 103, 6)]);
    assert_eq!(
        built.err(),
        Some(RecordParseError {
            index: 1,
            field: RecordField::VotePubkey,
            kind: IdentityParseError::Invalid,
        })
    );
}

#[test]
fn the_first_of_two_malformed_vote_addresses_is_reported() {
    let mut short = account(1, 101, 6);
    short.vote_pubkey = "1111".to_string();
    let mut bad = account(2, 102, 7);
    bad.vote_pubkey = "0".to_string();
    let built = EligibleSet::from_records(vec![short, bad]);
    assert_eq!(
        built.err(),
        Some(RecordParseError {
            index: 0,
            field: RecordField::VotePubkey,
            kind: IdentityParseError::WrongSize,
        })
    );
}

#[test]
fn a_malformed_validator_identity_does_not_stop_the_building() {
    let mut bad = account(1, 101, 6);
    bad.node_pubkey = "l0O".to_string();
    let set = EligibleSet::from_records(vec![bad]).unwrap();
    assert_eq!(set.len(), 1);
    assert_eq!(
        set.node_identities(),
        Err(RecordParseError {
            index: 0,
            field: RecordField::NodePubkey,
            kind: IdentityParseError::Invalid,
        })
    );
}

#[test]
fn validator_identities_come_in_the_order_of_the_entries() {
    let records = vec![account(3, 103, 6), account(1, 101, 6), account(2, 102, 6)];
    let set = EligibleSet::from_records(records).unwrap();
    assert_eq!(set.node_identities(), Ok(vec![id(103), id(101), id(102)]));
}

#[test]
fn the_first_malformed_validator_identity_is_reported() {
    let mut long = account(2, 102, 6);
    long.node_pubkey = "2".repeat(50);
    let mut bad = account(3, 103, 6);
    bad.node_pubkey = "?".to_string();
    let set = EligibleSet::from_records(vec![account(1, 101, 6), long, bad]).unwrap();
    assert_eq!(
        set.node_identities(),
        Err(RecordParseError {
            index: 1,
            field: RecordField::NodePubkey,
            kind: IdentityParseError::WrongSize,
        })
    );
}

#[test]
fn the_set_of_a_response_holds_exactly_the_eligible_accounts() {
    let accounts = VoteAccounts {
        current: vec![account(1, 101, 10), account(2, 102, 3), account(3, 103, 5)],
        delinquent: vec![account(4, 104, 4), account(5, 105, 50)],
    };
    let set = EligibleSet::from_records(eligible_records(accounts, 5)).unwrap();
    assert_eq!(set.len(), 3);
    for (vote, kept) in [(1u8, true), (2, false), (3, true), (4, false), (5, true)] {
        assert_eq!(set.get(&id(vote)).is_some(), kept);
    }
}

#[test]
fn scenario_set_of_a_and_b_retains_a() {
    let a = account(1, 101, 10);
    let b = account(2, 102, 3);
    let accounts = VoteAccounts { current: vec![a.clone(), b], delinquent: vec![] };
    let set = EligibleSet::from_records(eligible_records(accounts, 5)).unwrap();
    assert_eq!(set.len(), 1);
    assert_eq!(set.get(&id(1)), Some(&a));
    assert_eq!(set.get(&id(2)), None);
}

#[test]
fn vote_epochs_counts_the_credit_entries() {
    assert_eq!(account(1, 101, 0).vote_epochs(), 0);
    assert_eq!(account(1, 101, 12).vote_epochs(), 12);
}
