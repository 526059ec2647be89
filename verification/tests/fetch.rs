use restart_signals::fetch::{
    commitment_or_finalized, eligible_records, CommitmentLevel, FetchRetry, FetchStep,
    VoteAccounts, DEFAULT_MIN_VOTE_EPOCHS, MAX_FETCH_ATTEMPTS,
};
use restart_signals::record::VoteAccountRecord;
use solana_program::pubkey::Pubkey;

fn address(seed: u8) -> String {
    Pubkey::new_from_array([seed; 32]).to_string()
}

fn record(vote: u8, node: u8, epochs: usize) -> VoteAccountRecord {
    VoteAccountRecord {
        vote_pubkey: address(vote),
        node_pubkey: address(node),
        activated_stake: 1_000,
        commission: 10,
        epoch_vote_account: true,
        epoch_credits: (0..epochs as u64).map(|e| (e, 10 * (e + 1), 10 * e)).collect(),
        last_vote: 77,
        root_slot: 45,
    }
}

fn response() -> VoteAccounts {
    VoteAccounts {
        current: vec![record(1, 101, 10), record(2, 102, 3), record(3, 103, 5)],
        delinquent: vec![record(4, 104, 4), record(5, 105, 6)],
    }
}

/// A remote query that fails a given number of times before it answers.
struct MockQuery {
    calls: u32,
    failures: u32,
}

impl MockQuery {
    fn ask(&mut self) -> Result<VoteAccounts, String> {
        self.calls += 1;
        if self.calls <= self.failures {
            Err(format!("failure {}", self.calls))
        } else {
            Ok(response())
        }
    }
}

fn fetch(query: &mut MockQuery, min_vote_epochs: usize) -> Result<Vec<VoteAccountRecord>, String> {
    let mut state = FetchRetry::new();
    loop {
        match state.on_outcome(query.ask(), min_vote_epochs) {
            FetchStep::Retry(next) => state = next,
            FetchStep::Done(records) => return Ok(records),
            FetchStep::Exhausted(e) => return Err(e),
        }
    }
}

#[test]
fn constants_have_their_documented_values() {
    assert_eq!(MAX_FETCH_ATTEMPTS, 4);
    assert_eq!(DEFAULT_MIN_VOTE_EPOCHS, 5);
}

#[test]
fn keeps_records_with_enough_epochs() {
    let kept = eligible_records(response(), 5);
    assert_eq!(kept, vec![record(1, 101, 10), record(3, 103, 5), record(5, 105, 6)]);
}

#[test]
fn keeps_a_record_with_exactly_the_minimum() {
    let accounts = VoteAccounts {
        current: vec![record(1, 101, 4), record(2, 102, 5), record(3, 103, 6)],
        delinquent: vec![],
    };
    let kept = eligible_records(accounts, 5);
    assert_eq!(kept, vec![record(2, 102, 5), record(3, 103, 6)]);
}

#[test]
fn scenario_ten_epochs_kept_three_epochs_dropped() {
    let a = record(1, 101, 10);
    let b = record(2, 102, 3);
    let accounts = VoteAccounts { current: vec![a.clone(), b], delinquent: vec![] };
    assert_eq!(eligible_records(accounts, 5), vec![a]);
}

#[test]
fn a_minimum_of_zero_keeps_every_record() {
    let all = response();
    let mut expected = all.current.clone();
    expected.extend(all.delinquent.clone());
    assert_eq!(eligible_records(all, 0), expected);
}

#[test]
fn a_minimum_above_every_history_keeps_nothing() {
    assert_eq!(eligible_records(response(), 11), vec![]);
    assert_eq!(eligible_records(response(), usize::MAX), vec![]);
}

#[test]
fn current_records_come_before_delinquent_ones() {
    let accounts = VoteAccounts {
        current: vec![record(9, 109, 7)],
        delinquent: vec![record(1, 101, 8)],
    };
    assert_eq!(eligible_records(accounts, 1), vec![record(9, 109, 7), record(1, 101, 8)]);
}

#[test]
fn two_vote_accounts_of_one_validator_are_both_kept() {
    let accounts = VoteAccounts {
        current: vec![record(1, 101, 7), record(2, 101, 7)],
        delinquent: vec![record(3, 101, 7)],
    };
    let kept = eligible_records(accounts, 5);
    assert_eq!(kept.len(), 3);
    assert!(kept.iter().all(|r| r.node_pubkey == address(101)));
}

#[test]
fn an_empty_response_gives_no_records() {
    let accounts = VoteAccounts { current: vec![], delinquent: vec![] };
    assert_eq!(eligible_records(accounts, 5), vec![]);
}

#[test]
fn fetch_succeeds_at_the_first_attempt() {
    let mut query = MockQuery { calls: 0, failures: 0 };
    let fetched = fetch(&mut query, 5).unwrap();
    assert_eq!(fetched, eligible_records(response(), 5));
    assert_eq!(query.calls, 1);
}

#[test]
fn fetch_succeeds_at_the_fourth_attempt_after_three_failures() {
    let mut query = MockQuery { calls: 0, failures: 3 };
    let fetched = fetch(&mut query, 5);
    assert_eq!(fetched, Ok(vec![record(1, 101, 10), record(3, 103, 5), record(5, 105, 6)]));
    assert_eq!(query.calls, 4);
}

#[test]
fn fetch_returns_the_fourth_error_after_four_failures() {
    let mut query = MockQuery { calls: 0, failures: 4 };
    let fetched = fetch(&mut query, 5);
    assert_eq!(fetched, Err("failure 4".to_string()));
    assert_eq!(query.calls, 4);
}

#[test]
fn fetch_makes_no_fifth_attempt() {
    let mut query = MockQuery { calls: 0, failures: 100 };
    assert_eq!(fetch(&mut query, 5), Err("failure 4".to_string()));
    assert_eq!(query.calls, 4);
}

#[test]
fn each_failure_but_the_last_asks_for_another_attempt() {
    let mut state = FetchRetry::new();
    assert_eq!(state.failed, 0);
    for made in 1u32..4 {
        match state.on_outcome(Err::<VoteAccounts, u32>(made), 5) {
            FetchStep::Retry(next) => {
                assert_eq!(next.failed, made);
                state = next;
            }
            other => panic!("attempt {} ended the fetch: {:?}", made, other),
        }
    }
    match state.on_outcome(Err::<VoteAccounts, u32>(4), 5) {
        FetchStep::Exhausted(e) => assert_eq!(e, 4),
        other => panic!("the fourth failure did not end the fetch: {:?}", other),
    }
}

#[test]
fn a_response_ends_the_fetch_in_any_state() {
    for failed in [0u32, 1, 2, 3, 4, 1000, u32::MAX] {
        let state = FetchRetry { failed };
        match state.on_outcome(Ok::<VoteAccounts, u32>(response()), 6) {
            FetchStep::Done(records) => {
                assert_eq!(records, vec![record(1, 101, 10), record(5, 105, 6)])
            }
            other => panic!("a response did not end the fetch: {:?}", other),
        }
    }
}

#[test]
fn a_failure_in_a_spent_state_ends_the_fetch() {
    for failed in [3u32, 4, u32::MAX] {
        let state = FetchRetry { failed };
        assert!(matches!(
            state.on_outcome(Err::<VoteAccounts, u8>(9), 5),
            FetchStep::Exhausted(9)
        ));
    }
}

#[test]
fn the_commitment_defaults_to_finalized() {
    assert_eq!(commitment_or_finalized(None), CommitmentLevel::Finalized);
}

#[test]
fn a_given_commitment_is_kept() {
    for level in [
        CommitmentLevel::Processed,
        CommitmentLevel::Confirmed,
        CommitmentLevel::Finalized,
    ] {
        assert_eq!(commitment_or_finalized(Some(level)), level);
    }
}
