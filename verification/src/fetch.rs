//! The fetch of the validator set: which records of a response are kept, at
//! which commitment the query is made, and when a failed attempt is tried
//! again.
//!
//! The query itself is made by the caller. After each attempt the caller
//! hands the outcome to [`FetchRetry::on_outcome`], which says whether to ask
//! again, and with what state, or what the fetch has come to.

use crate::record::{record_views, VoteAccountRecord, VoteAccountRecordView};
use crate::seq_facts::lemma_filter_members;
use solana_sdk::commitment_config::CommitmentConfig;
use vstd::prelude::*;

verus! {

/// Number of attempts that a fetch makes at most, the first one included.
pub const MAX_FETCH_ATTEMPTS: u32 = 4;

/// Number of epochs with credits that a vote account needs by default.
pub const DEFAULT_MIN_VOTE_EPOCHS: usize = 5;

/// How settled the state is that a query reads.
#[derive(Clone, Copy, Debug, PartialEq, Eq, Structural)]
pub enum CommitmentLevel {
    /// The newest block that the queried node has processed.
    Processed,
    /// The newest block that a supermajority of the cluster has voted on.
    Confirmed,
    /// The newest block that a supermajority of the cluster holds to be
    /// final.
    Finalized,
}

/// Calls `solana_sdk::commitment_config::CommitmentConfig::finalized` and
/// hands out the level of the configuration that it returns. The contract
/// claims that this level is `Finalized`.
#[verifier::external_body]
fn finalized_level() -> (level: CommitmentLevel)
    ensures
        level == CommitmentLevel::Finalized,
{
    match CommitmentConfig::finalized().commitment {
        solana_sdk::commitment_config::CommitmentLevel::Processed => CommitmentLevel::Processed,
        solana_sdk::commitment_config::CommitmentLevel::Confirmed => CommitmentLevel::Confirmed,
        solana_sdk::commitment_config::CommitmentLevel::Finalized => CommitmentLevel::Finalized,
    }
}

/// The commitment at which the validator set is queried: the one that was
/// asked for, or the strongest where none was.
pub fn commitment_or_finalized(commitment: Option<CommitmentLevel>) -> (level: CommitmentLevel)
    ensures
        level == (match commitment {
            Some(asked) => asked,
            None => CommitmentLevel::Finalized,
        }),
{
    match commitment {
        Some(asked) => asked,
        None => finalized_level(),
    }
}

/// A response of the validator-set query: the vote accounts that vote at
/// present, and those that have fallen behind.
#[derive(Clone, Debug, PartialEq, Eq)]
pub struct VoteAccounts {
    pub current: Vec<VoteAccountRecord>,
    pub delinquent: Vec<VoteAccountRecord>,
}

/// What a response holds, as mathematical values.
pub struct VoteAccountsView {
    pub current: Seq<VoteAccountRecordView>,
    pub delinquent: Seq<VoteAccountRecordView>,
}

impl View for VoteAccounts {
    type V = VoteAccountsView;

    open spec fn view(&self) -> VoteAccountsView {
        VoteAccountsView {
            current: record_views(self.current@),
            delinquent: record_views(self.delinquent@),
        }
    }
}

/// A record is eligible: it has credits for at least `min_vote_epochs`
/// epochs.
pub open spec fn is_eligible(record: VoteAccountRecordView, min_vote_epochs: usize) -> bool {
    record.epoch_credits.len() >= min_vote_epochs
}

/// The test for eligibility as a function of the record.
pub open spec fn eligibility(min_vote_epochs: usize) -> spec_fn(VoteAccountRecordView) -> bool {
    |record: VoteAccountRecordView| is_eligible(record, min_vote_epochs)
}

/// The records of a response that are kept: the current ones, then the
/// delinquent ones, each in its order, without those that are not eligible.
pub open spec fn eligible_views(
    response: VoteAccountsView,
    min_vote_epochs: usize,
) -> Seq<VoteAccountRecordView> {
    (response.current + response.delinquent).filter(eligibility(min_vote_epochs))
}

/// Keeps the eligible records of a response.
pub fn eligible_records(response: VoteAccounts, min_vote_epochs: usize) -> (kept: Vec<
    VoteAccountRecord,
>)
    ensures
        record_views(kept@) == eligible_views(response@, min_vote_epochs),
{
    let ghost wanted = eligibility(min_vote_epochs);
    let ghost views = response@.current + response@.delinquent;
    let VoteAccounts { current, delinquent } = response;
    let mut all = current;
    let mut rest = delinquent;
    all.append(&mut rest);
    assert(record_views(all@) =~= views);
    let mut kept: Vec<VoteAccountRecord> = Vec::new();
    assert(views.take(0) =~= Seq::<VoteAccountRecordView>::empty());
    assert(record_views(kept@) =~= views.take(0).filter(wanted)) by {
        views.take(0).lemma_filter_len(wanted);
    }
    for record in it: all.into_iter()
        invariant
            it.seq() == all@,
            views == record_views(all@),
            wanted == eligibility(min_vote_epochs),
            record_views(kept@) == views.take(it.index() as int).filter(wanted),
    {
        proof {
            let k = it.index() as int;
            assert(views.take(k + 1) =~= views.take(k).push(record@));
            views.take(k).lemma_filter_push(record@, wanted);
            assert(record_views(kept@.push(record)) =~= record_views(kept@).push(record@));
        }
        if record.vote_epochs() >= min_vote_epochs {
            kept.push(record);
        }
    }
    assert(views.take(views.len() as int) =~= views);
    kept
}

/// The progress of a fetch: the number of attempts that have failed.
#[derive(Clone, Copy, Debug, PartialEq, Eq, Structural)]
pub struct FetchRetry {
    pub failed: u32,
}

/// What follows an attempt.
#[derive(Debug)]
pub enum FetchStep<E> {
    /// The attempt failed and another one is due, from this state.
    Retry(FetchRetry),
    /// The attempt succeeded: the eligible records of its response.
    Done(Vec<VoteAccountRecord>),
    /// The last attempt failed too: its error.
    Exhausted(E),
}

/// What follows an attempt, as mathematical values.
pub enum FetchStepView<E> {
    Retry(FetchRetry),
    Done(Seq<VoteAccountRecordView>),
    Exhausted(E),
}

impl<E> View for FetchStep<E> {
    type V = FetchStepView<E>;

    open spec fn view(&self) -> FetchStepView<E> {
        match self {
            FetchStep::Retry(state) => FetchStepView::Retry(*state),
            FetchStep::Done(records) => FetchStepView::Done(record_views(records@)),
            FetchStep::Exhausted(e) => FetchStepView::Exhausted(*e),
        }
    }
}

/// The outcome of an attempt, as mathematical values.
pub open spec fn outcome_view<E>(outcome: Result<VoteAccounts, E>) -> Result<VoteAccountsView, E> {
    match outcome {
        Ok(response) => Ok(response@),
        Err(e) => Err(e),
    }
}

/// What follows an attempt with the given outcome: a response ends the
/// fetch with its eligible records; a failure is followed by another attempt
/// until `MAX_FETCH_ATTEMPTS` have been made, and the failure of the last
/// one ends the fetch with its error.
pub open spec fn step<E>(
    state: FetchRetry,
    outcome: Result<VoteAccountsView, E>,
    min_vote_epochs: usize,
) -> FetchStepView<E> {
    match outcome {
        Ok(response) => FetchStepView::Done(eligible_views(response, min_vote_epochs)),
        Err(e) => if state.failed + 1 < MAX_FETCH_ATTEMPTS {
            FetchStepView::Retry(FetchRetry { failed: (state.failed + 1) as u32 })
        } else {
            FetchStepView::Exhausted(e)
        },
    }
}

impl FetchRetry {
    /// The state before the first attempt.
    pub fn new() -> (state: FetchRetry)
        ensures
            state == start(),
    {
        FetchRetry { failed: 0 }
    }

    /// Takes the outcome of an attempt and says what follows.
    pub fn on_outcome<E>(self, outcome: Result<VoteAccounts, E>, min_vote_epochs: usize) -> (next:
        FetchStep<E>)
        ensures
            next@ == step(self, outcome_view(outcome), min_vote_epochs),
    {
        match outcome {
            Ok(response) => FetchStep::Done(eligible_records(response, min_vote_epochs)),
            Err(e) => {
                if self.failed < MAX_FETCH_ATTEMPTS - 1 {
                    FetchStep::Retry(FetchRetry { failed: self.failed + 1 })
                } else {
                    FetchStep::Exhausted(e)
                }
            },
        }
    }
}

/// The state before the first attempt.
pub open spec fn start() -> FetchRetry {
    FetchRetry { failed: 0 }
}

/// What a fetch comes to when its attempts have the given outcomes, in this
/// order, from the given state: the eligible records, the error of the last
/// attempt, or nothing yet where the outcomes end before the fetch does.
pub open spec fn run<E>(
    state: FetchRetry,
    outcomes: Seq<Result<VoteAccountsView, E>>,
    min_vote_epochs: usize,
) -> Option<Result<Seq<VoteAccountRecordView>, E>>
    decreases outcomes.len(),
{
    if outcomes.len() == 0 {
        None
    } else {
        match step(state, outcomes.first(), min_vote_epochs) {
            FetchStepView::Retry(next) => run(next, outcomes.drop_first(), min_vote_epochs),
            FetchStepView::Done(records) => Some(Ok(records)),
            FetchStepView::Exhausted(e) => Some(Err(e)),
        }
    }
}

/// Of the fetched records, the kept ones are exactly those with credits for
/// at least `min_vote_epochs` epochs: none that has as many is left out, and
/// none that has fewer is kept. A record with exactly `min_vote_epochs`
/// epochs is kept.
pub proof fn lemma_kept_exactly_the_eligible(response: VoteAccountsView, min_vote_epochs: usize)
    ensures
        forall|record: VoteAccountRecordView| #[trigger]
            eligible_views(response, min_vote_epochs).contains(record) <==> ((
            response.current.contains(record) || response.delinquent.contains(record))
                && record.epoch_credits.len() >= min_vote_epochs),
        eligible_views(response, min_vote_epochs) == response.current.filter(
            eligibility(min_vote_epochs),
        ) + response.delinquent.filter(eligibility(min_vote_epochs)),
{
    let fetched = response.current + response.delinquent;
    lemma_filter_members(fetched, eligibility(min_vote_epochs));
    Seq::filter_distributes_over_add(
        response.current,
        response.delinquent,
        eligibility(min_vote_epochs),
    );
    assert forall|record: VoteAccountRecordView|
        fetched.contains(record) <==> (response.current.contains(record)
            || response.delinquent.contains(record)) by {
        if fetched.contains(record) {
            let i = choose|i: int| 0 <= i < fetched.len() && fetched[i] == record;
            if i < response.current.len() {
                assert(response.current[i] == record);
            } else {
                assert(response.delinquent[i - response.current.len()] == record);
            }
        }
        if response.current.contains(record) {
            let i = choose|i: int| 0 <= i < response.current.len() && response.current[i] == record;
            assert(fetched[i] == record);
        }
        if response.delinquent.contains(record) {
            let i = choose|i: int|
                0 <= i < response.delinquent.len() && response.delinquent[i] == record;
            assert(fetched[response.current.len() + i] == record);
        }
    }
}

/// Where no vote account stands twice among the fetched records, none
/// stands twice among the kept ones.
pub proof fn lemma_kept_accounts_stay_distinct(response: VoteAccountsView, min_vote_epochs: usize)
    requires
        forall|i: int, j: int|
            0 <= i < j < (response.current + response.delinquent).len() ==> (#[trigger] (
            response.current + response.delinquent)[i]).vote_pubkey != (#[trigger] (response.current
                + response.delinquent)[j]).vote_pubkey,
    ensures
        forall|i: int, j: int|
            0 <= i < j < eligible_views(response, min_vote_epochs).len() ==> (
            #[trigger] eligible_views(response, min_vote_epochs)[i]).vote_pubkey != (
            #[trigger] eligible_views(response, min_vote_epochs)[j]).vote_pubkey,
{
    lemma_filter_keeps_accounts_distinct(
        response.current + response.delinquent,
        eligibility(min_vote_epochs),
    );
}

/// A filter of records among which no vote account stands twice holds no
/// vote account twice.
pub proof fn lemma_filter_keeps_accounts_distinct(
    records: Seq<VoteAccountRecordView>,
    pred: spec_fn(VoteAccountRecordView) -> bool,
)
    requires
        forall|i: int, j: int|
            0 <= i < j < records.len() ==> (#[trigger] records[i]).vote_pubkey != (
            #[trigger] records[j]).vote_pubkey,
    ensures
        forall|i: int, j: int|
            0 <= i < j < records.filter(pred).len() ==> (#[trigger] records.filter(
                pred,
            )[i]).vote_pubkey != (#[trigger] records.filter(pred)[j]).vote_pubkey,
    decreases records.len(),
{
    reveal(Seq::filter);
    if records.len() > 0 {
        let front = records.drop_last();
        let last = records.last();
        let sub = front.filter(pred);
        let kept = records.filter(pred);
        assert forall|i: int, j: int| 0 <= i < j < front.len() implies (#[trigger] front[i]).vote_pubkey
            != (#[trigger] front[j]).vote_pubkey by {
            assert(records[i].vote_pubkey != records[j].vote_pubkey);
        }
        lemma_filter_keeps_accounts_distinct(front, pred);
        lemma_filter_members(front, pred);
        assert forall|i: int, j: int| 0 <= i < j < kept.len() implies (#[trigger] kept[i]).vote_pubkey
            != (#[trigger] kept[j]).vote_pubkey by {
            if j < sub.len() {
                assert(sub[i].vote_pubkey != sub[j].vote_pubkey);
            } else {
                assert(kept[j] == last);
                assert(sub[i] == kept[i]);
                assert(sub.contains(sub[i]));
                let k = choose|k: int| 0 <= k < front.len() && front[k] == sub[i];
                assert(records[k].vote_pubkey != records[records.len() - 1].vote_pubkey);
            }
        }
    }
}

/// From a state in which attempt `k` from now is still allowed: where the
/// first `k` attempts fail and the next one succeeds, the fetch comes to
/// the eligible records of that response.
pub proof fn lemma_run_until_response<E>(
    state: FetchRetry,
    outcomes: Seq<Result<VoteAccountsView, E>>,
    min_vote_epochs: usize,
    k: int,
)
    requires
        0 <= k < outcomes.len(),
        state.failed + k < MAX_FETCH_ATTEMPTS,
        outcomes[k] is Ok,
        forall|j: int| 0 <= j < k ==> outcomes[j] is Err,
    ensures
        run(state, outcomes, min_vote_epochs) == Some(
            Ok::<Seq<VoteAccountRecordView>, E>(
                eligible_views(outcomes[k]->Ok_0, min_vote_epochs),
            ),
        ),
    decreases k,
{
    if k > 0 {
        assert(outcomes[0] is Err);
        let next = FetchRetry { failed: (state.failed + 1) as u32 };
        let rest = outcomes.drop_first();
        assert(rest[k - 1] == outcomes[k]);
        assert forall|j: int| 0 <= j < k - 1 implies rest[j] is Err by {
            assert(rest[j] == outcomes[j + 1]);
        }
        lemma_run_until_response(next, rest, min_vote_epochs, k - 1);
    }
}

/// From a state in which attempts are left: where every attempt that is
/// left fails, the fetch comes to the error of the last one.
pub proof fn lemma_run_until_exhausted<E>(
    state: FetchRetry,
    outcomes: Seq<Result<VoteAccountsView, E>>,
    min_vote_epochs: usize,
)
    requires
        state.failed < MAX_FETCH_ATTEMPTS,
        outcomes.len() >= MAX_FETCH_ATTEMPTS - state.failed,
        forall|j: int| 0 <= j < MAX_FETCH_ATTEMPTS - state.failed ==> outcomes[j] is Err,
    ensures
        run(state, outcomes, min_vote_epochs) == Some(
            Err::<Seq<VoteAccountRecordView>, E>(
                outcomes[MAX_FETCH_ATTEMPTS - state.failed - 1]->Err_0,
            ),
        ),
    decreases MAX_FETCH_ATTEMPTS - state.failed,
{
    assert(outcomes[0] is Err);
    if state.failed + 1 < MAX_FETCH_ATTEMPTS {
        let next = FetchRetry { failed: (state.failed + 1) as u32 };
        let rest = outcomes.drop_first();
        assert forall|j: int| 0 <= j < MAX_FETCH_ATTEMPTS - next.failed implies rest[j] is Err by {
            assert(rest[j] == outcomes[j + 1]);
        }
        assert(rest[MAX_FETCH_ATTEMPTS - next.failed - 1] == outcomes[MAX_FETCH_ATTEMPTS
            - state.failed - 1]);
        lemma_run_until_exhausted(next, rest, min_vote_epochs);
    }
}

/// A fetch returns the eligible records of the first response among its
/// first `MAX_FETCH_ATTEMPTS` attempts, whatever failed before it.
pub proof fn lemma_fetch_returns_first_response<E>(
    outcomes: Seq<Result<VoteAccountsView, E>>,
    min_vote_epochs: usize,
    k: int,
)
    requires
        0 <= k < outcomes.len(),
        k < MAX_FETCH_ATTEMPTS,
        outcomes[k] is Ok,
        forall|j: int| 0 <= j < k ==> outcomes[j] is Err,
    ensures
        run(start(), outcomes, min_vote_epochs) == Some(
            Ok::<Seq<VoteAccountRecordView>, E>(
                eligible_views(outcomes[k]->Ok_0, min_vote_epochs),
            ),
        ),
{
    lemma_run_until_response(start(), outcomes, min_vote_epochs, k);
}

/// A fetch whose first `MAX_FETCH_ATTEMPTS` attempts all fail returns the
/// error of the last of them, not that of an earlier one.
pub proof fn lemma_fetch_returns_last_error<E>(
    outcomes: Seq<Result<VoteAccountsView, E>>,
    min_vote_epochs: usize,
)
    requires
        outcomes.len() >= MAX_FETCH_ATTEMPTS,
        forall|j: int| 0 <= j < MAX_FETCH_ATTEMPTS ==> outcomes[j] is Err,
    ensures
        run(start(), outcomes, min_vote_epochs) == Some(
            Err::<Seq<VoteAccountRecordView>, E>(outcomes[MAX_FETCH_ATTEMPTS - 1]->Err_0),
        ),
{
    lemma_run_until_exhausted(start(), outcomes, min_vote_epochs);
}

/// A fetch is not over while fewer than `MAX_FETCH_ATTEMPTS` attempts have
/// been made and all of them have failed.
pub proof fn lemma_fetch_goes_on_after_failure<E>(
    state: FetchRetry,
    outcomes: Seq<Result<VoteAccountsView, E>>,
    min_vote_epochs: usize,
)
    requires
        state.failed + outcomes.len() < MAX_FETCH_ATTEMPTS,
        forall|j: int| 0 <= j < outcomes.len() ==> outcomes[j] is Err,
    ensures
        run(state, outcomes, min_vote_epochs) == None::<Result<Seq<VoteAccountRecordView>, E>>,
    decreases outcomes.len(),
{
    if outcomes.len() > 0 {
        assert(outcomes[0] is Err);
        let next = FetchRetry { failed: (state.failed + 1) as u32 };
        let rest = outcomes.drop_first();
        assert forall|j: int| 0 <= j < rest.len() implies rest[j] is Err by {
            assert(rest[j] == outcomes[j + 1]);
        }
        lemma_fetch_goes_on_after_failure(next, rest, min_vote_epochs);
    }
}

} // verus!
