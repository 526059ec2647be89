//! Vote-account records as the validator-set query reports them.

use vstd::prelude::*;

verus! {

/// One staked vote account.
#[derive(Clone, Debug, PartialEq, Eq)]
pub struct VoteAccountRecord {
    /// Address of the vote account, in base58.
    pub vote_pubkey: String,
    /// Identity of the validator that votes with the account, in base58.
    pub node_pubkey: String,
    /// Stake delegated to the account, in lamports.
    pub activated_stake: u64,
    /// Share of the rewards that the validator keeps, out of 100.
    pub commission: u8,
    /// Whether the account is staked for the current epoch.
    pub epoch_vote_account: bool,
    /// History of earned credits, oldest first: epoch, credits, credits
    /// before.
    pub epoch_credits: Vec<(u64, u64, u64)>,
    /// Most recent slot that the account voted on.
    pub last_vote: u64,
    /// Current root slot of the account.
    pub root_slot: u64,
}

/// What a vote-account record holds, as mathematical values.
pub struct VoteAccountRecordView {
    pub vote_pubkey: Seq<char>,
    pub node_pubkey: Seq<char>,
    pub activated_stake: u64,
    pub commission: u8,
    pub epoch_vote_account: bool,
    pub epoch_credits: Seq<(u64, u64, u64)>,
    pub last_vote: u64,
    pub root_slot: u64,
}

impl View for VoteAccountRecord {
    type V = VoteAccountRecordView;

    open spec fn view(&self) -> VoteAccountRecordView {
        VoteAccountRecordView {
            vote_pubkey: self.vote_pubkey@,
            node_pubkey: self.node_pubkey@,
            activated_stake: self.activated_stake,
            commission: self.commission,
            epoch_vote_account: self.epoch_vote_account,
            epoch_credits: self.epoch_credits@,
            last_vote: self.last_vote,
            root_slot: self.root_slot,
        }
    }
}

/// The views of a sequence of records, in the same order.
pub open spec fn record_views(records: Seq<VoteAccountRecord>) -> Seq<VoteAccountRecordView> {
    records.map_values(|r: VoteAccountRecord| r@)
}

impl VoteAccountRecord {
    /// Number of epochs for which the account has earned credits.
    pub fn vote_epochs(&self) -> (n: usize)
        ensures
            n == self@.epoch_credits.len(),
    {
        self.epoch_credits.len()
    }
}

} // verus!
