//! The set of vote accounts that are considered: a map from the identity of
//! a vote account to its record.

use crate::identity::{pubkey_from_str, Identity, IdentityParseError};
use crate::identity_map::{
    as_map, distinct_keys, holds_key, lemma_map_entry_values, lemma_with_entry,
    lemma_with_entry_values, map_entry_values, with_entry, IdentityMap,
};
use crate::fetch::{eligible_views, lemma_kept_exactly_the_eligible, VoteAccountsView};
use crate::record::{record_views, VoteAccountRecord, VoteAccountRecordView};
use vstd::prelude::*;

verus! {

/// The field of a record that holds an identity in text form.
#[derive(Clone, Copy, Debug, PartialEq, Eq, Structural)]
pub enum RecordField {
    /// The address of the vote account.
    VotePubkey,
    /// The identity of the validator.
    NodePubkey,
}

/// A record holds a text that is not an identity.
#[derive(Clone, Copy, Debug, PartialEq, Eq, Structural)]
pub struct RecordParseError {
    /// Place of the record in the sequence that was read.
    pub index: usize,
    /// The field that holds the text.
    pub field: RecordField,
    /// Why the text was refused.
    pub kind: IdentityParseError,
}

/// What the vote address of the record at a place spells.
pub open spec fn vote_parse(records: Seq<VoteAccountRecordView>, i: int) -> Result<
    Seq<u8>,
    IdentityParseError,
> {
    pubkey_from_str(records[i].vote_pubkey)
}

/// The entries of the set that a sequence of records gives: each record is
/// stored under the identity that its vote address spells, a later record
/// for the same vote account replaces an earlier one, and the first record
/// whose vote address is no identity is reported instead.
pub open spec fn collected(records: Seq<VoteAccountRecordView>) -> Result<
    Seq<(Seq<u8>, VoteAccountRecordView)>,
    RecordParseError,
>
    decreases records.len(),
{
    if records.len() == 0 {
        Ok(Seq::empty())
    } else {
        match collected(records.drop_last()) {
            Err(e) => Err(e),
            Ok(entries) => match pubkey_from_str(records.last().vote_pubkey) {
                Ok(key) => Ok(with_entry(entries, key, records.last())),
                Err(kind) => Err(
                    RecordParseError {
                        index: (records.len() - 1) as usize,
                        field: RecordField::VotePubkey,
                        kind,
                    },
                ),
            },
        }
    }
}

/// What the validator identity of the record at a place spells.
pub open spec fn node_parse(entries: Seq<(Seq<u8>, VoteAccountRecordView)>, i: int) -> Result<
    Seq<u8>,
    IdentityParseError,
> {
    pubkey_from_str(entries[i].1.node_pubkey)
}

/// The record at this place is the first whose validator identity is
/// malformed.
pub open spec fn is_first_malformed_node(
    entries: Seq<(Seq<u8>, VoteAccountRecordView)>,
    i: int,
) -> bool {
    &&& 0 <= i < entries.len()
    &&& node_parse(entries, i) is Err
    &&& forall|j: int| 0 <= j < i ==> #[trigger] node_parse(entries, j) is Ok
}

/// The validator identities of the entries, in their order; or the first
/// record whose validator identity is malformed.
pub open spec fn node_identities(entries: Seq<(Seq<u8>, VoteAccountRecordView)>) -> Result<
    Seq<Seq<u8>>,
    RecordParseError,
> {
    if exists|i: int| is_first_malformed_node(entries, i) {
        let at = choose|i: int| is_first_malformed_node(entries, i);
        Err(
            RecordParseError {
                index: at as usize,
                field: RecordField::NodePubkey,
                kind: node_parse(entries, at)->Err_0,
            },
        )
    } else {
        Ok(Seq::new(entries.len(), |i: int| node_parse(entries, i)->Ok_0))
    }
}

/// The function that takes a record to its view.
pub open spec fn to_view() -> spec_fn(VoteAccountRecord) -> VoteAccountRecordView {
    |r: VoteAccountRecord| r@
}

/// Vote accounts by identity. Built once from the records of a fetch and
/// read afterwards.
pub struct EligibleSet {
    accounts: IdentityMap<VoteAccountRecord>,
}

impl EligibleSet {
    /// The entries in their order: the identity of a vote account, as its
    /// bytes, and the view of its record.
    pub closed spec fn entries(&self) -> Seq<(Seq<u8>, VoteAccountRecordView)> {
        map_entry_values(self.accounts.entries(), to_view())
    }

    /// The set is well formed: no vote account stands in it twice.
    pub open spec fn wf(&self) -> bool {
        distinct_keys(self.entries())
    }

    /// The map from the identity of a vote account to its record.
    pub open spec fn view(&self) -> Map<Seq<u8>, VoteAccountRecordView> {
        as_map(self.entries())
    }

    /// The empty set.
    pub fn new() -> (set: EligibleSet)
        ensures
            set.wf(),
            set.entries() == Seq::<(Seq<u8>, VoteAccountRecordView)>::empty(),
    {
        let set = EligibleSet { accounts: IdentityMap::new() };
        assert(set.entries() =~= Seq::<(Seq<u8>, VoteAccountRecordView)>::empty());
        set
    }

    /// Number of vote accounts.
    pub fn len(&self) -> (n: usize)
        ensures
            n == self.entries().len(),
    {
        self.accounts.len()
    }

    /// Stores a record under the identity of its vote account and hands
    /// back the record that it replaces.
    fn insert(&mut self, vote_account: Identity, record: VoteAccountRecord) -> (replaced:
        Option<VoteAccountRecord>)
        requires
            old(self).wf(),
        ensures
            final(self).wf(),
            final(self).entries() == with_entry(old(self).entries(), vote_account@, record@),
            final(self)@ == old(self)@.insert(vote_account@, record@),
            match replaced {
                Some(r) => old(self)@.contains_key(vote_account@) && old(self)@[vote_account@]
                    == r@,
                None => !old(self)@.contains_key(vote_account@),
            },
    {
        proof {
            lemma_map_entry_values(self.accounts.entries(), to_view());
            lemma_with_entry_values(self.accounts.entries(), vote_account@, record, to_view());
            lemma_with_entry(self.entries(), vote_account@, record@);
        }
        self.accounts.insert(vote_account, record)
    }

    /// The record of a vote account.
    pub fn get(&self, vote_account: &Identity) -> (found: Option<&VoteAccountRecord>)
        requires
            self.wf(),
        ensures
            match found {
                Some(r) => self@.contains_key(vote_account@) && self@[vote_account@] == r@,
                None => !self@.contains_key(vote_account@),
            },
    {
        proof {
            lemma_map_entry_values(self.accounts.entries(), to_view());
        }
        self.accounts.get(vote_account)
    }

    /// The entry at a place in the order.
    pub fn entry_at(&self, index: usize) -> (entry: Option<&(Identity, VoteAccountRecord)>)
        ensures
            match entry {
                Some(e) => index < self.entries().len() && (e.0@, e.1@)
                    == self.entries()[index as int],
                None => index >= self.entries().len(),
            },
    {
        self.accounts.entry_at(index)
    }

    /// Reads the validator identity of each record, in the order of the
    /// entries. The first record whose validator identity is malformed is
    /// reported instead.
    pub fn node_identities(&self) -> (read: Result<Vec<Identity>, RecordParseError>)
        ensures
            match read {
                Ok(ids) => node_identities(self.entries()) == Ok::<
                    Seq<Seq<u8>>,
                    RecordParseError,
                >(identity_views(ids@)),
                Err(e) => node_identities(self.entries()) == Err::<Seq<Seq<u8>>, RecordParseError>(
                    e,
                ),
            },
            read is Ok <==> forall|i: int|
                0 <= i < self.entries().len() ==> #[trigger] node_parse(self.entries(), i) is Ok,
            read matches Err(e) ==> {
                &&& is_first_malformed_node(self.entries(), e.index as int)
                &&& e.field == RecordField::NodePubkey
                &&& node_parse(self.entries(), e.index as int) == Err::<
                    Seq<u8>,
                    IdentityParseError,
                >(e.kind)
            },
    {
        let ghost entries = self.entries();
        let total: usize = self.len();
        let mut ids: Vec<Identity> = Vec::new();
        let mut index: usize = 0;
        loop
            invariant
                entries == self.entries(),
                total == entries.len(),
                index <= entries.len(),
                ids@.len() == index,
                forall|j: int|
                    0 <= j < index ==> #[trigger] node_parse(entries, j) == Ok::<
                        Seq<u8>,
                        IdentityParseError,
                    >(ids@[j]@),
            decreases entries.len() - index,
        {
            match self.entry_at(index) {
                None => {
                    proof {
                        lemma_all_nodes_parse(entries);
                        assert(identity_views(ids@) =~= Seq::new(
                            entries.len(),
                            |i: int| node_parse(entries, i)->Ok_0,
                        ));
                    }
                    return Ok(ids);
                },
                Some(entry) => {
                    match Identity::parse(entry.1.node_pubkey.as_str()) {
                        Ok(id) => {
                            ids.push(id);
                        },
                        Err(kind) => {
                            proof {
                                assert(node_parse(entries, index as int) == Err::<
                                    Seq<u8>,
                                    IdentityParseError,
                                >(kind));
                                lemma_first_malformed_node(entries, index as int);
                            }
                            return Err(
                                RecordParseError { index, field: RecordField::NodePubkey, kind },
                            );
                        },
                    }
                    index += 1;
                },
            }
        }
    }

    /// Builds the set from the records of a fetch.
    pub fn from_records(records: Vec<VoteAccountRecord>) -> (built: Result<
        EligibleSet,
        RecordParseError,
    >)
        ensures
            match built {
                Ok(set) => set.wf() && collected(record_views(records@)) == Ok::<
                    Seq<(Seq<u8>, VoteAccountRecordView)>,
                    RecordParseError,
                >(set.entries()),
                Err(e) => collected(record_views(records@)) == Err::<
                    Seq<(Seq<u8>, VoteAccountRecordView)>,
                    RecordParseError,
                >(e),
            },
            built is Ok <==> forall|i: int|
                0 <= i < records@.len() ==> #[trigger] vote_parse(record_views(records@), i) is Ok,
            built matches Err(e) ==> {
                &&& e.index < records@.len()
                &&& e.field == RecordField::VotePubkey
                &&& vote_parse(record_views(records@), e.index as int) == Err::<
                    Seq<u8>,
                    IdentityParseError,
                >(e.kind)
                &&& forall|j: int|
                    0 <= j < e.index ==> #[trigger] vote_parse(record_views(records@), j) is Ok
            },
    {
        let ghost views = record_views(records@);
        let mut set = EligibleSet::new();
        let total: usize = records.len();
        let mut index: usize = 0;
        assert(views.take(0) =~= Seq::<VoteAccountRecordView>::empty());
        for record in it: records.into_iter()
            invariant
                it.seq() == records@,
                index == it.index(),
                total == records@.len(),
                views == record_views(records@),
                set.wf(),
                collected(views.take(index as int)) == Ok::<
                    Seq<(Seq<u8>, VoteAccountRecordView)>,
                    RecordParseError,
                >(set.entries()),
        {
            proof {
                let k = index as int;
                assert(k < total);
                assert(views.take(k + 1).drop_last() =~= views.take(k));
                assert(views.take(k + 1).last() == record@);
            }
            match Identity::parse(record.vote_pubkey.as_str()) {
                Ok(vote_account) => {
                    set.insert(vote_account, record);
                },
                Err(kind) => {
                    proof {
                        lemma_collected_error_stays(views, index as int + 1);
                        lemma_collected_outcome(views);
                    }
                    return Err(
                        RecordParseError { index, field: RecordField::VotePubkey, kind },
                    );
                },
            }
            index += 1;
        }
        assert(views.take(index as int) =~= views);
        proof {
            lemma_collected_outcome(views);
        }
        Ok(set)
    }
}

/// The byte sequences of a sequence of identities.
pub open spec fn identity_views(ids: Seq<Identity>) -> Seq<Seq<u8>> {
    ids.map_values(|id: Identity| id@)
}

/// Where every validator identity is well formed, none is the first
/// malformed one.
pub proof fn lemma_all_nodes_parse(entries: Seq<(Seq<u8>, VoteAccountRecordView)>)
    requires
        forall|j: int| 0 <= j < entries.len() ==> #[trigger] node_parse(entries, j) is Ok,
    ensures
        !exists|i: int| is_first_malformed_node(entries, i),
{
}

/// There is at most one first malformed validator identity.
pub proof fn lemma_first_malformed_node(entries: Seq<(Seq<u8>, VoteAccountRecordView)>, at: int)
    requires
        is_first_malformed_node(entries, at),
    ensures
        exists|i: int| is_first_malformed_node(entries, i),
        (choose|i: int| is_first_malformed_node(entries, i)) == at,
{
    let other = choose|i: int| is_first_malformed_node(entries, i);
    if other < at {
        assert(node_parse(entries, other) is Ok);
    }
    if at < other {
        assert(node_parse(entries, at) is Ok);
    }
}

/// Before a malformed validator identity stands a first one.
pub proof fn lemma_least_malformed_node(entries: Seq<(Seq<u8>, VoteAccountRecordView)>, at: int)
    requires
        0 <= at < entries.len(),
        node_parse(entries, at) is Err,
    ensures
        exists|i: int| 0 <= i <= at && is_first_malformed_node(entries, i),
    decreases at,
{
    if exists|j: int| 0 <= j < at && #[trigger] node_parse(entries, j) is Err {
        let j = choose|j: int| 0 <= j < at && #[trigger] node_parse(entries, j) is Err;
        lemma_least_malformed_node(entries, j);
        let i = choose|i: int| 0 <= i <= j && is_first_malformed_node(entries, i);
        assert(0 <= i <= at && is_first_malformed_node(entries, i));
    } else {
        assert(is_first_malformed_node(entries, at));
    }
}

/// The validator identities are read where each of them is well formed, and
/// then they are what the records spell, in the order of the entries.
/// Otherwise the first malformed one is reported.
pub proof fn lemma_node_identities(entries: Seq<(Seq<u8>, VoteAccountRecordView)>)
    ensures
        node_identities(entries) is Ok <==> forall|i: int|
            0 <= i < entries.len() ==> #[trigger] node_parse(entries, i) is Ok,
        node_identities(entries) matches Ok(ids) ==> ids.len() == entries.len() && forall|i: int|
            0 <= i < entries.len() ==> #[trigger] node_parse(entries, i) == Ok::<
                Seq<u8>,
                IdentityParseError,
            >(ids[i]),
        entries.len() <= usize::MAX ==> (node_identities(entries) matches Err(e) ==> {
            &&& is_first_malformed_node(entries, e.index as int)
            &&& e.field == RecordField::NodePubkey
            &&& node_parse(entries, e.index as int) == Err::<Seq<u8>, IdentityParseError>(e.kind)
        }),
{
    if node_identities(entries) is Ok {
        assert forall|i: int| 0 <= i < entries.len() implies #[trigger] node_parse(
            entries,
            i,
        ) is Ok by {
            if node_parse(entries, i) is Err {
                lemma_least_malformed_node(entries, i);
            }
        }
    } else {
        let at = choose|i: int| is_first_malformed_node(entries, i);
        assert(node_parse(entries, at) is Err);
    }
}

/// An error among the first records is the error of the whole sequence.
pub proof fn lemma_collected_error_stays(records: Seq<VoteAccountRecordView>, n: int)
    requires
        0 <= n <= records.len(),
        collected(records.take(n)) is Err,
    ensures
        collected(records) == collected(records.take(n)),
    decreases records.len() - n,
{
    if n == records.len() {
        assert(records.take(n) =~= records);
    } else {
        assert(records.take(n + 1).drop_last() =~= records.take(n));
        lemma_collected_error_stays(records, n + 1);
    }
}

/// Building the set succeeds where every vote address is well formed, and
/// fails otherwise with the first record whose vote address is not.
pub proof fn lemma_collected_outcome(records: Seq<VoteAccountRecordView>)
    ensures
        collected(records) is Ok <==> forall|i: int|
            0 <= i < records.len() ==> #[trigger] vote_parse(records, i) is Ok,
        records.len() <= usize::MAX ==> (collected(records) matches Err(e) ==> {
            &&& 0 <= e.index < records.len()
            &&& e.field == RecordField::VotePubkey
            &&& vote_parse(records, e.index as int) == Err::<Seq<u8>, IdentityParseError>(e.kind)
            &&& forall|j: int| 0 <= j < e.index ==> #[trigger] vote_parse(records, j) is Ok
        }),
    decreases records.len(),
{
    if records.len() > 0 {
        let front = records.drop_last();
        lemma_collected_outcome(front);
        assert forall|i: int| 0 <= i < front.len() implies vote_parse(front, i) == vote_parse(
            records,
            i,
        ) by {}
        let last = records.len() - 1;
        if collected(records) is Ok {
            assert forall|i: int| 0 <= i < records.len() implies #[trigger] vote_parse(
                records,
                i,
            ) is Ok by {
                if i < last {
                    assert(vote_parse(front, i) is Ok);
                }
            }
        } else {
            if collected(front) is Ok {
                assert(vote_parse(records, last) is Err);
                assert forall|j: int| 0 <= j < last implies #[trigger] vote_parse(
                    records,
                    j,
                ) is Ok by {
                    assert(vote_parse(front, j) is Ok);
                }
            } else if records.len() <= usize::MAX {
                let e = collected(front)->Err_0;
                assert(vote_parse(front, e.index as int) is Err);
                assert forall|j: int| 0 <= j < e.index implies #[trigger] vote_parse(
                    records,
                    j,
                ) is Ok by {
                    assert(vote_parse(front, j) is Ok);
                }
            }
        }
    }
}

/// The set that is built holds each vote account once, holds exactly the
/// vote accounts of the records, and holds under each the last record that
/// names it. No entry is added that is not among the records.
pub proof fn lemma_collected_entries(records: Seq<VoteAccountRecordView>)
    requires
        collected(records) is Ok,
    ensures
        distinct_keys(collected(records)->Ok_0),
        forall|key: Seq<u8>|
            holds_key(collected(records)->Ok_0, key) <==> exists|i: int|
                0 <= i < records.len() && #[trigger] vote_parse(records, i) == Ok::<
                    Seq<u8>,
                    IdentityParseError,
                >(key),
        forall|i: int|
            #![trigger vote_parse(records, i)]
            0 <= i < records.len() && (forall|later: int|
                i < later < records.len() ==> #[trigger] vote_parse(records, later) != vote_parse(
                    records,
                    i,
                )) ==> as_map(collected(records)->Ok_0)[vote_parse(records, i)->Ok_0]
                == records[i],
        forall|j: int|
            0 <= j < (collected(records)->Ok_0).len() ==> exists|i: int|
                0 <= i < records.len() && records[i] == (#[trigger] (collected(
                    records,
                )->Ok_0)[j]).1 && #[trigger] vote_parse(records, i) == Ok::<
                    Seq<u8>,
                    IdentityParseError,
                >((collected(records)->Ok_0)[j].0),
    decreases records.len(),
{
    let entries = collected(records)->Ok_0;
    if records.len() > 0 {
        let front = records.drop_last();
        let last = records.len() - 1;
        let before = collected(front)->Ok_0;
        let key = vote_parse(records, last)->Ok_0;
        lemma_collected_entries(front);
        lemma_with_entry(before, key, records.last());
        assert(entries == with_entry(before, key, records.last()));
        assert forall|i: int| 0 <= i < front.len() implies vote_parse(front, i) == vote_parse(
            records,
            i,
        ) by {}
        assert forall|k: Seq<u8>|
            holds_key(entries, k) <==> exists|i: int|
                0 <= i < records.len() && #[trigger] vote_parse(records, i) == Ok::<
                    Seq<u8>,
                    IdentityParseError,
                >(k) by {
            assert(as_map(entries).contains_key(k) <==> (k == key || as_map(before).contains_key(
                k,
            )));
            if holds_key(before, k) {
                let i = choose|i: int|
                    0 <= i < front.len() && #[trigger] vote_parse(front, i) == Ok::<
                        Seq<u8>,
                        IdentityParseError,
                    >(k);
                assert(vote_parse(records, i) == Ok::<Seq<u8>, IdentityParseError>(k));
            }
            if k == key {
                assert(vote_parse(records, last) == Ok::<Seq<u8>, IdentityParseError>(k));
            }
            if exists|i: int|
                0 <= i < records.len() && #[trigger] vote_parse(records, i) == Ok::<
                    Seq<u8>,
                    IdentityParseError,
                >(k) {
                let i = choose|i: int|
                    0 <= i < records.len() && #[trigger] vote_parse(records, i) == Ok::<
                        Seq<u8>,
                        IdentityParseError,
                    >(k);
                if i < last {
                    assert(vote_parse(front, i) == Ok::<Seq<u8>, IdentityParseError>(k));
                }
            }
        }
        assert forall|i: int|
            #![trigger vote_parse(records, i)]
            0 <= i < records.len() && (forall|later: int|
                i < later < records.len() ==> #[trigger] vote_parse(records, later) != vote_parse(
                    records,
                    i,
                )) implies as_map(entries)[vote_parse(records, i)->Ok_0] == records[i] by {
            lemma_collected_outcome(records);
            assert(vote_parse(records, i) is Ok);
            if i < last {
                assert(vote_parse(records, last) != vote_parse(records, i));
                assert(vote_parse(front, i) == vote_parse(records, i));
                assert forall|later: int| i < later < front.len() implies #[trigger] vote_parse(
                    front,
                    later,
                ) != vote_parse(front, i) by {
                    assert(vote_parse(records, later) != vote_parse(records, i));
                }
                assert(as_map(before)[vote_parse(front, i)->Ok_0] == front[i]);
            }
        }
        assert forall|j: int| 0 <= j < entries.len() implies exists|i: int|
            0 <= i < records.len() && records[i] == (#[trigger] entries[j]).1
                && #[trigger] vote_parse(records, i) == Ok::<Seq<u8>, IdentityParseError>(
                entries[j].0,
            ) by {
            if entries[j] == (key, records.last()) {
                assert(vote_parse(records, last) == Ok::<Seq<u8>, IdentityParseError>(key));
            } else {
                assert(0 <= j < before.len() && before[j] == entries[j]);
                let i = choose|i: int|
                    0 <= i < front.len() && front[i] == before[j].1 && #[trigger] vote_parse(
                        front,
                        i,
                    ) == Ok::<Seq<u8>, IdentityParseError>(before[j].0);
                assert(vote_parse(records, i) == Ok::<Seq<u8>, IdentityParseError>(entries[j].0));
            }
        }
    }
}

/// The set that is built from a response holds exactly the vote accounts of
/// the fetched records with credits for at least `min_vote_epochs` epochs,
/// and each of its records is such a fetched record.
pub proof fn lemma_eligible_set_exact(response: VoteAccountsView, min_vote_epochs: usize)
    requires
        collected(eligible_views(response, min_vote_epochs)) is Ok,
    ensures
        forall|key: Seq<u8>|
            holds_key(collected(eligible_views(response, min_vote_epochs))->Ok_0, key)
                <==> exists|record: VoteAccountRecordView|
                (response.current.contains(record) || response.delinquent.contains(record))
                    && record.epoch_credits.len() >= min_vote_epochs && #[trigger] pubkey_from_str(
                    record.vote_pubkey,
                ) == Ok::<Seq<u8>, IdentityParseError>(key),
        forall|j: int|
            0 <= j < (collected(eligible_views(response, min_vote_epochs))->Ok_0).len() ==> {
                let entry = #[trigger] (collected(
                    eligible_views(response, min_vote_epochs),
                )->Ok_0)[j];
                &&& response.current.contains(entry.1) || response.delinquent.contains(entry.1)
                &&& entry.1.epoch_credits.len() >= min_vote_epochs
                &&& pubkey_from_str(entry.1.vote_pubkey) == Ok::<Seq<u8>, IdentityParseError>(
                    entry.0,
                )
            },
{
    let kept = eligible_views(response, min_vote_epochs);
    let entries = collected(kept)->Ok_0;
    lemma_kept_exactly_the_eligible(response, min_vote_epochs);
    lemma_collected_entries(kept);
    assert forall|key: Seq<u8>|
        holds_key(entries, key) <==> exists|record: VoteAccountRecordView|
            (response.current.contains(record) || response.delinquent.contains(record))
                && record.epoch_credits.len() >= min_vote_epochs && #[trigger] pubkey_from_str(
                record.vote_pubkey,
            ) == Ok::<Seq<u8>, IdentityParseError>(key) by {
        if holds_key(entries, key) {
            let i = choose|i: int|
                0 <= i < kept.len() && #[trigger] vote_parse(kept, i) == Ok::<
                    Seq<u8>,
                    IdentityParseError,
                >(key);
            assert(kept.contains(kept[i]));
            assert(pubkey_from_str(kept[i].vote_pubkey) == Ok::<Seq<u8>, IdentityParseError>(key));
        }
        if exists|record: VoteAccountRecordView|
            (response.current.contains(record) || response.delinquent.contains(record))
                && record.epoch_credits.len() >= min_vote_epochs && #[trigger] pubkey_from_str(
                record.vote_pubkey,
            ) == Ok::<Seq<u8>, IdentityParseError>(key) {
            let record = choose|record: VoteAccountRecordView|
                (response.current.contains(record) || response.delinquent.contains(record))
                    && record.epoch_credits.len() >= min_vote_epochs && #[trigger] pubkey_from_str(
                    record.vote_pubkey,
                ) == Ok::<Seq<u8>, IdentityParseError>(key);
            assert(kept.contains(record));
            let i = choose|i: int| 0 <= i < kept.len() && kept[i] == record;
            assert(vote_parse(kept, i) == Ok::<Seq<u8>, IdentityParseError>(key));
        }
    }
    assert forall|j: int| 0 <= j < entries.len() implies {
        let entry = #[trigger] entries[j];
        &&& response.current.contains(entry.1) || response.delinquent.contains(entry.1)
        &&& entry.1.epoch_credits.len() >= min_vote_epochs
        &&& pubkey_from_str(entry.1.vote_pubkey) == Ok::<Seq<u8>, IdentityParseError>(entry.0)
    } by {
        let i = choose|i: int|
            0 <= i < kept.len() && kept[i] == entries[j].1 && #[trigger] vote_parse(kept, i)
                == Ok::<Seq<u8>, IdentityParseError>(entries[j].0);
        assert(kept.contains(kept[i]));
    }
}

} // verus!
