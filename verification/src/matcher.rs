//! Lookup keys of the restart signals and the matching of an eligible set
//! against a snapshot of the replicated store.

use crate::eligible::{
    identity_views, lemma_node_identities, node_identities, node_parse, EligibleSet,
    RecordParseError,
};
use crate::identity::{Identity, IdentityParseError};
use crate::identity_map::IdentityMap;
use crate::record::VoteAccountRecordView;
use crate::seq_facts::lemma_flat_map_members;
use vstd::prelude::*;
use vstd::std_specs::cmp::PartialEqSpecImpl;

verus! {

/// The kinds of restart signal that a validator publishes.
#[derive(Clone, Copy, Debug, PartialEq, Eq, Structural)]
pub enum SignalKind {
    /// The slots of the fork that the validator voted on last.
    LastVotedForkSlots,
    /// The fork that the validator holds to be the heaviest.
    HeaviestFork,
}

/// The key under which the replicated store holds one kind of restart signal
/// of one validator.
#[derive(Clone, Copy, Debug)]
pub enum GossipEntryKey {
    RestartLastVotedForkSlots(Identity),
    RestartHeaviestFork(Identity),
}

impl View for GossipEntryKey {
    type V = (SignalKind, Seq<u8>);

    open spec fn view(&self) -> (SignalKind, Seq<u8>) {
        match self {
            GossipEntryKey::RestartLastVotedForkSlots(id) => (SignalKind::LastVotedForkSlots, id@),
            GossipEntryKey::RestartHeaviestFork(id) => (SignalKind::HeaviestFork, id@),
        }
    }
}

impl PartialEq for GossipEntryKey {
    fn eq(&self, other: &GossipEntryKey) -> (same: bool) {
        match (self, other) {
            (
                GossipEntryKey::RestartLastVotedForkSlots(a),
                GossipEntryKey::RestartLastVotedForkSlots(b),
            ) => *a == *b,
            (GossipEntryKey::RestartHeaviestFork(a), GossipEntryKey::RestartHeaviestFork(b)) => *a
                == *b,
            _ => false,
        }
    }
}

impl PartialEqSpecImpl for GossipEntryKey {
    open spec fn obeys_eq_spec() -> bool {
        true
    }

    open spec fn eq_spec(&self, other: &GossipEntryKey) -> bool {
        self@ == other@
    }
}

impl Eq for GossipEntryKey {

}

impl GossipEntryKey {
    /// The key of one kind of signal of one validator.
    pub fn new(kind: SignalKind, identity: Identity) -> (key: GossipEntryKey)
        ensures
            key@ == (kind, identity@),
            key == (match kind {
                SignalKind::LastVotedForkSlots => GossipEntryKey::RestartLastVotedForkSlots(
                    identity,
                ),
                SignalKind::HeaviestFork => GossipEntryKey::RestartHeaviestFork(identity),
            }),
    {
        match kind {
            SignalKind::LastVotedForkSlots => GossipEntryKey::RestartLastVotedForkSlots(identity),
            SignalKind::HeaviestFork => GossipEntryKey::RestartHeaviestFork(identity),
        }
    }

    /// The kind of signal that the key stands for.
    pub fn kind(&self) -> (kind: SignalKind)
        ensures
            kind == self@.0,
    {
        match self {
            GossipEntryKey::RestartLastVotedForkSlots(_) => SignalKind::LastVotedForkSlots,
            GossipEntryKey::RestartHeaviestFork(_) => SignalKind::HeaviestFork,
        }
    }

    /// The validator that the key belongs to.
    pub fn identity(&self) -> (identity: Identity)
        ensures
            identity@ == self@.1,
            *self == GossipEntryKey::RestartLastVotedForkSlots(identity) || *self
                == GossipEntryKey::RestartHeaviestFork(identity),
    {
        match self {
            GossipEntryKey::RestartLastVotedForkSlots(id) => *id,
            GossipEntryKey::RestartHeaviestFork(id) => *id,
        }
    }
}

/// The two lookup keys of a validator, as values: first the key of its
/// last-voted fork slots, then that of its heaviest fork.
pub open spec fn restart_key_views(identity: Seq<u8>) -> Seq<(SignalKind, Seq<u8>)> {
    seq![(SignalKind::LastVotedForkSlots, identity), (SignalKind::HeaviestFork, identity)]
}

/// The two lookup keys of a validator.
pub fn restart_keys(identity: Identity) -> (keys: (GossipEntryKey, GossipEntryKey))
    ensures
        keys.0 == GossipEntryKey::RestartLastVotedForkSlots(identity),
        keys.1 == GossipEntryKey::RestartHeaviestFork(identity),
        seq![keys.0@, keys.1@] == restart_key_views(identity@),
{
    (
        GossipEntryKey::RestartLastVotedForkSlots(identity),
        GossipEntryKey::RestartHeaviestFork(identity),
    )
}

/// Seconds that pass between joining the overlay and the first lookup, so
/// that the entries of the other participants can arrive.
pub const CONVERGENCE_DWELL_SECS: u64 = 150;

/// What was read from the replicated store: for each lookup key that had an
/// entry, the entry in text form.
pub struct StoreSnapshot {
    last_voted_fork_slots: IdentityMap<String>,
    heaviest_fork: IdentityMap<String>,
}

impl StoreSnapshot {
    /// The snapshot is well formed: no key stands in it twice.
    pub closed spec fn wf(&self) -> bool {
        self.last_voted_fork_slots.wf() && self.heaviest_fork.wf()
    }

    /// The entries by lookup key.
    pub closed spec fn view(&self) -> Map<(SignalKind, Seq<u8>), Seq<char>> {
        Map::new(
            |key: (SignalKind, Seq<u8>)|
                match key.0 {
                    SignalKind::LastVotedForkSlots => self.last_voted_fork_slots@.contains_key(
                        key.1,
                    ),
                    SignalKind::HeaviestFork => self.heaviest_fork@.contains_key(key.1),
                },
            |key: (SignalKind, Seq<u8>)|
                match key.0 {
                    SignalKind::LastVotedForkSlots => self.last_voted_fork_slots@[key.1]@,
                    SignalKind::HeaviestFork => self.heaviest_fork@[key.1]@,
                },
        )
    }

    /// A snapshot without entries.
    pub fn new() -> (store: StoreSnapshot)
        ensures
            store.wf(),
            store@ == Map::<(SignalKind, Seq<u8>), Seq<char>>::empty(),
    {
        let store = StoreSnapshot {
            last_voted_fork_slots: IdentityMap::new(),
            heaviest_fork: IdentityMap::new(),
        };
        assert(store@ =~= Map::<(SignalKind, Seq<u8>), Seq<char>>::empty());
        store
    }

    /// Records the entry that the store holds under a key and hands back the
    /// entry that it replaces in the snapshot.
    pub fn insert(&mut self, key: GossipEntryKey, entry: String) -> (replaced: Option<String>)
        requires
            old(self).wf(),
        ensures
            final(self).wf(),
            final(self)@ == old(self)@.insert(key@, entry@),
            match replaced {
                Some(e) => old(self)@.contains_key(key@) && old(self)@[key@] == e@,
                None => !old(self)@.contains_key(key@),
            },
    {
        let replaced = match key {
            GossipEntryKey::RestartLastVotedForkSlots(id) => self.last_voted_fork_slots.insert(
                id,
                entry,
            ),
            GossipEntryKey::RestartHeaviestFork(id) => self.heaviest_fork.insert(id, entry),
        };
        assert(self@ =~= old(self)@.insert(key@, entry@));
        replaced
    }

    /// The entry under a key.
    pub fn get(&self, key: &GossipEntryKey) -> (found: Option<&String>)
        requires
            self.wf(),
        ensures
            match found {
                Some(e) => self@.contains_key(key@) && self@[key@] == e@,
                None => !self@.contains_key(key@),
            },
    {
        match key {
            GossipEntryKey::RestartLastVotedForkSlots(id) => self.last_voted_fork_slots.get(id),
            GossipEntryKey::RestartHeaviestFork(id) => self.heaviest_fork.get(id),
        }
    }

    /// Whether the snapshot holds an entry under a key.
    pub fn contains_key(&self, key: &GossipEntryKey) -> (held: bool)
        requires
            self.wf(),
        ensures
            held == self@.contains_key(key@),
    {
        self.get(key).is_some()
    }
}

/// A restart signal that was found: the validator, the kind of signal, and
/// the entry in text form.
#[derive(Clone, Debug, PartialEq, Eq)]
pub struct SignalReport {
    pub identity: Identity,
    pub kind: SignalKind,
    pub entry: String,
}

/// What a report holds, as mathematical values.
pub struct SignalReportView {
    pub identity: Seq<u8>,
    pub kind: SignalKind,
    pub entry: Seq<char>,
}

impl View for SignalReport {
    type V = SignalReportView;

    open spec fn view(&self) -> SignalReportView {
        SignalReportView { identity: self.identity@, kind: self.kind, entry: self.entry@ }
    }
}

/// The views of a sequence of reports, in the same order.
pub open spec fn report_views(reports: Seq<SignalReport>) -> Seq<SignalReportView> {
    reports.map_values(|r: SignalReport| r@)
}

/// The report on one kind of signal of one validator: one report where the
/// store holds an entry under that key, none where it does not.
pub open spec fn signal_of(
    identity: Seq<u8>,
    kind: SignalKind,
    store: Map<(SignalKind, Seq<u8>), Seq<char>>,
) -> Seq<SignalReportView> {
    if store.contains_key((kind, identity)) {
        seq![SignalReportView { identity, kind, entry: store[(kind, identity)] }]
    } else {
        Seq::empty()
    }
}

/// The reports on one validator: its last-voted fork slots, then its
/// heaviest fork, each where the store holds it.
pub open spec fn signals_of(identity: Seq<u8>, store: Map<(SignalKind, Seq<u8>), Seq<char>>) -> Seq<
    SignalReportView,
> {
    signal_of(identity, SignalKind::LastVotedForkSlots, store) + signal_of(
        identity,
        SignalKind::HeaviestFork,
        store,
    )
}

/// The function that takes a validator to the reports on it.
pub open spec fn signals_from(store: Map<(SignalKind, Seq<u8>), Seq<char>>) -> spec_fn(
    Seq<u8>,
) -> Seq<SignalReportView> {
    |identity: Seq<u8>| signals_of(identity, store)
}

/// The reports that matching a set against a store gives: the reports on
/// the validator of each entry, in the order of the entries; or the first
/// record whose validator identity is malformed.
pub open spec fn expected_reports(
    entries: Seq<(Seq<u8>, VoteAccountRecordView)>,
    store: Map<(SignalKind, Seq<u8>), Seq<char>>,
) -> Result<Seq<SignalReportView>, RecordParseError> {
    match node_identities(entries) {
        Ok(ids) => Ok(ids.flat_map(signals_from(store))),
        Err(e) => Err(e),
    }
}

/// The lookup keys that matching a set reads: the two keys of the validator
/// of each entry, in the order of the entries; or the first record whose
/// validator identity is malformed.
pub open spec fn expected_keys(entries: Seq<(Seq<u8>, VoteAccountRecordView)>) -> Result<
    Seq<(SignalKind, Seq<u8>)>,
    RecordParseError,
> {
    match node_identities(entries) {
        Ok(ids) => Ok(ids.flat_map(|identity: Seq<u8>| restart_key_views(identity))),
        Err(e) => Err(e),
    }
}

/// The views of a sequence of keys, in the same order.
pub open spec fn key_views(keys: Seq<GossipEntryKey>) -> Seq<(SignalKind, Seq<u8>)> {
    keys.map_values(|k: GossipEntryKey| k@)
}

/// Looks up the restart signals of one validator.
pub fn match_identity(identity: &Identity, store: &StoreSnapshot) -> (reports: Vec<SignalReport>)
    requires
        store.wf(),
    ensures
        report_views(reports@) == signals_of(identity@, store@),
{
    let keys = restart_keys(*identity);
    let mut reports: Vec<SignalReport> = Vec::new();
    if let Some(entry) = store.get(&keys.0) {
        reports.push(
            SignalReport {
                identity: *identity,
                kind: SignalKind::LastVotedForkSlots,
                entry: entry.clone(),
            },
        );
    }
    if let Some(entry) = store.get(&keys.1) {
        reports.push(
            SignalReport {
                identity: *identity,
                kind: SignalKind::HeaviestFork,
                entry: entry.clone(),
            },
        );
    }
    assert(report_views(reports@) =~= signals_of(identity@, store@));
    reports
}

/// Looks up the restart signals of the validators of an eligible set.
pub fn find_restart_signals(eligible: &EligibleSet, store: &StoreSnapshot) -> (found: Result<
    Vec<SignalReport>,
    RecordParseError,
>)
    requires
        store.wf(),
    ensures
        match found {
            Ok(reports) => expected_reports(eligible.entries(), store@) == Ok::<
                Seq<SignalReportView>,
                RecordParseError,
            >(report_views(reports@)),
            Err(e) => expected_reports(eligible.entries(), store@) == Err::<
                Seq<SignalReportView>,
                RecordParseError,
            >(e),
        },
        found is Ok <==> forall|i: int|
            0 <= i < eligible.entries().len() ==> #[trigger] node_parse(eligible.entries(), i) is Ok,
{
    let ids = match eligible.node_identities() {
        Ok(ids) => ids,
        Err(e) => {
            return Err(e);
        },
    };
    let ghost id_views = identity_views(ids@);
    let ghost per_identity = signals_from(store@);
    let mut reports: Vec<SignalReport> = Vec::new();
    let mut index: usize = 0;
    assert(id_views.take(0).flat_map(per_identity) =~= Seq::<SignalReportView>::empty());
    while index < ids.len()
        invariant
            store.wf(),
            index <= ids.len(),
            id_views == identity_views(ids@),
            per_identity == signals_from(store@),
            report_views(reports@) == id_views.take(index as int).flat_map(per_identity),
        decreases ids.len() - index,
    {
        let mut on_identity = match_identity(&ids[index], store);
        proof {
            id_views.lemma_flat_map_take_append(per_identity, index as int);
            assert(report_views(reports@ + on_identity@) =~= report_views(reports@) + report_views(
                on_identity@,
            ));
        }
        reports.append(&mut on_identity);
        index += 1;
    }
    assert(id_views.take(index as int) =~= id_views);
    Ok(reports)
}

/// The lookup keys that `find_restart_signals` reads for an eligible set.
pub fn restart_signal_keys(eligible: &EligibleSet) -> (listed: Result<
    Vec<GossipEntryKey>,
    RecordParseError,
>)
    ensures
        match listed {
            Ok(keys) => expected_keys(eligible.entries()) == Ok::<
                Seq<(SignalKind, Seq<u8>)>,
                RecordParseError,
            >(key_views(keys@)),
            Err(e) => expected_keys(eligible.entries()) == Err::<
                Seq<(SignalKind, Seq<u8>)>,
                RecordParseError,
            >(e),
        },
        listed is Ok <==> forall|i: int|
            0 <= i < eligible.entries().len() ==> #[trigger] node_parse(eligible.entries(), i) is Ok,
{
    let ids = match eligible.node_identities() {
        Ok(ids) => ids,
        Err(e) => {
            return Err(e);
        },
    };
    let ghost id_views = identity_views(ids@);
    let ghost per_identity = |identity: Seq<u8>| restart_key_views(identity);
    let mut keys: Vec<GossipEntryKey> = Vec::new();
    let mut index: usize = 0;
    assert(id_views.take(0).flat_map(per_identity) =~= Seq::<(SignalKind, Seq<u8>)>::empty());
    while index < ids.len()
        invariant
            index <= ids.len(),
            id_views == identity_views(ids@),
            per_identity == (|identity: Seq<u8>| restart_key_views(identity)),
            key_views(keys@) == id_views.take(index as int).flat_map(per_identity),
        decreases ids.len() - index,
    {
        let pair = restart_keys(ids[index]);
        proof {
            id_views.lemma_flat_map_take_append(per_identity, index as int);
            assert(key_views(keys@.push(pair.0).push(pair.1)) =~= key_views(keys@) + seq![
                pair.0@,
                pair.1@,
            ]);
        }
        keys.push(pair.0);
        keys.push(pair.1);
        index += 1;
    }
    assert(id_views.take(index as int) =~= id_views);
    Ok(keys)
}

/// Some record names this validator.
pub open spec fn names_validator(
    entries: Seq<(Seq<u8>, VoteAccountRecordView)>,
    identity: Seq<u8>,
) -> bool {
    exists|i: int|
        0 <= i < entries.len() && #[trigger] node_parse(entries, i) == Ok::<
            Seq<u8>,
            IdentityParseError,
        >(identity)
}

/// Some report is on this kind of signal of this validator.
pub open spec fn reports_pair(
    reports: Seq<SignalReportView>,
    identity: Seq<u8>,
    kind: SignalKind,
) -> bool {
    exists|j: int|
        0 <= j < reports.len() && (#[trigger] reports[j]).identity == identity && reports[j].kind
            == kind
}

/// The reports on one validator are the entries that the store holds under
/// its two keys.
pub proof fn lemma_signals_of_members(
    identity: Seq<u8>,
    store: Map<(SignalKind, Seq<u8>), Seq<char>>,
)
    ensures
        forall|report: SignalReportView| #[trigger]
            signals_of(identity, store).contains(report) <==> (report.identity == identity
                && store.contains_key((report.kind, identity)) && report.entry == store[(
                report.kind,
                identity,
            )]),
{
    let first = signal_of(identity, SignalKind::LastVotedForkSlots, store);
    let second = signal_of(identity, SignalKind::HeaviestFork, store);
    let both = signals_of(identity, store);
    assert forall|report: SignalReportView| #[trigger]
        both.contains(report) <==> (report.identity == identity && store.contains_key(
            (report.kind, identity),
        ) && report.entry == store[(report.kind, identity)]) by {
        if both.contains(report) {
            let j = choose|j: int| 0 <= j < both.len() && both[j] == report;
            if j < first.len() {
                assert(first[j] == report);
            } else {
                assert(second[j - first.len()] == report);
            }
        }
        if report.identity == identity && store.contains_key((report.kind, identity))
            && report.entry == store[(report.kind, identity)] {
            match report.kind {
                SignalKind::LastVotedForkSlots => {
                    assert(first[0] == report);
                    assert(both[0] == report);
                },
                SignalKind::HeaviestFork => {
                    assert(second[0] == report);
                    assert(both[first.len() as int] == report);
                },
            }
        }
    }
}

/// Matching reports exactly what the store holds for the validators of the
/// set: a report is made if and only if some record names the validator and
/// the store holds an entry under the key of that kind for it, and the
/// report carries that entry.
pub proof fn lemma_reports_exactly_the_present(
    entries: Seq<(Seq<u8>, VoteAccountRecordView)>,
    store: Map<(SignalKind, Seq<u8>), Seq<char>>,
)
    requires
        expected_reports(entries, store) is Ok,
    ensures
        forall|report: SignalReportView| #[trigger]
            (expected_reports(entries, store)->Ok_0).contains(report) <==> (names_validator(
                entries,
                report.identity,
            ) && store.contains_key((report.kind, report.identity)) && report.entry == store[(
                report.kind,
                report.identity,
            )]),
        forall|identity: Seq<u8>, kind: SignalKind| #[trigger]
            reports_pair(expected_reports(entries, store)->Ok_0, identity, kind) <==> (
            names_validator(entries, identity) && store.contains_key((kind, identity))),
{
    let ids = node_identities(entries)->Ok_0;
    let reports = expected_reports(entries, store)->Ok_0;
    lemma_node_identities(entries);
    lemma_flat_map_members(ids, signals_from(store));
    assert forall|report: SignalReportView| #[trigger]
        reports.contains(report) <==> (names_validator(entries, report.identity)
            && store.contains_key((report.kind, report.identity)) && report.entry == store[(
            report.kind,
            report.identity,
        )]) by {
        if reports.contains(report) {
            let i = choose|i: int|
                0 <= i < ids.len() && signals_from(store)(#[trigger] ids[i]).contains(report);
            lemma_signals_of_members(ids[i], store);
            assert(node_parse(entries, i) == Ok::<Seq<u8>, IdentityParseError>(report.identity));
        }
        if names_validator(entries, report.identity) && store.contains_key(
            (report.kind, report.identity),
        ) && report.entry == store[(report.kind, report.identity)] {
            let i = choose|i: int|
                0 <= i < entries.len() && #[trigger] node_parse(entries, i) == Ok::<
                    Seq<u8>,
                    IdentityParseError,
                >(report.identity);
            lemma_signals_of_members(ids[i], store);
            assert(signals_from(store)(ids[i]).contains(report));
        }
    }
    assert forall|identity: Seq<u8>, kind: SignalKind| #[trigger]
        reports_pair(reports, identity, kind) <==> (names_validator(entries, identity)
            && store.contains_key((kind, identity))) by {
        if reports_pair(reports, identity, kind) {
            let j = choose|j: int|
                0 <= j < reports.len() && (#[trigger] reports[j]).identity == identity
                    && reports[j].kind == kind;
            assert(reports.contains(reports[j]));
        }
        if names_validator(entries, identity) && store.contains_key((kind, identity)) {
            let report = SignalReportView { identity, kind, entry: store[(kind, identity)] };
            assert(reports.contains(report));
            let j = choose|j: int| 0 <= j < reports.len() && reports[j] == report;
            assert(reports[j].identity == identity && reports[j].kind == kind);
        }
    }
}

/// The order of the records is immaterial: two sequences of entries with
/// the same members fail or succeed together, and where they succeed the
/// same reports are made.
pub proof fn lemma_order_is_immaterial(
    one: Seq<(Seq<u8>, VoteAccountRecordView)>,
    other: Seq<(Seq<u8>, VoteAccountRecordView)>,
    store: Map<(SignalKind, Seq<u8>), Seq<char>>,
)
    requires
        forall|entry: (Seq<u8>, VoteAccountRecordView)|
            one.contains(entry) <==> other.contains(entry),
    ensures
        expected_reports(one, store) is Ok <==> expected_reports(other, store) is Ok,
        expected_reports(one, store) is Ok ==> (expected_reports(one, store)->Ok_0).to_set() == (
        expected_reports(other, store)->Ok_0).to_set(),
{
    lemma_node_identities(one);
    lemma_node_identities(other);
    lemma_same_members_same_names(one, other);
    lemma_same_members_same_names(other, one);
    if expected_reports(one, store) is Ok {
        assert forall|i: int| 0 <= i < other.len() implies #[trigger] node_parse(
            other,
            i,
        ) is Ok by {
            assert(other.contains(other[i]));
            let j = choose|j: int| 0 <= j < one.len() && one[j] == other[i];
            assert(node_parse(one, j) is Ok);
        }
    }
    if expected_reports(other, store) is Ok {
        assert forall|i: int| 0 <= i < one.len() implies #[trigger] node_parse(one, i) is Ok by {
            assert(one.contains(one[i]));
            let j = choose|j: int| 0 <= j < other.len() && other[j] == one[i];
            assert(node_parse(other, j) is Ok);
        }
    }
    if expected_reports(one, store) is Ok {
        lemma_reports_exactly_the_present(one, store);
        lemma_reports_exactly_the_present(other, store);
        assert((expected_reports(one, store)->Ok_0).to_set() =~= (expected_reports(
            other,
            store,
        )->Ok_0).to_set());
    }
}

/// A validator that is named by a member of one sequence is named by a
/// member of every sequence that holds that member.
pub proof fn lemma_same_members_same_names(
    one: Seq<(Seq<u8>, VoteAccountRecordView)>,
    other: Seq<(Seq<u8>, VoteAccountRecordView)>,
)
    requires
        forall|entry: (Seq<u8>, VoteAccountRecordView)|
            one.contains(entry) ==> other.contains(entry),
    ensures
        forall|identity: Seq<u8>|
            names_validator(one, identity) ==> names_validator(other, identity),
{
    assert forall|identity: Seq<u8>| names_validator(one, identity) implies names_validator(
        other,
        identity,
    ) by {
        let i = choose|i: int|
            0 <= i < one.len() && #[trigger] node_parse(one, i) == Ok::<
                Seq<u8>,
                IdentityParseError,
            >(identity);
        assert(one.contains(one[i]));
        let j = choose|j: int| 0 <= j < other.len() && other[j] == one[i];
        assert(node_parse(other, j) == Ok::<Seq<u8>, IdentityParseError>(identity));
    }
}

/// No match is silent: where the store holds no entry for a validator, no
/// report is made on it, and matching does not fail on that account.
pub proof fn lemma_no_match_is_silent(
    entries: Seq<(Seq<u8>, VoteAccountRecordView)>,
    store: Map<(SignalKind, Seq<u8>), Seq<char>>,
    identity: Seq<u8>,
)
    requires
        !store.contains_key((SignalKind::LastVotedForkSlots, identity)),
        !store.contains_key((SignalKind::HeaviestFork, identity)),
    ensures
        signals_of(identity, store) == Seq::<SignalReportView>::empty(),
        expected_reports(entries, store) is Ok <==> node_identities(entries) is Ok,
        expected_reports(entries, store) matches Ok(reports) ==> forall|j: int|
            0 <= j < reports.len() ==> (#[trigger] reports[j]).identity != identity,
{
    if expected_reports(entries, store) is Ok {
        let reports = expected_reports(entries, store)->Ok_0;
        lemma_reports_exactly_the_present(entries, store);
        assert forall|j: int| 0 <= j < reports.len() implies (#[trigger] reports[j]).identity
            != identity by {
            assert(reports.contains(reports[j]));
            match reports[j].kind {
                SignalKind::LastVotedForkSlots => {},
                SignalKind::HeaviestFork => {},
            }
        }
    }
}

/// Matching an empty store reports nothing.
pub proof fn lemma_empty_store_reports_nothing(entries: Seq<(Seq<u8>, VoteAccountRecordView)>)
    requires
        node_identities(entries) is Ok,
    ensures
        expected_reports(entries, Map::<(SignalKind, Seq<u8>), Seq<char>>::empty()) == Ok::<
            Seq<SignalReportView>,
            RecordParseError,
        >(Seq::empty()),
{
    let store = Map::<(SignalKind, Seq<u8>), Seq<char>>::empty();
    let reports = expected_reports(entries, store)->Ok_0;
    lemma_reports_exactly_the_present(entries, store);
    if reports.len() > 0 {
        assert(reports.contains(reports[0]));
    }
    assert(reports =~= Seq::<SignalReportView>::empty());
}

/// Matching is repeatable: two runs on the same set against the same store
/// come to the same result.
pub proof fn lemma_matching_is_repeatable(
    entries: Seq<(Seq<u8>, VoteAccountRecordView)>,
    store: Map<(SignalKind, Seq<u8>), Seq<char>>,
    first: Result<Seq<SignalReportView>, RecordParseError>,
    second: Result<Seq<SignalReportView>, RecordParseError>,
)
    requires
        first == expected_reports(entries, store),
        second == expected_reports(entries, store),
    ensures
        first == second,
{
}

} // verus!
