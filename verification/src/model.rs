//! Usage records, usage types and the errors that callers see.
//!
//! Which identifiers, references and keys are valid is the gateway's rule, not
//! this crate's. Where a stored text must pass that rule, the function takes a
//! validator that judges a [`Candidate`].
use crate::maps::StringMap;
use crate::text::{optional_text, same_text};
use crate::values::{Decimal, DecimalView, OffsetDateTime, Uuid};
use vstd::prelude::*;

verus! {

/// The identifier of a usage type.
#[derive(Debug)]
pub struct UsageTypeGtsId {
    pub value: String,
}

impl UsageTypeGtsId {
    /// The identifier's text.
    pub fn as_str(&self) -> (s: &str)
        ensures
            s@ == self@,
    {
        self.value.as_str()
    }
}

impl View for UsageTypeGtsId {
    type V = Seq<char>;

    open spec fn view(&self) -> Seq<char> {
        self.value@
    }
}

impl Clone for UsageTypeGtsId {
    fn clone(&self) -> (r: UsageTypeGtsId)
        ensures
            r@ == self@,
    {
        UsageTypeGtsId { value: self.value.clone() }
    }
}

impl vstd::std_specs::cmp::PartialEqSpecImpl for UsageTypeGtsId {
    open spec fn obeys_eq_spec() -> bool {
        true
    }

    open spec fn eq_spec(&self, other: &UsageTypeGtsId) -> bool {
        self@ == other@
    }
}

impl PartialEq for UsageTypeGtsId {
    fn eq(&self, other: &UsageTypeGtsId) -> (r: bool) {
        same_text(self.value.as_str(), other.value.as_str())
    }
}

/// A metadata key.
#[derive(Debug)]
pub struct MetadataKey {
    pub value: String,
}

impl MetadataKey {
    /// The key's text.
    pub fn as_str(&self) -> (s: &str)
        ensures
            s@ == self@,
    {
        self.value.as_str()
    }
}

impl View for MetadataKey {
    type V = Seq<char>;

    open spec fn view(&self) -> Seq<char> {
        self.value@
    }
}

/// A caller-supplied deduplication key.
#[derive(Debug)]
pub struct IdempotencyKey {
    pub value: String,
}

impl IdempotencyKey {
    /// The key's text.
    pub fn as_str(&self) -> (s: &str)
        ensures
            s@ == self@,
    {
        self.value.as_str()
    }
}

impl View for IdempotencyKey {
    type V = Seq<char>;

    open spec fn view(&self) -> Seq<char> {
        self.value@
    }
}

/// The resource that a record is attributed to.
#[derive(Debug)]
pub struct ResourceRef {
    pub id: String,
    pub kind: String,
}

/// What a [`ResourceRef`] holds.
pub struct ResourceRefView {
    pub id: Seq<char>,
    pub kind: Seq<char>,
}

impl ResourceRef {
    /// The resource's identifier.
    pub fn resource_id(&self) -> (s: &str)
        ensures
            s@ == self@.id,
    {
        self.id.as_str()
    }

    /// The resource's type.
    pub fn resource_type(&self) -> (s: &str)
        ensures
            s@ == self@.kind,
    {
        self.kind.as_str()
    }
}

impl View for ResourceRef {
    type V = ResourceRefView;

    open spec fn view(&self) -> ResourceRefView {
        ResourceRefView { id: self.id@, kind: self.kind@ }
    }
}

/// The subject that a record is attributed to.
#[derive(Debug)]
pub struct SubjectRef {
    pub id: String,
    pub kind: Option<String>,
}

/// What a [`SubjectRef`] holds.
pub struct SubjectRefView {
    pub id: Seq<char>,
    pub kind: Option<Seq<char>>,
}

impl SubjectRef {
    /// The subject's identifier.
    pub fn subject_id(&self) -> (s: &str)
        ensures
            s@ == self@.id,
    {
        self.id.as_str()
    }

    /// The subject's type.
    pub fn subject_type(&self) -> (s: Option<&str>)
        ensures
            s is Some <==> self@.kind is Some,
            s matches Some(t) ==> self@.kind == Some(t@),
    {
        match &self.kind {
            Some(k) => Some(k.as_str()),
            None => None,
        }
    }
}

impl View for SubjectRef {
    type V = SubjectRefView;

    open spec fn view(&self) -> SubjectRefView {
        SubjectRefView { id: self.id@, kind: optional_text(self.kind) }
    }
}

/// The view of an optional subject.
pub open spec fn subject_view(s: Option<SubjectRef>) -> Option<SubjectRefView> {
    match s {
        Some(r) => Some(r@),
        None => None,
    }
}

/// Caller metadata under validated keys.
#[derive(Debug)]
pub struct MetadataMap {
    map: StringMap,
}

impl View for MetadataMap {
    type V = Map<Seq<char>, Seq<char>>;

    closed spec fn view(&self) -> Map<Seq<char>, Seq<char>> {
        self.map@
    }
}

impl MetadataMap {
    /// No metadata.
    pub fn new() -> (m: MetadataMap)
        ensures
            m@ == Map::<Seq<char>, Seq<char>>::empty(),
    {
        MetadataMap { map: StringMap::new() }
    }

    /// Puts a value under a key, replacing what was there.
    pub fn insert(&mut self, key: MetadataKey, value: String)
        ensures
            final(self)@ == old(self)@.insert(key@, value@),
    {
        self.map.insert(key.value, value);
    }

    /// Looks a key up.
    pub fn get(&self, key: &MetadataKey) -> (r: Option<&String>)
        ensures
            r is Some <==> self@.contains_key(key@),
            r matches Some(v) ==> v@ == self@[key@],
    {
        self.map.get(key.value.as_str())
    }

    /// How many keys there are.
    pub fn len(&self) -> (n: usize)
        ensures
            n == self@.dom().len(),
    {
        self.map.len()
    }

    /// Whether there is no key.
    pub fn is_empty(&self) -> (r: bool)
        ensures
            r == (self@ == Map::<Seq<char>, Seq<char>>::empty()),
    {
        self.map.is_empty()
    }

    /// The entries under the keys' texts.
    pub fn as_string_map(&self) -> (m: &StringMap)
        ensures
            m@ == self@,
    {
        &self.map
    }
}

impl vstd::std_specs::cmp::PartialEqSpecImpl for MetadataMap {
    open spec fn obeys_eq_spec() -> bool {
        true
    }

    open spec fn eq_spec(&self, other: &MetadataMap) -> bool {
        self@ == other@
    }
}

impl PartialEq for MetadataMap {
    fn eq(&self, other: &MetadataMap) -> (r: bool) {
        self.map.equals(&other.map)
    }
}

/// A set of metadata keys.
#[derive(Debug)]
pub struct MetadataKeySet {
    keys: Vec<MetadataKey>,
}

/// The texts of a sequence of keys.
pub open spec fn key_texts(keys: Seq<MetadataKey>) -> Seq<Seq<char>> {
    keys.map_values(|k: MetadataKey| k@)
}

impl View for MetadataKeySet {
    type V = Set<Seq<char>>;

    closed spec fn view(&self) -> Set<Seq<char>> {
        key_texts(self.keys@).to_set()
    }
}

impl MetadataKeySet {
    #[verifier::type_invariant]
    spec fn distinct(self) -> bool {
        key_texts(self.keys@).no_duplicates()
    }

    /// The empty set.
    pub fn new() -> (s: MetadataKeySet)
        ensures
            s@ == Set::<Seq<char>>::empty(),
    {
        let keys: Vec<MetadataKey> = Vec::new();
        assert(key_texts(keys@) =~= Seq::<Seq<char>>::empty());
        assert(key_texts(keys@).to_set() =~= Set::<Seq<char>>::empty());
        MetadataKeySet { keys }
    }

    /// Whether the key is in the set.
    pub fn contains(&self, key: &MetadataKey) -> (r: bool)
        ensures
            r == self@.contains(key@),
    {
        let mut i: usize = 0;
        while i < self.keys.len()
            invariant
                i <= self.keys@.len(),
                forall|j: int| 0 <= j < i ==> key_texts(self.keys@)[j] != key@,
            decreases self.keys@.len() - i,
        {
            if same_text(self.keys[i].as_str(), key.as_str()) {
                assert(key_texts(self.keys@)[i as int] == key@);
                return true;
            }
            i = i + 1;
        }
        false
    }

    /// Adds a key.
    pub fn insert(&mut self, key: MetadataKey)
        ensures
            final(self)@ == old(self)@.insert(key@),
    {
        if self.contains(&key) {
            assert(self@ =~= self@.insert(key@));
            return ;
        }
        proof {
            use_type_invariant(&*self);
        }
        let ghost before = key_texts(self.keys@);
        let ghost text = key@;
        let mut keys: Vec<MetadataKey> = Vec::new();
        std::mem::swap(&mut keys, &mut self.keys);
        keys.push(key);
        proof {
            let after = key_texts(keys@);
            assert(after =~= before.push(text));
            assert(!before.contains(text));
            assert(after.to_set() =~= before.to_set().insert(text)) by {
                assert forall|t: Seq<char>| after.contains(t) == (before.contains(t) || t == text) by {
                    if before.contains(t) {
                        let i = choose|i: int| 0 <= i < before.len() && before[i] == t;
                        assert(after[i] == t);
                    }
                    if t == text {
                        assert(after[before.len() as int] == t);
                    }
                }
            }
        }
        self.keys = keys;
    }

    /// How many keys the set has.
    pub fn len(&self) -> (n: usize)
        ensures
            n == self@.len(),
    {
        proof {
            use_type_invariant(self);
            key_texts(self.keys@).unique_seq_to_set();
        }
        self.keys.len()
    }
}

/// Whether a record counts.
#[derive(Debug, Clone, Copy, PartialEq, Eq, Structural)]
pub enum UsageRecordStatus {
    Active,
    Inactive,
}

/// How a usage type's values add up.
#[derive(Debug, Clone, Copy, PartialEq, Eq, Structural)]
pub enum UsageKind {
    Counter,
    Gauge,
}

/// A usage record.
#[derive(Debug)]
pub struct UsageRecord {
    pub id: Uuid,
    pub gts_id: UsageTypeGtsId,
    pub tenant_id: Uuid,
    pub resource_ref: ResourceRef,
    pub subject_ref: Option<SubjectRef>,
    pub metadata: MetadataMap,
    pub value: Decimal,
    pub idempotency_key: IdempotencyKey,
    pub corrects_id: Option<Uuid>,
    pub status: UsageRecordStatus,
    pub created_at: OffsetDateTime,
}

/// What a [`UsageRecord`] holds.
#[verifier::ext_equal]
pub struct UsageRecordView {
    pub id: Uuid,
    pub gts_id: Seq<char>,
    pub tenant_id: Uuid,
    pub resource_ref: ResourceRefView,
    pub subject_ref: Option<SubjectRefView>,
    pub metadata: Map<Seq<char>, Seq<char>>,
    pub value: DecimalView,
    pub idempotency_key: Seq<char>,
    pub corrects_id: Option<Uuid>,
    pub status: UsageRecordStatus,
    pub created_at: int,
}

impl View for UsageRecord {
    type V = UsageRecordView;

    open spec fn view(&self) -> UsageRecordView {
        UsageRecordView {
            id: self.id,
            gts_id: self.gts_id@,
            tenant_id: self.tenant_id,
            resource_ref: self.resource_ref@,
            subject_ref: subject_view(self.subject_ref),
            metadata: self.metadata@,
            value: self.value@,
            idempotency_key: self.idempotency_key@,
            corrects_id: self.corrects_id,
            status: self.status,
            created_at: self.created_at@,
        }
    }
}

/// A usage type of the catalog.
#[derive(Debug)]
pub struct UsageType {
    pub gts_id: UsageTypeGtsId,
    pub kind: UsageKind,
    pub metadata_fields: MetadataKeySet,
}

/// What callers are told when an operation fails.
#[derive(Debug)]
pub enum UsageCollectorPluginError {
    /// Stored data or the server's answer breaks an invariant.
    Internal(String),
    /// A failure worth retrying.
    Transient { detail: String, retry_after_seconds: Option<u64> },
    /// The usage type is not in the catalog.
    UsageTypeNotFound { gts_id: UsageTypeGtsId },
    /// The deduplication key is bound to another record.
    IdempotencyConflict { idempotency_key: String, existing_id: Uuid },
    /// No record has the identifier.
    UsageRecordNotFound { id: Uuid },
    /// The record was deactivated before.
    UsageRecordAlreadyInactive { id: Uuid },
}

/// What a [`UsageCollectorPluginError`] holds.
pub enum ErrorView {
    Internal(Seq<char>),
    Transient { detail: Seq<char>, retry_after_seconds: Option<u64> },
    UsageTypeNotFound { gts_id: Seq<char> },
    IdempotencyConflict { idempotency_key: Seq<char>, existing_id: Uuid },
    UsageRecordNotFound { id: Uuid },
    UsageRecordAlreadyInactive { id: Uuid },
}

impl View for UsageCollectorPluginError {
    type V = ErrorView;

    open spec fn view(&self) -> ErrorView {
        match *self {
            UsageCollectorPluginError::Internal(m) => ErrorView::Internal(m@),
            UsageCollectorPluginError::Transient {
                detail,
                retry_after_seconds,
            } => ErrorView::Transient { detail: detail@, retry_after_seconds },
            UsageCollectorPluginError::UsageTypeNotFound {
                gts_id,
            } => ErrorView::UsageTypeNotFound { gts_id: gts_id@ },
            UsageCollectorPluginError::IdempotencyConflict {
                idempotency_key,
                existing_id,
            } => ErrorView::IdempotencyConflict { idempotency_key: idempotency_key@, existing_id },
            UsageCollectorPluginError::UsageRecordNotFound {
                id,
            } => ErrorView::UsageRecordNotFound { id },
            UsageCollectorPluginError::UsageRecordAlreadyInactive {
                id,
            } => ErrorView::UsageRecordAlreadyInactive { id },
        }
    }
}

impl UsageCollectorPluginError {
    /// An internal error with the given message.
    pub fn internal(message: String) -> (e: UsageCollectorPluginError)
        ensures
            e@ == ErrorView::Internal(message@),
    {
        UsageCollectorPluginError::Internal(message)
    }
}

/// The view of an outcome.
pub open spec fn outcome_view(
    r: Result<UsageRecord, UsageCollectorPluginError>,
) -> Result<UsageRecordView, ErrorView> {
    match r {
        Ok(m) => Ok(m@),
        Err(e) => Err(e@),
    }
}

/// A text, or a pair of texts, that the gateway's rules accept or reject.
#[derive(Debug)]
pub enum Candidate {
    GtsId(String),
    ResourceRef { resource_id: String, resource_type: String },
    SubjectRef { subject_id: String, subject_type: Option<String> },
    IdempotencyKey(String),
    MetadataKey(String),
}

/// What a [`Candidate`] holds.
pub enum CandidateView {
    GtsId(Seq<char>),
    ResourceRef { resource_id: Seq<char>, resource_type: Seq<char> },
    SubjectRef { subject_id: Seq<char>, subject_type: Option<Seq<char>> },
    IdempotencyKey(Seq<char>),
    MetadataKey(Seq<char>),
}

impl View for Candidate {
    type V = CandidateView;

    open spec fn view(&self) -> CandidateView {
        match *self {
            Candidate::GtsId(s) => CandidateView::GtsId(s@),
            Candidate::ResourceRef { resource_id, resource_type } => CandidateView::ResourceRef {
                resource_id: resource_id@,
                resource_type: resource_type@,
            },
            Candidate::SubjectRef { subject_id, subject_type } => CandidateView::SubjectRef {
                subject_id: subject_id@,
                subject_type: optional_text(subject_type),
            },
            Candidate::IdempotencyKey(s) => CandidateView::IdempotencyKey(s@),
            Candidate::MetadataKey(s) => CandidateView::MetadataKey(s@),
        }
    }
}

/// The validator may be asked about anything.
pub open spec fn answers_all<V: Fn(Candidate) -> Result<(), String>>(validate: V) -> bool {
    forall|c: Candidate| call_requires(validate, (c,))
}

/// The validator accepts the candidate.
pub open spec fn accepts<V: Fn(Candidate) -> Result<(), String>>(
    validate: V,
    candidate: CandidateView,
) -> bool {
    exists|c: Candidate, r: Result<(), String>|
        c@ == candidate && r is Ok && #[trigger] call_ensures(validate, (c,), r)
}

/// The validator rejects the candidate and says why.
pub open spec fn rejects<V: Fn(Candidate) -> Result<(), String>>(
    validate: V,
    candidate: CandidateView,
    why: Seq<char>,
) -> bool {
    exists|c: Candidate, r: Result<(), String>|
        c@ == candidate && (r matches Err(e) && e@ == why) && #[trigger] call_ensures(
            validate,
            (c,),
            r,
        )
}

/// Asks the validator.
pub fn judge<V: Fn(Candidate) -> Result<(), String>>(
    validate: &V,
    candidate: Candidate,
) -> (r: Result<(), String>)
    requires
        answers_all(*validate),
    ensures
        r is Ok ==> accepts(*validate, candidate@),
        r matches Err(e) ==> rejects(*validate, candidate@, e@),
{
    let ghost c = candidate;
    let r = validate(candidate);
    assert(call_ensures(*validate, (c,), r));
    r
}

/// An outcome is seen as the record or the error that it holds.
pub proof fn law_outcome_is_seen_as_it_is(r: Result<UsageRecord, UsageCollectorPluginError>)
    ensures
        r is Ok <==> outcome_view(r) is Ok,
        r matches Ok(m) ==> outcome_view(r) == Ok::<UsageRecordView, ErrorView>(m@),
        r matches Err(e) ==> outcome_view(r) == Err::<UsageRecordView, ErrorView>(e@),
{
}

} // verus!
