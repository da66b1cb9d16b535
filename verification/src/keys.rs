//! What a score depends on: the request and the keys under which it is cached.

use vstd::prelude::*;

use crate::text::{copy_terms, prefixed, same_terms};

verus! {

/// The mode of a plain score.
pub const SCORE: i32 = 0;

/// The mode of a score over all terms.
pub const FULL_SCORE: i32 = 1;

/// The mode of the greatest plain score.
pub const MAX_SCORE: i32 = 2;

/// The mode of the greatest score over all terms.
pub const MAX_FULL_SCORE: i32 = 3;

/// Why a score cannot be computed.
#[derive(PartialEq, Eq, Debug)]
pub enum ScoreError {
    /// The lists of documents, queries and indexes differ in length.
    MismatchedInputs,
    /// A query cannot be read.
    Query(String),
    /// A query cannot be evaluated.
    Evaluation(String),
    /// The rows of the table cannot be read.
    Scan(String),
}

impl ScoreError {
    /// The text that is reported.
    pub open spec fn text(self) -> Seq<char> {
        match self {
            ScoreError::MismatchedInputs => "mismatched cross-column scoring inputs"@,
            ScoreError::Query(error) => "TIN score query error: "@ + error@,
            ScoreError::Evaluation(error) => "TIN score query evaluation failed: "@ + error@,
            ScoreError::Scan(error) => "tin score corpus scan failed: "@ + error@,
        }
    }

    /// Writes the text that is reported.
    pub fn message(&self) -> (message: String)
        ensures
            message@ == self.text(),
    {
        match self {
            ScoreError::MismatchedInputs => "mismatched cross-column scoring inputs".to_owned(),
            ScoreError::Query(error) => prefixed("TIN score query error: ", error.as_str()),
            ScoreError::Evaluation(error) => prefixed(
                "TIN score query evaluation failed: ",
                error.as_str(),
            ),
            ScoreError::Scan(error) => prefixed("tin score corpus scan failed: ", error.as_str()),
        }
    }
}

/// The arguments of a score over several columns. Numbers that are not integers
/// are given by the bits of a single.
#[derive(Debug)]
pub struct ScoreRequest {
    pub documents: Vec<Option<String>>,
    pub queries: Vec<Option<String>>,
    pub heap_oid: i32,
    pub indexes: Vec<i32>,
    pub mode: i32,
    pub condition: Vec<i32>,
    pub dense_ratio: Option<u32>,
    pub k1: Option<u32>,
    pub b: Option<u32>,
    pub term_add: Option<Vec<String>>,
    pub term_replace: Option<Vec<String>>,
}

/// The state of the session that a score depends on.
#[derive(Clone, Copy, Debug)]
pub struct Session {
    pub transaction: u32,
    pub command: u32,
    /// The dense ratio where none is given, by its bits.
    pub default_dense_ratio: u32,
}

/// All that the score of one column depends on.
#[derive(PartialEq, Eq, Debug)]
pub struct CacheKey {
    pub transaction: u32,
    pub command: u32,
    pub heap_oid: u32,
    pub index_oid: u32,
    pub query: String,
    pub full: bool,
    pub dense: u32,
    pub k1: Option<u32>,
    pub b: Option<u32>,
    pub add: Option<Vec<String>>,
    pub replace: Option<Vec<String>>,
}

/// What a cache key holds.
pub struct CacheKeyView {
    pub transaction: u32,
    pub command: u32,
    pub heap_oid: u32,
    pub index_oid: u32,
    pub query: Seq<char>,
    pub full: bool,
    pub dense: u32,
    pub k1: Option<u32>,
    pub b: Option<u32>,
    pub add: Option<Seq<Seq<char>>>,
    pub replace: Option<Seq<Seq<char>>>,
}

impl View for CacheKey {
    type V = CacheKeyView;

    open spec fn view(&self) -> CacheKeyView {
        CacheKeyView {
            transaction: self.transaction,
            command: self.command,
            heap_oid: self.heap_oid,
            index_oid: self.index_oid,
            query: self.query@,
            full: self.full,
            dense: self.dense,
            k1: self.k1,
            b: self.b,
            add: self.add.deep_view(),
            replace: self.replace.deep_view(),
        }
    }
}

/// A scored column: its index, and the key of its score where it has a query.
#[derive(PartialEq, Eq, Debug)]
pub struct Slot {
    pub index: u32,
    pub key: Option<CacheKey>,
}

/// What a slot holds.
pub struct SlotView {
    pub index: u32,
    pub key: Option<CacheKeyView>,
}

impl View for Slot {
    type V = SlotView;

    open spec fn view(&self) -> SlotView {
        SlotView {
            index: self.index,
            key: match self.key {
                Some(key) => Some(key@),
                None => None,
            },
        }
    }
}

/// What the slots hold.
pub open spec fn slot_views(slots: Seq<Slot>) -> Seq<SlotView> {
    slots.map_values(|slot: Slot| slot@)
}

/// The mode scores over all terms.
pub open spec fn is_full_mode(mode: i32) -> bool {
    mode == FULL_SCORE || mode == MAX_FULL_SCORE
}

/// The mode asks for the greatest score.
pub open spec fn is_max_mode(mode: i32) -> bool {
    mode == MAX_SCORE || mode == MAX_FULL_SCORE
}

impl ScoreRequest {
    /// There is a document and a query for each index.
    pub open spec fn matched(self) -> bool {
        self.documents@.len() == self.indexes@.len() && self.queries@.len() == self.indexes@.len()
    }

    /// The dense ratio that counts.
    pub open spec fn dense(self, session: Session) -> u32 {
        match self.dense_ratio {
            Some(bits) => bits,
            None => session.default_dense_ratio,
        }
    }

    /// The slot of one column.
    pub open spec fn slot(self, session: Session, at: int) -> SlotView {
        let index = self.indexes@[at] as u32;
        SlotView {
            index,
            key: match self.queries@[at] {
                Some(query) => Some(
                    CacheKeyView {
                        transaction: session.transaction,
                        command: session.command,
                        heap_oid: self.heap_oid as u32,
                        index_oid: index,
                        query: query@,
                        full: is_full_mode(self.mode),
                        dense: self.dense(session),
                        k1: self.k1,
                        b: self.b,
                        add: self.term_add.deep_view(),
                        replace: self.term_replace.deep_view(),
                    },
                ),
                None => None,
            },
        }
    }

    /// The slots of all columns.
    pub open spec fn slots(self, session: Session) -> Seq<SlotView> {
        Seq::new(self.indexes@.len(), |at: int| self.slot(session, at))
    }
}

/// Works out the slots of a request, unless its lists differ in length.
pub fn request_slots(request: &ScoreRequest, session: &Session) -> (slots: Result<
    Vec<Slot>,
    ScoreError,
>)
    ensures
        match slots {
            Ok(list) => request.matched() && slot_views(list@) == request.slots(*session),
            Err(error) => !request.matched() && error is MismatchedInputs,
        },
{
    if request.documents.len() != request.indexes.len() || request.queries.len()
        != request.indexes.len() {
        return Err(ScoreError::MismatchedInputs);
    }
    let mut slots: Vec<Slot> = Vec::new();
    let mut at: usize = 0;
    while at < request.indexes.len()
        invariant
            at <= request.indexes@.len(),
            request.matched(),
            slots@.len() == at,
            forall|i: int| 0 <= i < at ==> (#[trigger] slots@[i])@ == request.slot(*session, i),
        decreases request.indexes@.len() - at,
    {
        let index: u32 = request.indexes[at] as u32;
        let key = match &request.queries[at] {
            Some(query) => Some(
                CacheKey {
                    transaction: session.transaction,
                    command: session.command,
                    heap_oid: request.heap_oid as u32,
                    index_oid: index,
                    query: query.clone(),
                    full: request.mode == FULL_SCORE || request.mode == MAX_FULL_SCORE,
                    dense: match request.dense_ratio {
                        Some(bits) => bits,
                        None => session.default_dense_ratio,
                    },
                    k1: request.k1,
                    b: request.b,
                    add: copy_terms(&request.term_add),
                    replace: copy_terms(&request.term_replace),
                },
            ),
            None => None,
        };
        slots.push(Slot { index, key });
        at = at + 1;
    }
    assert(slot_views(slots@) =~= request.slots(*session));
    Ok(slots)
}

/// Copies a cache key.
pub fn copy_key(key: &CacheKey) -> (copy: CacheKey)
    ensures
        copy@ == key@,
{
    CacheKey {
        transaction: key.transaction,
        command: key.command,
        heap_oid: key.heap_oid,
        index_oid: key.index_oid,
        query: key.query.clone(),
        full: key.full,
        dense: key.dense,
        k1: key.k1,
        b: key.b,
        add: copy_terms(&key.add),
        replace: copy_terms(&key.replace),
    }
}

fn same_number(a: &Option<u32>, b: &Option<u32>) -> (same: bool)
    ensures
        same == (*a == *b),
{
    match (a, b) {
        (Some(x), Some(y)) => *x == *y,
        (None, None) => true,
        _ => false,
    }
}

/// Compares two cache keys.
pub fn same_key(a: &CacheKey, b: &CacheKey) -> (same: bool)
    ensures
        same == (a@ == b@),
{
    a.transaction == b.transaction && a.command == b.command && a.heap_oid == b.heap_oid
        && a.index_oid == b.index_oid && a.query.eq(&b.query) && a.full == b.full && a.dense
        == b.dense && same_number(&a.k1, &b.k1) && same_number(&a.b, &b.b) && same_terms(
        &a.add,
        &b.add,
    ) && same_terms(&a.replace, &b.replace)
}

/// Compares two lists of slots.
pub fn same_slots(a: &Vec<Slot>, b: &Vec<Slot>) -> (same: bool)
    ensures
        same == (slot_views(a@) == slot_views(b@)),
{
    if a.len() != b.len() {
        assert(slot_views(a@).len() != slot_views(b@).len());
        return false;
    }
    let mut at: usize = 0;
    while at < a.len()
        invariant
            at <= a@.len(),
            a@.len() == b@.len(),
            forall|i: int| 0 <= i < at ==> (#[trigger] a@[i])@ == b@[i]@,
        decreases a@.len() - at,
    {
        let same = a[at].index == b[at].index && match (&a[at].key, &b[at].key) {
            (Some(x), Some(y)) => same_key(x, y),
            (None, None) => true,
            _ => false,
        };
        if !same {
            assert(slot_views(a@)[at as int] != slot_views(b@)[at as int]);
            return false;
        }
        at = at + 1;
    }
    assert(slot_views(a@) =~= slot_views(b@));
    true
}

/// An object number survives the way through a signed integer.
pub proof fn law_oid_round_trip(oid: u32)
    ensures
        (oid as i32) as u32 == oid,
{
    assert((oid as i32) as u32 == oid) by (bit_vector);
}

/// Keys are the same exactly when all that they hold is the same: nothing that a
/// score depends on is passed over when keys are compared.
pub proof fn law_keys_tell_all(a: CacheKey, b: CacheKey)
    ensures
        a@ == b@ <==> {
            &&& a.transaction == b.transaction
            &&& a.command == b.command
            &&& a.heap_oid == b.heap_oid
            &&& a.index_oid == b.index_oid
            &&& a.query@ == b.query@
            &&& a.full == b.full
            &&& a.dense == b.dense
            &&& a.k1 == b.k1
            &&& a.b == b.b
            &&& a.add.deep_view() == b.add.deep_view()
            &&& a.replace.deep_view() == b.replace.deep_view()
        },
{
}

/// Lists of slots are the same exactly when they have as many slots, and each has
/// the same index and the same key, or none on both sides.
pub proof fn law_slots_tell_all(a: Seq<Slot>, b: Seq<Slot>)
    ensures
        slot_views(a) == slot_views(b) <==> {
            &&& a.len() == b.len()
            &&& forall|i: int|
                0 <= i < a.len() ==> {
                    &&& (#[trigger] a[i]).index == b[i].index
                    &&& a[i].key is Some == b[i].key is Some
                    &&& a[i].key is Some ==> a[i].key->0@ == b[i].key->0@
                }
        },
{
    let x = slot_views(a);
    let y = slot_views(b);
    assert(x.len() == a.len() && y.len() == b.len());
    if x == y {
        assert forall|i: int| 0 <= i < a.len() implies {
            &&& (#[trigger] a[i]).index == b[i].index
            &&& a[i].key is Some == b[i].key is Some
            &&& a[i].key is Some ==> a[i].key->0@ == b[i].key->0@
        } by {
            assert(x[i] == a[i]@ && y[i] == b[i]@);
        }
    }
    if a.len() == b.len() && forall|i: int|
        0 <= i < a.len() ==> {
            &&& (#[trigger] a[i]).index == b[i].index
            &&& a[i].key is Some == b[i].key is Some
            &&& a[i].key is Some ==> a[i].key->0@ == b[i].key->0@
        } {
        assert forall|i: int| 0 <= i < x.len() implies x[i] == y[i] by {
            assert(a[i].index == b[i].index);
        }
        assert(x =~= y);
    }
}

/// There is one slot for each index of a request. Each column with a query has a
/// key, and the key carries all that the request and the session say of its score:
/// the parameters and the added and replaced terms come through as they were given.
pub proof fn law_slots_carry_the_request(
    request: ScoreRequest,
    session: Session,
    slots: Seq<Slot>,
    i: int,
)
    requires
        slot_views(slots) == request.slots(session),
        0 <= i < request.indexes@.len(),
    ensures
        slots.len() == request.indexes@.len(),
        slots[i].index == request.indexes@[i] as u32,
        slots[i].key is Some <==> request.queries@[i] is Some,
        slots[i].key matches Some(key) ==> {
            &&& key.transaction == session.transaction
            &&& key.command == session.command
            &&& key.heap_oid == request.heap_oid as u32
            &&& key.index_oid == request.indexes@[i] as u32
            &&& key.query@ == request.queries@[i]->0@
            &&& key.full <==> request.mode == 1 || request.mode == 3
            &&& request.dense_ratio is Some ==> key.dense == request.dense_ratio->0
            &&& request.dense_ratio is None ==> key.dense == session.default_dense_ratio
            &&& key.k1 == request.k1
            &&& key.b == request.b
            &&& key.add.deep_view() == request.term_add.deep_view()
            &&& key.replace.deep_view() == request.term_replace.deep_view()
        },
{
    assert(slot_views(slots).len() == slots.len());
    assert(slot_views(slots)[i] == slots[i]@);
    assert(request.slots(session)[i] == request.slot(session, i));
    if let Some(key) = slots[i].key {
        assert(slots[i]@.key == Some(key@));
    }
}

/// Requests with a query never share their slots unless they ask for the same
/// score: the same table, indexes, queries, policy, parameters and terms, in the
/// same transaction and command.
pub proof fn law_other_requests_have_other_slots(
    a: ScoreRequest,
    session: Session,
    b: ScoreRequest,
    other_session: Session,
    i: int,
)
    requires
        a.slots(session) == b.slots(other_session),
        0 <= i < a.indexes@.len(),
        a.queries@[i] is Some,
    ensures
        a.indexes@.len() == b.indexes@.len(),
        a.indexes@[i] as u32 == b.indexes@[i] as u32,
        b.queries@[i] is Some,
        a.queries@[i]->0@ == b.queries@[i]->0@,
        session.transaction == other_session.transaction,
        session.command == other_session.command,
        a.heap_oid as u32 == b.heap_oid as u32,
        (a.mode == 1 || a.mode == 3) == (b.mode == 1 || b.mode == 3),
        a.dense_ratio is Some && b.dense_ratio is Some ==> a.dense_ratio == b.dense_ratio,
        a.dense_ratio is None && b.dense_ratio is Some ==> b.dense_ratio
            == Some(session.default_dense_ratio),
        a.k1 == b.k1,
        a.b == b.b,
        a.term_add.deep_view() == b.term_add.deep_view(),
        a.term_replace.deep_view() == b.term_replace.deep_view(),
{
    let x = a.slots(session);
    let y = b.slots(other_session);
    assert(x.len() == a.indexes@.len() && y.len() == b.indexes@.len());
    assert(x[i] == a.slot(session, i));
    assert(y[i] == b.slot(other_session, i));
}

/// A request is matched exactly when there is a document and a query per index.
pub proof fn law_matched_requests_are_even(request: ScoreRequest)
    ensures
        request.matched() <==> request.documents@.len() == request.indexes@.len()
            && request.queries@.len() == request.indexes@.len(),
{
}

/// The modes by their numbers: 1 and 3 go over all terms, 2 and 3 ask for the
/// greatest score.
pub proof fn law_modes_are_told_apart(mode: i32)
    ensures
        is_full_mode(mode) <==> mode == 1 || mode == 3,
        is_max_mode(mode) <==> mode == 2 || mode == 3,
        SCORE == 0 && FULL_SCORE == 1 && MAX_SCORE == 2 && MAX_FULL_SCORE == 3,
{
}

/// Each error is reported under its own heading, with the message that it brings.
pub proof fn law_score_errors_are_told_apart(message: String)
    ensures
        ScoreError::MismatchedInputs.text() == "mismatched cross-column scoring inputs"@,
        ScoreError::Query(message).text() == "TIN score query error: "@ + message@,
        ScoreError::Evaluation(message).text() == "TIN score query evaluation failed: "@
            + message@,
        ScoreError::Scan(message).text() == "tin score corpus scan failed: "@ + message@,
{
}

} // verus!
