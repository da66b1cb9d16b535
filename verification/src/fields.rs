//! Which search predicates of a query are scored together, and in which order.

use vstd::prelude::*;
use vstd::relations::{sorted_by, total_ordering};
use vstd::seq_lib::lemma_sorted_unique;

use crate::quals::{Field, NodeId};

verus! {

/// A search predicate of the query, before it is known whether it is scored.
#[derive(Debug)]
pub struct Candidate {
    pub document: NodeId,
    pub query: NodeId,
    /// The query expression as the server writes it out.
    pub query_text: Vec<u8>,
    /// The index that answers the predicate, where there is one.
    pub index: Option<u32>,
}

/// A field and the written form of its query, which orders fields of one index.
#[derive(Debug)]
pub struct Keyed {
    pub field: Field,
    pub query_text: Vec<u8>,
}

/// A field and the text of its query.
pub struct Ranked {
    pub field: Field,
    pub text: Seq<u8>,
}

impl View for Keyed {
    type V = Ranked;

    open spec fn view(&self) -> Ranked {
        Ranked { field: self.field, text: self.query_text@ }
    }
}

impl Candidate {
    /// The field that this predicate becomes, where an index answers it.
    pub open spec fn ranked(self) -> Option<Ranked> {
        match self.index {
            Some(index) => Some(
                Ranked {
                    field: Field { document: self.document, query: self.query, index },
                    text: self.query_text@,
                },
            ),
            None => None,
        }
    }
}

/// The fields of those predicates that an index answers, in order.
pub open spec fn indexed(matches: Seq<Candidate>) -> Seq<Ranked> {
    matches.filter_map(|found: Candidate| found.ranked())
}

/// `a` comes before `b` in a dictionary, or is the same.
pub open spec fn bytes_le(a: Seq<u8>, b: Seq<u8>) -> bool
    decreases a.len(),
{
    a.len() == 0 || b.len() > 0 && (a[0] < b[0] || a[0] == b[0] && bytes_le(a.skip(1), b.skip(1)))
}

/// Fields are ordered by index, then by the text of the query.
pub open spec fn ranked_le(a: Ranked, b: Ranked) -> bool {
    a.field.index < b.field.index || a.field.index == b.field.index && bytes_le(a.text, b.text)
}

/// Puts an item behind all items of a sorted list that do not come after it.
pub open spec fn insert_ranked(sorted: Seq<Ranked>, item: Ranked) -> Seq<Ranked>
    decreases sorted.len(),
{
    if sorted.len() == 0 || ranked_le(sorted.last(), item) {
        sorted.push(item)
    } else {
        insert_ranked(sorted.drop_last(), item).push(sorted.last())
    }
}

/// The items in ascending order; equal items keep the order they had.
pub open spec fn sort_ranked(items: Seq<Ranked>) -> Seq<Ranked>
    decreases items.len(),
{
    if items.len() == 0 {
        Seq::empty()
    } else {
        insert_ranked(sort_ranked(items.drop_last()), items.last())
    }
}

/// Two fields ask the same query of the same index.
pub open spec fn same_search(a: Field, b: Field) -> bool {
    a.index == b.index && a.query == b.query
}

/// The fields without those that ask what the field kept before them asks.
pub open spec fn without_repeats(fields: Seq<Field>) -> Seq<Field>
    decreases fields.len(),
{
    if fields.len() == 0 {
        Seq::empty()
    } else {
        let kept = without_repeats(fields.drop_last());
        if kept.len() > 0 && same_search(kept.last(), fields.last()) {
            kept
        } else {
            kept.push(fields.last())
        }
    }
}

/// All fields belong to one index, or there are none.
pub open spec fn one_index(items: Seq<Ranked>) -> bool {
    forall|i: int| 0 <= i < items.len() ==> (#[trigger] items[i]).field.index == items[0].field.index
}

/// The fields of a list of ranked ones.
pub open spec fn fields_of(items: Seq<Ranked>) -> Seq<Field> {
    items.map_values(|item: Ranked| item.field)
}

/// The fields that are scored together: ordered and without repeats. There are
/// none unless at least two predicates are answered, by more than one index.
pub open spec fn bound_fields(matches: Seq<Candidate>) -> Option<Seq<Field>> {
    let found = indexed(matches);
    if found.len() < 2 || one_index(found) {
        None
    } else {
        Some(without_repeats(fields_of(sort_ranked(found))))
    }
}

/// Compares two byte strings as a dictionary does.
fn bytes_at_most(a: &Vec<u8>, b: &Vec<u8>) -> (le: bool)
    ensures
        le == bytes_le(a@, b@),
{
    let mut at: usize = 0;
    proof {
        assert(a@.skip(0) =~= a@);
        assert(b@.skip(0) =~= b@);
    }
    while at < a.len() && at < b.len()
        invariant
            at <= a@.len(),
            at <= b@.len(),
            bytes_le(a@, b@) == bytes_le(a@.skip(at as int), b@.skip(at as int)),
        decreases a@.len() - at,
    {
        proof {
            assert(a@.skip(at as int).skip(1) =~= a@.skip(at + 1));
            assert(b@.skip(at as int).skip(1) =~= b@.skip(at + 1));
        }
        if a[at] != b[at] {
            return a[at] < b[at];
        }
        at = at + 1;
    }
    at == a.len()
}

/// Compares two fields by index, then by query text.
fn at_most(a: &Keyed, b: &Keyed) -> (le: bool)
    ensures
        le == ranked_le(a@, b@),
{
    a.field.index < b.field.index || (a.field.index == b.field.index && bytes_at_most(
        &a.query_text,
        &b.query_text,
    ))
}

/// The views of a list of fields.
pub open spec fn views(items: Seq<Keyed>) -> Seq<Ranked> {
    items.map_values(|item: Keyed| item@)
}

/// Puts a field where it belongs in a sorted list.
fn insert_sorted(sorted: &mut Vec<Keyed>, item: Keyed)
    ensures
        views(final(sorted)@) == insert_ranked(views(old(sorted)@), item@),
        final(sorted)@.len() == old(sorted)@.len() + 1,
{
    let mut at: usize = sorted.len();
    while at > 0 && !at_most(&sorted[at - 1], &item)
        invariant
            at <= sorted@.len(),
            *sorted == *old(sorted),
            forall|j: int|
                at <= j < sorted@.len() ==> !ranked_le(#[trigger] views(sorted@)[j], item@),
        decreases at,
    {
        proof {
            assert(views(sorted@)[at - 1] == sorted@[at - 1]@);
        }
        at = at - 1;
    }
    proof {
        if at > 0 {
            assert(views(sorted@)[at - 1] == sorted@[at - 1]@);
        }
        lemma_insert_position(views(sorted@), item@, at as int);
        assert(views(sorted@.insert(at as int, item)) =~= views(sorted@).insert(at as int, item@));
    }
    sorted.insert(at, item);
}

/// Inserting is inserting behind the last item that does not come after.
proof fn lemma_insert_position(sorted: Seq<Ranked>, item: Ranked, at: int)
    requires
        0 <= at <= sorted.len(),
        at > 0 ==> ranked_le(sorted[at - 1], item),
        forall|j: int| at <= j < sorted.len() ==> !ranked_le(#[trigger] sorted[j], item),
    ensures
        insert_ranked(sorted, item) == sorted.insert(at, item),
    decreases sorted.len(),
{
    if at < sorted.len() {
        let front = sorted.drop_last();
        assert forall|j: int| at <= j < front.len() implies !ranked_le(#[trigger] front[j], item) by {
            assert(front[j] == sorted[j]);
        }
        assert(!ranked_le(sorted[sorted.len() - 1], item));
        lemma_insert_position(front, item, at);
        assert(front.insert(at, item).push(sorted.last()) =~= sorted.insert(at, item));
    } else {
        assert(sorted.insert(at, item) =~= sorted.push(item));
    }
}

/// Chooses and orders the fields that are scored together.
pub fn bind_fields(matches: &[Candidate]) -> (fields: Option<Vec<Field>>)
    ensures
        match fields {
            Some(list) => bound_fields(matches@) == Some(list@),
            None => bound_fields(matches@) is None,
        },
{
    let mut sorted: Vec<Keyed> = Vec::new();
    let mut several = false;
    let mut first: Option<u32> = None;
    let ghost pick = |found: Candidate| found.ranked();
    let mut at: usize = 0;
    proof {
        assert(matches@.take(0).filter_map(pick) =~= Seq::<Ranked>::empty()) by {
            reveal_with_fuel(Seq::filter_map, 1);
        }
        assert(views(sorted@) =~= Seq::<Ranked>::empty());
    }
    while at < matches.len()
        invariant
            at <= matches@.len(),
            pick == (|found: Candidate| found.ranked()),
            views(sorted@) == sort_ranked(matches@.take(at as int).filter_map(pick)),
            sorted@.len() == matches@.take(at as int).filter_map(pick).len(),
            several == !one_index(matches@.take(at as int).filter_map(pick)),
            match first {
                Some(index) => matches@.take(at as int).filter_map(pick).len() > 0
                    && matches@.take(at as int).filter_map(pick)[0].field.index == index,
                None => matches@.take(at as int).filter_map(pick).len() == 0,
            },
        decreases matches@.len() - at,
    {
        let ghost seen = matches@.take(at as int).filter_map(pick);
        proof {
            matches@.lemma_filter_map_take_succ(pick, at as int);
        }
        let found = &matches[at];
        if let Some(index) = found.index {
            let field = Field { document: found.document, query: found.query, index };
            let item = Keyed { field, query_text: found.query_text.clone() };
            proof {
                assert(item.query_text@ =~= found.query_text@);
                assert(found.ranked() == Some(item@));
                assert(matches@.take(at + 1).filter_map(pick) =~= seen.push(item@));
                assert(seen.push(item@).drop_last() =~= seen);
                lemma_one_index_push(seen, item@);
            }
            match first {
                Some(known) => {
                    if known != index {
                        several = true;
                    }
                },
                None => {
                    first = Some(index);
                },
            }
            insert_sorted(&mut sorted, item);
        } else {
            proof {
                assert(matches@.take(at + 1).filter_map(pick) =~= seen);
            }
        }
        at = at + 1;
    }
    proof {
        assert(matches@.take(at as int) =~= matches@);
        assert(indexed(matches@) == matches@.filter_map(pick));
    }
    if sorted.len() < 2 || !several {
        return None;
    }
    Some(drop_repeats(&sorted))
}

/// One more item keeps a single index exactly when it belongs to it.
proof fn lemma_one_index_push(items: Seq<Ranked>, item: Ranked)
    ensures
        one_index(items.push(item)) <==> one_index(items) && (items.len() == 0
            || item.field.index == items[0].field.index),
{
    let more = items.push(item);
    if one_index(more) {
        assert forall|i: int| 0 <= i < items.len() implies (#[trigger] items[i]).field.index
            == items[0].field.index by {
            assert(more[i] == items[i]);
            assert(more[0] == items[0]);
        }
        assert(more[items.len() as int] == item);
    }
}

/// Leaves out the fields that ask what the field kept before them asks.
fn drop_repeats(sorted: &Vec<Keyed>) -> (kept: Vec<Field>)
    ensures
        kept@ == without_repeats(fields_of(views(sorted@))),
{
    let ghost all = fields_of(views(sorted@));
    let mut kept: Vec<Field> = Vec::new();
    let mut at: usize = 0;
    while at < sorted.len()
        invariant
            at <= sorted@.len(),
            all == fields_of(views(sorted@)),
            kept@ == without_repeats(all.take(at as int)),
        decreases sorted@.len() - at,
    {
        let field = sorted[at].field;
        proof {
            assert(all.take(at + 1).drop_last() =~= all.take(at as int));
            assert(all.take(at + 1).last() == field);
        }
        let repeats = kept.len() > 0 && kept[kept.len() - 1].index == field.index && kept[kept.len()
            - 1].query == field.query;
        if !repeats {
            kept.push(field);
        }
        at = at + 1;
    }
    proof {
        assert(all.take(at as int) =~= all);
    }
    kept
}

/// The dictionary order of byte strings is a total order.
proof fn lemma_bytes_le_total(a: Seq<u8>, b: Seq<u8>)
    ensures
        bytes_le(a, a),
        bytes_le(a, b) || bytes_le(b, a),
        bytes_le(a, b) && bytes_le(b, a) ==> a == b,
    decreases a.len(),
{
    if a.len() > 0 {
        lemma_bytes_le_total(a.skip(1), b.skip(1));
        if b.len() > 0 && a[0] == b[0] && a.skip(1) == b.skip(1) {
            assert forall|i: int| 0 <= i < a.len() implies a[i] == b[i] by {
                if i > 0 {
                    assert(a[i] == a.skip(1)[i - 1]);
                    assert(b[i] == b.skip(1)[i - 1]);
                }
            }
            assert(a.len() == a.skip(1).len() + 1);
            assert(b.len() == b.skip(1).len() + 1);
            assert(a =~= b);
        }
    } else if b.len() == 0 {
        assert(a =~= b);
    }
}

/// The dictionary order of byte strings is transitive.
proof fn lemma_bytes_le_transitive(a: Seq<u8>, b: Seq<u8>, c: Seq<u8>)
    requires
        bytes_le(a, b),
        bytes_le(b, c),
    ensures
        bytes_le(a, c),
    decreases a.len(),
{
    if a.len() > 0 && a[0] == b[0] && b[0] == c[0] {
        lemma_bytes_le_transitive(a.skip(1), b.skip(1), c.skip(1));
    }
}

/// The order of fields, as a relation.
pub open spec fn field_order() -> spec_fn(Ranked, Ranked) -> bool {
    |a: Ranked, b: Ranked| ranked_le(a, b)
}

/// Inserting into a sorted list keeps it sorted and adds just the one item.
proof fn lemma_insert_keeps_order(sorted: Seq<Ranked>, item: Ranked)
    requires
        sorted_by(sorted, field_order()),
    ensures
        sorted_by(insert_ranked(sorted, item), field_order()),
        insert_ranked(sorted, item).to_multiset() == sorted.to_multiset().insert(item),
        insert_ranked(sorted, item).len() == sorted.len() + 1,
        forall|i: int|
            0 <= i < insert_ranked(sorted, item).len() ==> {
                let x = #[trigger] insert_ranked(sorted, item)[i];
                x == item || sorted.contains(x)
            },
    decreases sorted.len(),
{
    broadcast use vstd::seq_lib::group_to_multiset_ensures;

    let order = field_order();
    let result = insert_ranked(sorted, item);
    if sorted.len() == 0 {
    } else if ranked_le(sorted.last(), item) {
        assert forall|i: int, j: int| 0 <= i < j < result.len() implies #[trigger] order(
            result[i],
            result[j],
        ) by {
            if j == sorted.len() {
                let last = sorted.len() - 1;
                if i < last {
                    assert(order(sorted[i], sorted[last]));
                    if sorted[i].field.index == sorted[last].field.index && sorted[last].field.index
                        == item.field.index {
                        lemma_bytes_le_transitive(sorted[i].text, sorted[last].text, item.text);
                    }
                }
            } else {
                assert(order(sorted[i], sorted[j]));
            }
        }
        assert forall|i: int| 0 <= i < result.len() implies {
            let x = #[trigger] result[i];
            x == item || sorted.contains(x)
        } by {
            if i < sorted.len() {
                assert(sorted[i] == result[i]);
            }
        }
    } else {
        let front = sorted.drop_last();
        let back = sorted.last();
        assert forall|i: int, j: int| 0 <= i < j < front.len() implies #[trigger] order(
            front[i],
            front[j],
        ) by {
            assert(order(sorted[i], sorted[j]));
        }
        lemma_insert_keeps_order(front, item);
        let inner = insert_ranked(front, item);
        lemma_bytes_le_total(item.text, back.text);
        assert forall|i: int, j: int| 0 <= i < j < result.len() implies #[trigger] order(
            result[i],
            result[j],
        ) by {
            if j == inner.len() {
                let x = inner[i];
                assert(result[i] == x);
                if x != item {
                    let k = front.index_of(x);
                    assert(front.contains(x));
                    assert(sorted[k] == x);
                    assert(order(sorted[k], sorted[sorted.len() - 1]));
                }
            } else {
                assert(order(inner[i], inner[j]));
            }
        }
        assert forall|i: int| 0 <= i < result.len() implies {
            let x = #[trigger] result[i];
            x == item || sorted.contains(x)
        } by {
            if i < inner.len() {
                let x = inner[i];
                if x != item {
                    let k = front.index_of(x);
                    assert(front.contains(x));
                    assert(sorted[k] == x);
                }
            } else {
                assert(sorted[sorted.len() - 1] == result[i]);
            }
        }
        assert(sorted =~= front.push(back));
        assert(front.to_multiset().insert(item).insert(back) =~= front.to_multiset().insert(
            back,
        ).insert(item));
    }
}

/// The fields come out ascending, and they are the fields that went in.
pub proof fn law_fields_are_ordered(items: Seq<Ranked>)
    ensures
        sorted_by(sort_ranked(items), field_order()),
        sort_ranked(items).to_multiset() == items.to_multiset(),
    decreases items.len(),
{
    broadcast use vstd::seq_lib::group_to_multiset_ensures;

    if items.len() > 0 {
        law_fields_are_ordered(items.drop_last());
        lemma_insert_keeps_order(sort_ranked(items.drop_last()), items.last());
        assert(items =~= items.drop_last().push(items.last()));
    } else {
        assert(items =~= Seq::<Ranked>::empty());
    }
}

/// The field has this index and this query text.
pub open spec fn has_key(index: u32, text: Seq<u8>) -> spec_fn(Ranked) -> bool {
    |item: Ranked| item.field.index == index && item.text == text
}

/// Fields that the order does not tell apart keep the order in which the query
/// names them.
pub proof fn law_ties_keep_query_order(items: Seq<Ranked>, index: u32, text: Seq<u8>)
    ensures
        sort_ranked(items).filter(has_key(index, text)) == items.filter(has_key(index, text)),
    decreases items.len(),
{
    reveal(Seq::filter);
    if items.len() > 0 {
        law_ties_keep_query_order(items.drop_last(), index, text);
        lemma_insert_keeps_ties(sort_ranked(items.drop_last()), items.last(), index, text);
    }
}

/// Inserting puts an item behind the items with its key and moves no other.
proof fn lemma_insert_keeps_ties(sorted: Seq<Ranked>, item: Ranked, index: u32, text: Seq<u8>)
    ensures
        insert_ranked(sorted, item).filter(has_key(index, text)) == if has_key(index, text)(item) {
            sorted.filter(has_key(index, text)).push(item)
        } else {
            sorted.filter(has_key(index, text))
        },
    decreases sorted.len(),
{
    reveal(Seq::filter);
    let key = has_key(index, text);
    let result = insert_ranked(sorted, item);
    if sorted.len() == 0 || ranked_le(sorted.last(), item) {
        assert(result.drop_last() =~= sorted);
    } else {
        let inner = insert_ranked(sorted.drop_last(), item);
        lemma_insert_keeps_ties(sorted.drop_last(), item, index, text);
        assert(result.drop_last() =~= inner);
        lemma_bytes_le_total(sorted.last().text, item.text);
        assert(!(key(item) && key(sorted.last())));
    }
}

/// Whatever the fields have in common, the written query decides: two of them
/// with the same index and the same query text are one and the same.
pub open spec fn text_identifies(items: Seq<Ranked>) -> bool {
    forall|i: int, j: int|
        0 <= i < items.len() && 0 <= j < items.len() && items[i].field.index == items[j].field.index
            && items[i].text == items[j].text ==> #[trigger] items[i] == #[trigger] items[j]
}

/// A total order of fields that extends `field_order`.
spec fn full_order() -> spec_fn(Ranked, Ranked) -> bool {
    |a: Ranked, b: Ranked|
        if a.field.index == b.field.index && a.text == b.text {
            a.field.document < b.field.document || a.field.document == b.field.document
                && a.field.query <= b.field.query
        } else {
            ranked_le(a, b)
        }
}

proof fn lemma_full_order_total()
    ensures
        total_ordering(full_order()),
{
    let order = full_order();
    assert forall|a: Ranked, b: Ranked| #[trigger] order(a, b) || #[trigger] order(b, a) by {
        lemma_bytes_le_total(a.text, b.text);
    }
    assert forall|a: Ranked, b: Ranked| #[trigger] order(a, b) && #[trigger] order(b, a) implies a
        == b by {
        lemma_bytes_le_total(a.text, b.text);
    }
    assert forall|a: Ranked, b: Ranked, c: Ranked| #[trigger]
        order(a, b) && #[trigger] order(b, c) implies order(a, c) by {
        lemma_bytes_le_total(a.text, b.text);
        lemma_bytes_le_total(b.text, c.text);
        lemma_bytes_le_total(a.text, c.text);
        if bytes_le(a.text, b.text) && bytes_le(b.text, c.text) {
            lemma_bytes_le_transitive(a.text, b.text, c.text);
        }
    }
}

/// Sorting a list in which the text identifies the field sorts it totally.
proof fn lemma_sorted_totally(items: Seq<Ranked>)
    requires
        text_identifies(items),
    ensures
        sorted_by(sort_ranked(items), full_order()),
{
    broadcast use vstd::seq_lib::group_to_multiset_ensures;

    law_fields_are_ordered(items);
    let result = sort_ranked(items);
    let order = field_order();
    let full = full_order();
    assert forall|i: int, j: int| 0 <= i < j < result.len() implies #[trigger] full(
        result[i],
        result[j],
    ) by {
        assert(order(result[i], result[j]));
        assert(result.contains(result[i]));
        assert(result.contains(result[j]));
        assert(items.to_multiset().count(result[i]) > 0);
        assert(items.to_multiset().count(result[j]) > 0);
        assert(items.contains(result[i]));
        assert(items.contains(result[j]));
        let k = items.index_of(result[i]);
        let l = items.index_of(result[j]);
        assert(items[k] == result[i] && items[l] == result[j]);
    }
}

/// The order in which a query names its predicates does not matter: the same
/// predicates in another order are scored as the same fields in the same order.
pub proof fn law_predicate_order_is_irrelevant(a: Seq<Candidate>, b: Seq<Candidate>)
    requires
        a.to_multiset() == b.to_multiset(),
        text_identifies(indexed(a)),
    ensures
        bound_fields(a) == bound_fields(b),
{
    broadcast use vstd::seq_lib::group_to_multiset_ensures;

    let one = indexed(a);
    let two = indexed(b);
    lemma_indexed_permutation(a, b);
    assert(one.to_multiset().len() == two.to_multiset().len());
    assert forall|i: int| 0 <= i < two.len() implies one.contains(#[trigger] two[i]) by {
        assert(two.contains(two[i]));
        assert(two.to_multiset().count(two[i]) > 0);
    }
    assert forall|i: int| 0 <= i < one.len() implies two.contains(#[trigger] one[i]) by {
        assert(one.contains(one[i]));
        assert(one.to_multiset().count(one[i]) > 0);
    }
    assert(text_identifies(two)) by {
        assert forall|i: int, j: int|
            0 <= i < two.len() && 0 <= j < two.len() && two[i].field.index == two[j].field.index
                && two[i].text == two[j].text implies #[trigger] two[i] == #[trigger] two[j] by {
            let k = one.index_of(two[i]);
            let l = one.index_of(two[j]);
            assert(one[k] == two[i] && one[l] == two[j]);
        }
    }
    lemma_one_index_shared(one, two);
    lemma_one_index_shared(two, one);
    lemma_sorted_totally(one);
    lemma_sorted_totally(two);
    law_fields_are_ordered(one);
    law_fields_are_ordered(two);
    lemma_full_order_total();
    lemma_sorted_unique(sort_ranked(one), sort_ranked(two), full_order());
}

/// The same predicates in another order have the same fields.
proof fn lemma_indexed_permutation(a: Seq<Candidate>, b: Seq<Candidate>)
    requires
        a.to_multiset() == b.to_multiset(),
    ensures
        indexed(a).to_multiset() == indexed(b).to_multiset(),
    decreases a.len(),
{
    broadcast use vstd::seq_lib::group_to_multiset_ensures;

    a.to_multiset_ensures();
    b.to_multiset_ensures();
    if a.len() > 0 {
        let last = a.last();
        assert(a.contains(a[a.len() - 1]));
        assert(b.to_multiset().count(last) > 0);
        assert(b.contains(last));
        let k = b.index_of(last);
        assert(a.remove(a.len() - 1) =~= a.drop_last());
        assert(a.drop_last().to_multiset() == a.to_multiset().remove(last));
        lemma_indexed_permutation(a.drop_last(), b.remove(k));
        lemma_indexed_remove(a, a.len() - 1);
        lemma_indexed_remove(b, k);
    } else {
        assert(a =~= b);
    }
}

/// A predicate counts once among the fields if an index answers it.
proof fn lemma_indexed_remove(all: Seq<Candidate>, at: int)
    requires
        0 <= at < all.len(),
    ensures
        indexed(all).to_multiset() == match all[at].ranked() {
            Some(item) => indexed(all.remove(at)).to_multiset().insert(item),
            None => indexed(all.remove(at)).to_multiset(),
        },
    decreases all.len(),
{
    broadcast use vstd::seq_lib::group_to_multiset_ensures;

    if at == all.len() - 1 {
        assert(all.remove(at) =~= all.drop_last());
        lemma_indexed_last(all);
    } else {
        let rest = all.remove(at);
        lemma_indexed_remove(all.drop_last(), at);
        assert(rest.drop_last() =~= all.drop_last().remove(at));
        lemma_indexed_last(all);
        lemma_indexed_last(rest);
        if let (Some(item), Some(back)) = (all[at].ranked(), all.last().ranked()) {
            let base = indexed(rest.drop_last()).to_multiset();
            assert(base.insert(item).insert(back) =~= base.insert(back).insert(item));
        }
    }
}

proof fn lemma_indexed_last(all: Seq<Candidate>)
    requires
        all.len() > 0,
    ensures
        indexed(all) == match all.last().ranked() {
            Some(item) => indexed(all.drop_last()).push(item),
            None => indexed(all.drop_last()),
        },
{
    let pick = |found: Candidate| found.ranked();
    all.lemma_filter_map_take_succ(pick, all.len() - 1);
    assert(all.take(all.len() as int) =~= all);
    assert(all.take(all.len() - 1) =~= all.drop_last());
    if let Some(item) = all.last().ranked() {
        assert(indexed(all.drop_last()) + seq![item] =~= indexed(all.drop_last()).push(item));
    } else {
        assert(indexed(all.drop_last()) + Seq::<Ranked>::empty() =~= indexed(all.drop_last()));
    }
}

/// A list whose items all occur in a list of one index is of one index itself.
proof fn lemma_one_index_shared(one: Seq<Ranked>, two: Seq<Ranked>)
    requires
        forall|i: int| 0 <= i < two.len() ==> one.contains(#[trigger] two[i]),
    ensures
        one_index(one) ==> one_index(two),
{
    if one_index(one) {
        assert forall|i: int| 0 <= i < two.len() implies (#[trigger] two[i]).field.index
            == two[0].field.index by {
            assert(one.contains(two[i]) && one.contains(two[0]));
            let k = one.index_of(two[i]);
            let l = one.index_of(two[0]);
            assert(one[k] == two[i] && one[l] == two[0]);
        }
    }
}

/// No field repeats the search of the one before it, and no search is lost: for
/// every field there is a kept one that asks the same of the same index.
pub proof fn law_repeats_are_dropped(fields: Seq<Field>)
    ensures
        forall|i: int|
            0 < i < without_repeats(fields).len() ==> !same_search(
                without_repeats(fields)[i - 1],
                #[trigger] without_repeats(fields)[i],
            ),
        forall|i: int|
            0 <= i < fields.len() ==> exists|k: int|
                0 <= k < without_repeats(fields).len() && same_search(
                    #[trigger] without_repeats(fields)[k],
                    #[trigger] fields[i],
                ),
        fields.len() > 0 ==> without_repeats(fields).len() > 0 && same_search(
            without_repeats(fields).last(),
            fields.last(),
        ),
        without_repeats(fields).len() <= fields.len(),
    decreases fields.len(),
{
    if fields.len() > 0 {
        let front = fields.drop_last();
        law_repeats_are_dropped(front);
        let kept = without_repeats(front);
        let all = without_repeats(fields);
        assert forall|i: int| 0 <= i < fields.len() implies exists|k: int|
            0 <= k < all.len() && same_search(#[trigger] all[k], #[trigger] fields[i]) by {
            if i < front.len() {
                assert(front[i] == fields[i]);
                let k = choose|k: int| 0 <= k < kept.len() && same_search(#[trigger] kept[k], front[i]);
                assert(all[k] == kept[k]);
            } else {
                assert(same_search(all[all.len() - 1], fields[i]));
            }
        }
    }
}

/// Fields are scored together only across indexes: where there are any, at
/// least two of them belong to different indexes.
pub proof fn law_bound_fields_span_indexes(matches: Seq<Candidate>)
    ensures
        bound_fields(matches) matches Some(fields) ==> {
            &&& 2 <= fields.len() <= matches.len()
            &&& exists|i: int, j: int|
                0 <= i < fields.len() && 0 <= j < fields.len() && (#[trigger] fields[i]).index != (
                #[trigger] fields[j]).index
        },
{
    broadcast use vstd::seq_lib::group_to_multiset_ensures;

    let found = indexed(matches);
    lemma_filter_map_shorter(matches);
    if let Some(fields) = bound_fields(matches) {
        let k = choose|i: int|
            0 <= i < found.len() && (#[trigger] found[i]).field.index != found[0].field.index;
        law_fields_are_ordered(found);
        let sorted = sort_ranked(found);
        assert(found.contains(found[k]) && found.contains(found[0]));
        assert(sorted.to_multiset().count(found[k]) > 0);
        assert(sorted.to_multiset().count(found[0]) > 0);
        assert(sorted.contains(found[k]) && sorted.contains(found[0]));
        let x = sorted.index_of(found[k]);
        let y = sorted.index_of(found[0]);
        let all = fields_of(sorted);
        assert(all[x] == found[k].field && all[y] == found[0].field);
        law_repeats_are_dropped(all);
        assert(sorted.to_multiset().len() == found.to_multiset().len());
        let i = choose|i: int| 0 <= i < fields.len() && same_search(#[trigger] fields[i], all[x]);
        let j = choose|j: int| 0 <= j < fields.len() && same_search(#[trigger] fields[j], all[y]);
        assert(fields[i].index != fields[j].index);
    }
}

proof fn lemma_filter_map_shorter(matches: Seq<Candidate>)
    ensures
        indexed(matches).len() <= matches.len(),
    decreases matches.len(),
{
    if matches.len() > 0 {
        lemma_filter_map_shorter(matches.drop_last());
        lemma_indexed_last(matches);
    } else {
        reveal_with_fuel(Seq::filter_map, 1);
    }
}

/// `a` stands before `b` in a dictionary: they are alike up to a place where `a`
/// ends or has the smaller byte.
pub open spec fn text_before(a: Seq<u8>, b: Seq<u8>) -> bool {
    exists|p: int|
        {
            &&& 0 <= p <= a.len()
            &&& p < b.len()
            &&& #[trigger] a.take(p) == b.take(p)
            &&& p == a.len() || a[p] < b[p]
        }
}

/// The order of texts is that of a dictionary.
pub proof fn law_texts_are_ordered_as_in_a_dictionary(a: Seq<u8>, b: Seq<u8>)
    ensures
        bytes_le(a, b) <==> a == b || text_before(a, b),
    decreases a.len(),
{
    if a.len() == 0 {
        if b.len() > 0 {
            assert(a.take(0) =~= b.take(0));
            assert(text_before(a, b));
        } else {
            assert(a =~= b);
        }
    } else if b.len() > 0 {
        let x = a.skip(1);
        let y = b.skip(1);
        law_texts_are_ordered_as_in_a_dictionary(x, y);
        if a[0] < b[0] {
            assert(a.take(0) =~= b.take(0));
            assert(text_before(a, b));
        } else if a[0] == b[0] {
            if x == y {
                assert forall|i: int| 0 <= i < a.len() implies a[i] == b[i] by {
                    if i > 0 {
                        assert(x[i - 1] == y[i - 1]);
                    }
                }
                assert(x.len() == y.len());
                assert(a =~= b);
            }
            if a == b {
                assert(x =~= y);
            }
            if text_before(x, y) {
                let p = choose|p: int|
                    {
                        &&& 0 <= p <= x.len()
                        &&& p < y.len()
                        &&& #[trigger] x.take(p) == y.take(p)
                        &&& p == x.len() || x[p] < y[p]
                    };
                assert forall|i: int| 0 <= i < p + 1 implies #[trigger] a[i] == b[i] by {
                    if i > 0 {
                        assert(x.take(p)[i - 1] == y.take(p)[i - 1]);
                    }
                }
                assert(a.take(p + 1) =~= b.take(p + 1));
                assert(text_before(a, b));
            }
            if text_before(a, b) {
                let p = choose|p: int|
                    {
                        &&& 0 <= p <= a.len()
                        &&& p < b.len()
                        &&& #[trigger] a.take(p) == b.take(p)
                        &&& p == a.len() || a[p] < b[p]
                    };
                assert(p > 0);
                assert forall|i: int| 0 <= i < p - 1 implies #[trigger] x[i] == y[i] by {
                    assert(a.take(p)[i + 1] == b.take(p)[i + 1]);
                }
                assert(x.take(p - 1) =~= y.take(p - 1));
                assert(text_before(x, y));
            }
        } else {
            if text_before(a, b) {
                let p = choose|p: int|
                    {
                        &&& 0 <= p <= a.len()
                        &&& p < b.len()
                        &&& #[trigger] a.take(p) == b.take(p)
                        &&& p == a.len() || a[p] < b[p]
                    };
                if p > 0 {
                    assert(a.take(p)[0] == b.take(p)[0]);
                }
            }
        }
    }
}

/// Predicate `i` is scored before predicate `j`: by the lower index, then by the
/// text of the query, then by the order in the query.
pub open spec fn precedes(matches: Seq<Candidate>, i: int, j: int) -> bool {
    let a = matches[i];
    let b = matches[j];
    ||| a.index->0 < b.index->0
    ||| a.index == b.index && text_before(a.query_text@, b.query_text@)
    ||| a.index == b.index && a.query_text@ == b.query_text@ && i < j
}

/// Of two predicates, one precedes the other, never both, and precedence passes on.
proof fn lemma_precedes(matches: Seq<Candidate>, i: int, j: int, k: int)
    requires
        matches[i].index is Some,
        matches[j].index is Some,
        matches[k].index is Some,
    ensures
        i != j ==> precedes(matches, i, j) != precedes(matches, j, i),
        !precedes(matches, i, i),
        precedes(matches, i, j) && precedes(matches, j, k) ==> precedes(matches, i, k),
{
    let a = matches[i].query_text@;
    let b = matches[j].query_text@;
    let c = matches[k].query_text@;
    law_texts_are_ordered_as_in_a_dictionary(a, b);
    law_texts_are_ordered_as_in_a_dictionary(b, a);
    law_texts_are_ordered_as_in_a_dictionary(b, c);
    law_texts_are_ordered_as_in_a_dictionary(a, c);
    law_texts_are_ordered_as_in_a_dictionary(a, a);
    lemma_not_before_itself(a);
    lemma_not_before_itself(b);
    lemma_bytes_le_total(a, b);
    if text_before(a, b) && text_before(b, a) {
        lemma_before_one_way(a, b);
    }
    if bytes_le(a, b) && bytes_le(b, c) {
        lemma_bytes_le_transitive(a, b, c);
    }
    if a == c && text_before(a, b) && text_before(b, c) {
        lemma_before_one_way(a, b);
    }
}

/// No text stands before itself.
proof fn lemma_not_before_itself(a: Seq<u8>)
    ensures
        !text_before(a, a),
{
}

/// Texts stand before each other one way only.
proof fn lemma_before_one_way(a: Seq<u8>, b: Seq<u8>)
    ensures
        !(text_before(a, b) && text_before(b, a)),
{
    if text_before(a, b) && text_before(b, a) {
        let p = choose|p: int|
            {
                &&& 0 <= p <= a.len()
                &&& p < b.len()
                &&& #[trigger] a.take(p) == b.take(p)
                &&& p == a.len() || a[p] < b[p]
            };
        let q = choose|q: int|
            {
                &&& 0 <= q <= b.len()
                &&& q < a.len()
                &&& #[trigger] b.take(q) == a.take(q)
                &&& q == b.len() || b[q] < a[q]
            };
        if q < p {
            assert(a.take(p)[q] == b.take(p)[q]);
        } else if p < q {
            assert(a.take(q)[p] == b.take(q)[p]);
        }
    }
}

/// The numbers of predicates in the order in which they are scored.
spec fn in_order(matches: Seq<Candidate>, numbers: Seq<int>) -> bool {
    forall|x: int, y: int|
        0 <= x < y < numbers.len() ==> precedes(matches, #[trigger] numbers[x], #[trigger] numbers[y])
}

/// The sorted items are these predicates.
spec fn stands_for(matches: Seq<Candidate>, numbers: Seq<int>, items: Seq<Ranked>) -> bool {
    &&& numbers.len() == items.len()
    &&& forall|x: int|
        0 <= x < numbers.len() ==> {
            &&& 0 <= #[trigger] numbers[x] < matches.len()
            &&& matches[numbers[x]].ranked() == Some(items[x])
        }
}

/// Inserting the last predicate keeps the numbers in order.
proof fn lemma_insert_number(
    matches: Seq<Candidate>,
    numbers: Seq<int>,
    sorted: Seq<Ranked>,
    number: int,
) -> (longer: Seq<int>)
    requires
        stands_for(matches, numbers, sorted),
        in_order(matches, numbers),
        0 <= number < matches.len(),
        matches[number].index is Some,
        forall|x: int| 0 <= x < numbers.len() ==> #[trigger] numbers[x] < number,
    ensures
        stands_for(matches, longer, insert_ranked(sorted, matches[number].ranked()->0)),
        in_order(matches, longer),
        longer.contains(number),
        forall|n: int| numbers.contains(n) ==> #[trigger] longer.contains(n),
        forall|x: int|
            0 <= x < longer.len() ==> #[trigger] longer[x] == number || numbers.contains(longer[x]),
    decreases sorted.len(),
{
    let item = matches[number].ranked()->0;
    if sorted.len() == 0 || ranked_le(sorted.last(), item) {
        let longer = numbers.push(number);
        assert(longer[numbers.len() as int] == number);
        assert forall|x: int| 0 <= x < numbers.len() implies precedes(
            matches,
            #[trigger] numbers[x],
            number,
        ) by {
            let last = numbers.len() - 1;
            let a = matches[numbers[last]];
            assert(a.ranked() == Some(sorted[last]));
            assert(matches[numbers[x]].ranked() == Some(sorted[x]));
            assert(matches[numbers[x]].index is Some && a.index is Some);
            law_texts_are_ordered_as_in_a_dictionary(a.query_text@, matches[number].query_text@);
            assert(precedes(matches, numbers[last], number));
            lemma_precedes(matches, numbers[x], numbers[last], number);
        }
        assert(in_order(matches, longer)) by {
            assert forall|x: int, y: int| 0 <= x < y < longer.len() implies precedes(
                matches,
                #[trigger] longer[x],
                #[trigger] longer[y],
            ) by {
                assert(longer[x] == numbers[x]);
                if y < numbers.len() {
                    assert(longer[y] == numbers[y]);
                }
            }
        }
        assert(stands_for(matches, longer, sorted.push(item))) by {
            assert forall|x: int| 0 <= x < longer.len() implies {
                &&& 0 <= #[trigger] longer[x] < matches.len()
                &&& matches[longer[x]].ranked() == Some(sorted.push(item)[x])
            } by {
                if x < numbers.len() {
                    assert(longer[x] == numbers[x]);
                }
            }
        }
        assert forall|n: int| numbers.contains(n) implies #[trigger] longer.contains(n) by {
            let x = numbers.index_of(n);
            assert(longer[x] == n);
        }
        assert forall|x: int| 0 <= x < longer.len() implies #[trigger] longer[x] == number
            || numbers.contains(longer[x]) by {
            if x < numbers.len() {
                assert(longer[x] == numbers[x]);
            }
        }
        longer
    } else {
        let last = numbers.len() - 1;
        let top = numbers[last];
        let front = numbers.drop_last();
        assert forall|x: int| 0 <= x < front.len() implies #[trigger] front[x] == numbers[x] by {}
        assert(stands_for(matches, front, sorted.drop_last())) by {
            assert forall|x: int| 0 <= x < front.len() implies {
                &&& 0 <= #[trigger] front[x] < matches.len()
                &&& matches[front[x]].ranked() == Some(sorted.drop_last()[x])
            } by {
                assert(front[x] == numbers[x]);
            }
        }
        assert(in_order(matches, front)) by {
            assert forall|x: int, y: int| 0 <= x < y < front.len() implies precedes(
                matches,
                #[trigger] front[x],
                #[trigger] front[y],
            ) by {
                assert(precedes(matches, numbers[x], numbers[y]));
            }
        }
        let inner = lemma_insert_number(matches, front, sorted.drop_last(), number);
        let longer = inner.push(top);
        assert(matches[top].ranked() == Some(sorted[last]));
        assert(matches[top].index is Some);
        assert(precedes(matches, number, top)) by {
            law_texts_are_ordered_as_in_a_dictionary(
                matches[top].query_text@,
                matches[number].query_text@,
            );
            lemma_precedes(matches, top, number, number);
        }
        assert(in_order(matches, longer)) by {
            assert forall|x: int, y: int| 0 <= x < y < longer.len() implies precedes(
                matches,
                #[trigger] longer[x],
                #[trigger] longer[y],
            ) by {
                assert(longer[x] == inner[x]);
                if y < inner.len() {
                    assert(longer[y] == inner[y]);
                } else if inner[x] != number {
                    let z = front.index_of(inner[x]);
                    assert(numbers[z] == inner[x]);
                    assert(precedes(matches, numbers[z], numbers[last]));
                }
            }
        }
        let after = insert_ranked(sorted.drop_last(), item);
        assert(stands_for(matches, longer, after.push(sorted.last()))) by {
            assert forall|x: int| 0 <= x < longer.len() implies {
                &&& 0 <= #[trigger] longer[x] < matches.len()
                &&& matches[longer[x]].ranked() == Some(after.push(sorted.last())[x])
            } by {
                if x < inner.len() {
                    assert(longer[x] == inner[x]);
                }
            }
        }
        assert forall|n: int| numbers.contains(n) implies #[trigger] longer.contains(n) by {
            let x = numbers.index_of(n);
            if x < last {
                assert(front[x] == n);
                assert(front.contains(n));
                assert(inner.contains(n));
                let y = inner.index_of(n);
                assert(longer[y] == n);
            } else {
                assert(longer[inner.len() as int] == n);
            }
        }
        assert(longer.contains(number)) by {
            let y = inner.index_of(number);
            assert(longer[y] == number);
        }
        assert forall|x: int| 0 <= x < longer.len() implies #[trigger] longer[x] == number
            || numbers.contains(longer[x]) by {
            if x < inner.len() {
                assert(longer[x] == inner[x]);
                if inner[x] != number {
                    let z = front.index_of(inner[x]);
                    assert(numbers[z] == inner[x]);
                }
            } else {
                assert(numbers[last] == longer[x]);
            }
        }
        longer
    }
}

/// The sorted items are all predicates that an index answers, in order.
proof fn lemma_sorted_numbers(matches: Seq<Candidate>) -> (numbers: Seq<int>)
    ensures
        stands_for(matches, numbers, sort_ranked(indexed(matches))),
        in_order(matches, numbers),
        forall|i: int|
            0 <= i < matches.len() && (#[trigger] matches[i]).index is Some ==> numbers.contains(i),
    decreases matches.len(),
{
    if matches.len() == 0 {
        Seq::empty()
    } else {
        let front = matches.drop_last();
        let last = matches.len() - 1;
        let before = lemma_sorted_numbers(front);
        assert forall|i: int| 0 <= i < front.len() implies #[trigger] front[i] == matches[i] by {}
        assert(matches[last] == matches.last());
        assert(stands_for(matches, before, sort_ranked(indexed(front)))) by {
            assert forall|x: int| 0 <= x < before.len() implies {
                &&& 0 <= #[trigger] before[x] < matches.len()
                &&& matches[before[x]].ranked() == Some(sort_ranked(indexed(front))[x])
            } by {
                assert(front[before[x]] == matches[before[x]]);
            }
        }
        assert(in_order(matches, before)) by {
            assert forall|x: int, y: int| 0 <= x < y < before.len() implies precedes(
                matches,
                #[trigger] before[x],
                #[trigger] before[y],
            ) by {
                assert(precedes(front, before[x], before[y]));
                assert(front[before[x]] == matches[before[x]]);
                assert(front[before[y]] == matches[before[y]]);
            }
        }
        if matches[last].index is Some {
            let item = matches[last].ranked()->0;
            assert(indexed(matches) =~= indexed(front).push(item));
            assert(indexed(matches).drop_last() =~= indexed(front));
            assert(indexed(matches).last() == item);
            assert forall|x: int| 0 <= x < before.len() implies #[trigger] before[x] < last by {}
            let numbers = lemma_insert_number(
                matches,
                before,
                sort_ranked(indexed(front)),
                last,
            );
            assert forall|i: int|
                0 <= i < matches.len()
                    && (#[trigger] matches[i]).index is Some implies numbers.contains(i) by {
                if i < last {
                    assert(front[i].index is Some);
                    assert(before.contains(i));
                }
            }
            numbers
        } else {
            assert(indexed(matches) =~= indexed(front));
            assert forall|i: int|
                0 <= i < matches.len()
                    && (#[trigger] matches[i]).index is Some implies before.contains(i) by {
                assert(front[i].index is Some);
            }
            before
        }
    }
}

/// The places of the fields that are kept when repeats are dropped: a field is left
/// out exactly when it and all fields since the kept one before it ask the same.
proof fn lemma_kept_places(fields: Seq<Field>) -> (places: Seq<int>)
    ensures
        places.len() == without_repeats(fields).len(),
        forall|k: int|
            0 <= k < places.len() ==> 0 <= #[trigger] places[k] < fields.len()
                && without_repeats(fields)[k] == fields[places[k]],
        forall|k: int, l: int|
            0 <= k < l < places.len() ==> #[trigger] places[k] < #[trigger] places[l],
        forall|k: int|
            0 < k < places.len() ==> {
                let here = fields[#[trigger] places[k]];
                let earlier = fields[places[k - 1]];
                here.index != earlier.index || here.query != earlier.query
            },
        fields.len() > 0 ==> places.len() > 0,
        forall|p: int|
            0 <= p < fields.len() ==> #[trigger] kept_for(fields, places, p),
        fields.len() > 0 ==> run_of_one_search(fields, places.last(), fields.len() - 1),
    decreases fields.len(),
{
    if fields.len() == 0 {
        Seq::empty()
    } else {
        let front = fields.drop_last();
        let last = fields.len() - 1;
        let before = lemma_kept_places(front);
        assert forall|i: int| 0 <= i < front.len() implies #[trigger] front[i] == fields[i] by {}
        assert(fields[last] == fields.last());
        let kept = without_repeats(front);
        if kept.len() > 0 && same_search(kept.last(), fields.last()) {
            let top = before.last();
            assert(before[before.len() - 1] == top);
            assert(kept.last() == front[top]);
            assert(run_of_one_search(front, top, last - 1));
            assert(run_of_one_search(fields, top, last)) by {
                assert forall|q: int| top <= q <= last implies {
                    &&& (#[trigger] fields[q]).index == fields[top].index
                    &&& fields[q].query == fields[top].query
                } by {
                    if q < last {
                        assert(front[q].index == front[top].index);
                    }
                }
            }
            assert forall|p: int| 0 <= p < fields.len() implies #[trigger] kept_for(
                fields,
                before,
                p,
            ) by {
                if p < last {
                    lemma_kept_longer(fields, before, before, p);
                } else {
                    assert(before[before.len() - 1] == top);
                }
            }
            before
        } else {
            let places = before.push(last);
            assert(places[before.len() as int] == last);
            assert forall|k: int| 0 <= k < before.len() implies #[trigger] places[k]
                == before[k] by {}
            assert forall|k: int| 0 < k < places.len() implies {
                let here = fields[#[trigger] places[k]];
                let earlier = fields[places[k - 1]];
                here.index != earlier.index || here.query != earlier.query
            } by {
                if k < before.len() {
                    assert(places[k] == before[k] && places[k - 1] == before[k - 1]);
                    assert(front[before[k]] == fields[places[k]]);
                    assert(front[before[k - 1]] == fields[places[k - 1]]);
                } else {
                    assert(places[k - 1] == before[k - 1]);
                    assert(kept.last() == front[before[k - 1]]);
                }
            }
            assert forall|p: int| 0 <= p < fields.len() implies #[trigger] kept_for(
                fields,
                places,
                p,
            ) by {
                if p < last {
                    lemma_kept_longer(fields, before, places, p);
                } else {
                    assert(run_of_one_search(fields, places[before.len() as int], p));
                }
            }
            places
        }
    }
}

/// All fields from one place to another ask the same of the same index.
pub open spec fn run_of_one_search(fields: Seq<Field>, from: int, to: int) -> bool {
    &&& 0 <= from <= to < fields.len()
    &&& forall|q: int|
        from <= q <= to ==> {
            &&& (#[trigger] fields[q]).index == fields[from].index
            &&& fields[q].query == fields[from].query
        }
}

/// A field at this place, or one from which on all ask the same, is kept.
pub open spec fn kept_for(fields: Seq<Field>, places: Seq<int>, p: int) -> bool {
    exists|k: int| 0 <= k < places.len() && run_of_one_search(fields, #[trigger] places[k], p)
}

/// What is kept for a field stays so when fields and places come behind.
proof fn lemma_kept_longer(fields: Seq<Field>, before: Seq<int>, places: Seq<int>, p: int)
    requires
        fields.len() > 0,
        0 <= p < fields.len() - 1,
        kept_for(fields.drop_last(), before, p),
        before.len() <= places.len(),
        forall|k: int| 0 <= k < before.len() ==> #[trigger] places[k] == before[k],
    ensures
        kept_for(fields, places, p),
{
    let front = fields.drop_last();
    let k = choose|k: int|
        0 <= k < before.len() && run_of_one_search(front, #[trigger] before[k], p);
    assert(places[k] == before[k]);
    assert(run_of_one_search(fields, places[k], p)) by {
        assert forall|q: int| places[k] <= q <= p implies {
            &&& (#[trigger] fields[q]).index == fields[places[k]].index
            &&& fields[q].query == fields[places[k]].query
        } by {
            assert(front[q] == fields[q]);
            assert(front[places[k]] == fields[places[k]]);
        }
    }
}

/// Which predicates are scored together, and in which order. There are such exactly
/// when two predicates are answered by different indexes. Each field is one of the
/// predicates that an index answers, and the fields stand in the order of their
/// indexes, then of their query texts, then of the query. A predicate is left out
/// only where a field before it in this order asks the same query of the same index,
/// and so do all predicates in between.
pub proof fn law_bound_fields_are_the_answered_predicates(matches: Seq<Candidate>) -> (origins: Seq<
    int,
>)
    ensures
        bound_fields(matches) is Some <==> exists|i: int, j: int|
            {
                &&& 0 <= i < matches.len() && 0 <= j < matches.len()
                &&& (#[trigger] matches[i]).index is Some
                &&& (#[trigger] matches[j]).index is Some
                &&& matches[i].index != matches[j].index
            },
        bound_fields(matches) matches Some(fields) ==> {
            &&& origins.len() == fields.len()
            &&& forall|k: int|
                0 <= k < origins.len() ==> {
                    &&& 0 <= #[trigger] origins[k] < matches.len()
                    &&& matches[origins[k]].index == Some(fields[k].index)
                    &&& matches[origins[k]].document == fields[k].document
                    &&& matches[origins[k]].query == fields[k].query
                }
            &&& forall|k: int, l: int|
                0 <= k < l < origins.len() ==> precedes(
                    matches,
                    #[trigger] origins[k],
                    #[trigger] origins[l],
                )
            &&& forall|k: int|
                0 < k < fields.len() ==> (#[trigger] fields[k]).index != fields[k - 1].index
                    || fields[k].query != fields[k - 1].query
            &&& forall|i: int|
                0 <= i < matches.len() && (#[trigger] matches[i]).index is Some ==> left_out_rightly(
                    matches,
                    origins,
                    i,
                )
        },
{
    let found = indexed(matches);
    let sorted = sort_ranked(found);
    let all = fields_of(sorted);
    let numbers = lemma_sorted_numbers(matches);
    let places = lemma_kept_places(all);
    let origins = Seq::new(places.len(), |k: int| numbers[places[k]]);
    law_fields_are_ordered(found);
    lemma_spanning(matches);
    if let Some(fields) = bound_fields(matches) {
        assert(fields == without_repeats(all));
        assert forall|k: int| 0 <= k < origins.len() implies {
            &&& 0 <= #[trigger] origins[k] < matches.len()
            &&& matches[origins[k]].index == Some(fields[k].index)
            &&& matches[origins[k]].document == fields[k].document
            &&& matches[origins[k]].query == fields[k].query
        } by {
            let p = places[k];
            assert(0 <= numbers[p] < matches.len());
            assert(matches[numbers[p]].ranked() == Some(sorted[p]));
            assert(fields[k] == all[p]);
        }
        assert forall|k: int, l: int| 0 <= k < l < origins.len() implies precedes(
            matches,
            #[trigger] origins[k],
            #[trigger] origins[l],
        ) by {
            assert(places[k] < places[l]);
            assert(precedes(matches, numbers[places[k]], numbers[places[l]]));
        }
        assert forall|k: int| 0 < k < fields.len() implies (#[trigger] fields[k]).index
            != fields[k - 1].index || fields[k].query != fields[k - 1].query by {
            assert(fields[k] == all[places[k]]);
            assert(fields[k - 1] == all[places[k - 1]]);
        }
        assert forall|i: int|
            0 <= i < matches.len() && (#[trigger] matches[i]).index is Some implies left_out_rightly(
            matches,
            origins,
            i,
        ) by {
            let p = numbers.index_of(i);
            assert(numbers[p] == i);
            assert(kept_for(all, places, p));
            let k = choose|k: int|
                0 <= k < places.len() && run_of_one_search(all, #[trigger] places[k], p);
            lemma_left_out(matches, numbers, sorted, places, origins, k, p);
        }
    }
    origins
}

/// The predicate is `origin` itself, or it comes after it, and it and all
/// predicates in between ask the same query of the same index.
pub open spec fn repeats_field(matches: Seq<Candidate>, origin: int, i: int) -> bool {
    ||| origin == i
    ||| {
        &&& precedes(matches, origin, i)
        &&& matches[origin].index == matches[i].index
        &&& matches[origin].query == matches[i].query
        &&& forall|j: int|
            0 <= j < matches.len() && (#[trigger] matches[j]).index is Some && precedes(
                matches,
                origin,
                j,
            ) && precedes(matches, j, i) ==> {
                &&& matches[j].index == matches[i].index
                &&& matches[j].query == matches[i].query
            }
    }
}

/// The predicate is a field or only repeats one.
pub open spec fn left_out_rightly(matches: Seq<Candidate>, origins: Seq<int>, i: int) -> bool {
    exists|k: int| 0 <= k < origins.len() && repeats_field(matches, #[trigger] origins[k], i)
}

/// A predicate in a run of one search is a field or only repeats one.
proof fn lemma_left_out(
    matches: Seq<Candidate>,
    numbers: Seq<int>,
    sorted: Seq<Ranked>,
    places: Seq<int>,
    origins: Seq<int>,
    k: int,
    p: int,
)
    requires
        stands_for(matches, numbers, sorted),
        in_order(matches, numbers),
        forall|i: int|
            0 <= i < matches.len() && (#[trigger] matches[i]).index is Some ==> numbers.contains(i),
        0 <= k < places.len(),
        0 <= p < numbers.len(),
        run_of_one_search(fields_of(sorted), places[k], p),
        origins == Seq::new(places.len(), |k: int| numbers[places[k]]),
    ensures
        left_out_rightly(matches, origins, numbers[p]),
{
    let all = fields_of(sorted);
    let i = numbers[p];
    let start = places[k];
    let origin = numbers[start];
    assert(origins[k] == origin);
    assert(matches[origin].ranked() == Some(sorted[start]));
    assert(matches[i].ranked() == Some(sorted[p]));
    assert(all[p].index == all[start].index && all[p].query == all[start].query);
    if origin != i {
        assert(start < p);
        assert(precedes(matches, numbers[start], numbers[p]));
        assert forall|j: int|
            0 <= j < matches.len() && (#[trigger] matches[j]).index is Some && precedes(
                matches,
                origin,
                j,
            ) && precedes(matches, j, i) implies {
            &&& matches[j].index == matches[i].index
            &&& matches[j].query == matches[i].query
        } by {
            let q = numbers.index_of(j);
            assert(numbers[q] == j);
            assert(matches[numbers[q]].ranked() == Some(sorted[q]));
            lemma_precedes(matches, origin, j, i);
            lemma_precedes(matches, j, i, i);
            if q <= start {
                if q < start {
                    assert(precedes(matches, numbers[q], numbers[start]));
                }
                assert(false);
            }
            if q >= p {
                if q > p {
                    assert(precedes(matches, numbers[p], numbers[q]));
                }
                assert(false);
            }
            assert(all[q].index == all[start].index && all[q].query == all[start].query);
        }
    }
    assert(repeats_field(matches, origins[k], i));
}

/// There are fields to be scored together exactly when two predicates are answered by
/// different indexes.
proof fn lemma_spanning(matches: Seq<Candidate>)
    ensures
        bound_fields(matches) is Some <==> exists|i: int, j: int|
            {
                &&& 0 <= i < matches.len() && 0 <= j < matches.len()
                &&& (#[trigger] matches[i]).index is Some
                &&& (#[trigger] matches[j]).index is Some
                &&& matches[i].index != matches[j].index
            },
{
    let found = indexed(matches);
    let sorted = sort_ranked(found);
    let numbers = lemma_sorted_numbers(matches);
    law_fields_are_ordered(found);
    found.to_multiset_ensures();
    sorted.to_multiset_ensures();
    assert(found.to_multiset().len() == found.len());
    assert(sorted.to_multiset().len() == sorted.len());
    if bound_fields(matches) is Some {
        let x = choose|x: int|
            0 <= x < found.len() && (#[trigger] found[x]).field.index != found[0].field.index;
        assert(found.contains(found[x]) && found.contains(found[0]));
        assert(sorted.to_multiset().count(found[x]) > 0);
        assert(sorted.to_multiset().count(found[0]) > 0);
        assert(sorted.contains(found[x]) && sorted.contains(found[0]));
        let a = sorted.index_of(found[x]);
        let b = sorted.index_of(found[0]);
        assert(matches[numbers[a]].ranked() == Some(sorted[a]));
        assert(matches[numbers[b]].ranked() == Some(sorted[b]));
        assert(matches[numbers[a]].index != matches[numbers[b]].index);
    }
    if exists|i: int, j: int|
        {
            &&& 0 <= i < matches.len() && 0 <= j < matches.len()
            &&& (#[trigger] matches[i]).index is Some
            &&& (#[trigger] matches[j]).index is Some
            &&& matches[i].index != matches[j].index
        } {
        let (i, j) = choose|i: int, j: int|
            {
                &&& 0 <= i < matches.len() && 0 <= j < matches.len()
                &&& (#[trigger] matches[i]).index is Some
                &&& (#[trigger] matches[j]).index is Some
                &&& matches[i].index != matches[j].index
            };
        let a = numbers.index_of(i);
        let b = numbers.index_of(j);
        assert(numbers[a] == i && numbers[b] == j);
        assert(matches[numbers[a]].ranked() == Some(sorted[a]));
        assert(matches[numbers[b]].ranked() == Some(sorted[b]));
        assert(sorted.contains(sorted[a]) && sorted.contains(sorted[b]));
        assert(found.to_multiset().count(sorted[a]) > 0);
        assert(found.to_multiset().count(sorted[b]) > 0);
        assert(found.contains(sorted[a]) && found.contains(sorted[b]));
        let x = found.index_of(sorted[a]);
        let y = found.index_of(sorted[b]);
        assert(found[x].field.index != found[y].field.index);
        if one_index(found) {
            assert(found[x].field.index == found[0].field.index);
            assert(found[y].field.index == found[0].field.index);
        }
    }
}

} // verus!
