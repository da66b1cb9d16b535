//! What an engine that repeats itself says of columns that are asked again, in
//! another order, or joined into one query.

use rustc_hash::FxHashSet;
use vstd::prelude::*;

use crate::collections::{found_texts, in_some_set, text_set};
use crate::corpus::{
    evaluation_failed, fails, fields_built, fields_failed, group_failed, group_key, group_query,
    group_settled, has_group, is_grouping, judged, lemma_slots_of, reads_query, settles, slots_of,
    works_through, FieldCorpora, Group, ScoreCorpus,
};
use crate::keys::{
    law_slots_carry_the_request, slot_views, CacheKey, CacheKeyView, ScoreError, ScoreRequest,
    Session, Slot, SlotView,
};
use crate::order::{ascends, lemma_ascending_unique, reordered, reorders};
use crate::text::{enclosed, joined};

verus! {

/// With this tokenizer, reading of the query and cutting of the text, the engine
/// said this of a text under an index.
pub open spec fn tells<
    T,
    Q,
    D,
    C: Fn(&CacheKey) -> ScoreCorpus,
    O: Fn(u32) -> T,
    P: Fn(&String, &T) -> Result<Q, String>,
    K: Fn(&String, &T) -> D,
    E: Fn(&Q, &D) -> Result<bool, String>,
>(
    engine: (C, O, P, K, E),
    index: u32,
    query: Seq<char>,
    text: Seq<char>,
    matched: bool,
    tokenizer: T,
    written: String,
    parsed: Q,
    source: String,
    document: D,
) -> bool {
    &&& written@ == query
    &&& source@ == text
    &&& engine.1.ensures((index,), tokenizer)
    &&& engine.2.ensures((&written, &tokenizer), Ok(parsed))
    &&& engine.3.ensures((&source, &tokenizer), document)
    &&& engine.4.ensures((&parsed, &document), Ok(matched))
}

/// The engine may say this of a text when it is asked for a query under an index.
pub open spec fn says<
    T,
    Q,
    D,
    C: Fn(&CacheKey) -> ScoreCorpus,
    O: Fn(u32) -> T,
    P: Fn(&String, &T) -> Result<Q, String>,
    K: Fn(&String, &T) -> D,
    E: Fn(&Q, &D) -> Result<bool, String>,
>(
    engine: (C, O, P, K, E),
    index: u32,
    query: Seq<char>,
    text: Seq<char>,
    matched: bool,
) -> bool {
    exists|tokenizer: T, written: String, parsed: Q, source: String, document: D| #[trigger]
        tells::<T, Q, D, C, O, P, K, E>(
            engine,
            index,
            query,
            text,
            matched,
            tokenizer,
            written,
            parsed,
            source,
            document,
        )
}

/// The engine may score the documents of an index like this under a key.
pub open spec fn scores_as<C: Fn(&CacheKey) -> ScoreCorpus>(
    score: C,
    key: CacheKeyView,
    scores: Map<Seq<char>, u32>,
) -> bool {
    exists|held: CacheKey, corpus: ScoreCorpus|
        {
            &&& held@ == key
            &&& #[trigger] score.ensures((&held,), corpus)
            &&& corpus.scores() == scores
        }
}

/// The engine gives the same whenever it is asked the same: the same verdict on a
/// text for a query under an index, and the same scores under a key.
pub open spec fn engine_repeats<
    T,
    Q,
    D,
    C: Fn(&CacheKey) -> ScoreCorpus,
    O: Fn(u32) -> T,
    P: Fn(&String, &T) -> Result<Q, String>,
    K: Fn(&String, &T) -> D,
    E: Fn(&Q, &D) -> Result<bool, String>,
>(engine: (C, O, P, K, E)) -> bool {
    &&& forall|index: u32, query: Seq<char>, text: Seq<char>, a: bool, b: bool| #[trigger]
        says::<T, Q, D, C, O, P, K, E>(engine, index, query, text, a) && #[trigger] says::<T, Q, D, C, O, P, K, E>(
            engine,
            index,
            query,
            text,
            b,
        ) ==> a == b
    &&& forall|key: CacheKeyView, x: Map<Seq<char>, u32>, y: Map<Seq<char>, u32>| #[trigger]
        scores_as(engine.0, key, x) && #[trigger] scores_as(engine.0, key, y) ==> x == y
}

/// The queries of a group, in the order of its slots.
pub open spec fn group_queries(slots: Seq<Slot>, group: Seq<usize>) -> Seq<Seq<char>> {
    Seq::new(group.len(), |j: int| slots[group[j] as int].key->0.query@)
}

/// What one index came to, over the scores of all its documents: each query has
/// a verdict on every document, its set holds those that it matches, and what is
/// kept are the scores of the documents in some set.
pub open spec fn came_to<
    T,
    Q,
    D,
    C: Fn(&CacheKey) -> ScoreCorpus,
    O: Fn(u32) -> T,
    P: Fn(&String, &T) -> Result<Q, String>,
    K: Fn(&String, &T) -> D,
    E: Fn(&Q, &D) -> Result<bool, String>,
>(
    slots: Seq<Slot>,
    group: Group,
    sets: Seq<FxHashSet<String>>,
    kept: ScoreCorpus,
    engine: (C, O, P, K, E),
    scores: Map<Seq<char>, u32>,
) -> bool {
    &&& scores_as(engine.0, group_key(slots, group.slots@), scores)
    &&& sets.len() == group.slots@.len()
    &&& forall|j: int, text: Seq<char>|
        0 <= j < sets.len() && scores.contains_key(text) ==> says::<T, Q, D, C, O, P, K, E>(
            engine,
            group.index,
            group_queries(slots, group.slots@)[j],
            text,
            #[trigger] text_set(sets[j]).contains(text),
        )
    &&& forall|j: int, text: Seq<char>|
        0 <= j < sets.len() && #[trigger] text_set(sets[j]).contains(text) ==> scores.contains_key(
            text,
        )
    &&& kept.scores() == scores.restrict(found_texts(sets))
}

/// An index that was worked through came to such an outcome.
proof fn lemma_came_to<
    T,
    Q,
    D,
    C: Fn(&CacheKey) -> ScoreCorpus,
    O: Fn(u32) -> T,
    P: Fn(&String, &T) -> Result<Q, String>,
    K: Fn(&String, &T) -> D,
    E: Fn(&Q, &D) -> Result<bool, String>,
>(
    slots: Seq<Slot>,
    group: Group,
    sets: Seq<FxHashSet<String>>,
    kept: ScoreCorpus,
    engine: (C, O, P, K, E),
) -> (scores: Map<Seq<char>, u32>)
    requires
        group_settled::<T, Q, D, C, O, P, K, E>(slots, group, sets, kept, engine),
    ensures
        came_to::<T, Q, D, C, O, P, K, E>(slots, group, sets, kept, engine, scores),
{
    let (key, corpus, tokenizer, queries) = choose|
        key: CacheKey,
        corpus: ScoreCorpus,
        tokenizer: T,
        queries: Seq<Q>,
    | #[trigger]
        settles::<T, Q, D, C, O, P, K, E>(
            slots,
            group,
            sets,
            kept,
            engine,
            key,
            corpus,
            tokenizer,
            queries,
        );
    let scores = corpus.scores();
    assert(engine.0.ensures((&key,), corpus));
    assert forall|j: int, text: Seq<char>|
        0 <= j < sets.len() && scores.contains_key(text) implies says::<T, Q, D, C, O, P, K, E>(
        engine,
        group.index,
        group_queries(slots, group.slots@)[j],
        text,
        #[trigger] text_set(sets[j]).contains(text),
    ) by {
        assert(judged::<T, Q, D, K, E>(sets, tokenizer, queries, text, engine.3, engine.4));
        let (source, document) = choose|source: String, document: D|
            {
                &&& source@ == text
                &&& #[trigger] engine.3.ensures((&source, &tokenizer), document)
                &&& forall|j: int|
                    0 <= j < queries.len() ==> engine.4.ensures(
                        (&#[trigger] queries[j], &document),
                        Ok(text_set(sets[j]).contains(text)),
                    )
            };
        let written = slots[group.slots@[j] as int].key->0.query;
        assert(engine.2.ensures((&written, &tokenizer), Ok(queries[j])));
        assert(tells::<T, Q, D, C, O, P, K, E>(
            engine,
            group.index,
            written@,
            text,
            text_set(sets[j]).contains(text),
            tokenizer,
            written,
            queries[j],
            source,
            document,
        ));
    }
    scores
}

/// Groups of one index that are scored under the same key and have the same
/// queries come to the same: the same documents per query, the same scores.
pub proof fn law_same_queries_same_outcome<
    T,
    Q,
    D,
    C: Fn(&CacheKey) -> ScoreCorpus,
    O: Fn(u32) -> T,
    P: Fn(&String, &T) -> Result<Q, String>,
    K: Fn(&String, &T) -> D,
    E: Fn(&Q, &D) -> Result<bool, String>,
>(
    engine: (C, O, P, K, E),
    slots: Seq<Slot>,
    group: Group,
    sets: Seq<FxHashSet<String>>,
    kept: ScoreCorpus,
    other_slots: Seq<Slot>,
    other_group: Group,
    other_sets: Seq<FxHashSet<String>>,
    other_kept: ScoreCorpus,
)
    requires
        engine_repeats::<T, Q, D, C, O, P, K, E>(engine),
        group_settled::<T, Q, D, C, O, P, K, E>(slots, group, sets, kept, engine),
        group_settled::<T, Q, D, C, O, P, K, E>(
            other_slots,
            other_group,
            other_sets,
            other_kept,
            engine,
        ),
        group.index == other_group.index,
        group_key(slots, group.slots@) == group_key(other_slots, other_group.slots@),
        group_queries(slots, group.slots@) == group_queries(other_slots, other_group.slots@),
    ensures
        sets.len() == other_sets.len(),
        forall|j: int|
            0 <= j < sets.len() ==> text_set(#[trigger] sets[j]) == text_set(other_sets[j]),
        kept.scores() == other_kept.scores(),
{
    let scores = lemma_came_to::<T, Q, D, C, O, P, K, E>(slots, group, sets, kept, engine);
    let other = lemma_came_to::<T, Q, D, C, O, P, K, E>(
        other_slots,
        other_group,
        other_sets,
        other_kept,
        engine,
    );
    assert(scores == other);
    assert(group_queries(slots, group.slots@).len() == group.slots@.len());
    assert(group_queries(other_slots, other_group.slots@).len() == other_group.slots@.len());
    assert(sets.len() == other_sets.len());
    assert forall|j: int| 0 <= j < sets.len() implies text_set(#[trigger] sets[j]) == text_set(
        other_sets[j],
    ) by {
        assert forall|text: Seq<char>| text_set(sets[j]).contains(text) == text_set(
            other_sets[j],
        ).contains(text) by {
            if scores.contains_key(text) {
                let query = group_queries(slots, group.slots@)[j];
                assert(says::<T, Q, D, C, O, P, K, E>(
                    engine,
                    group.index,
                    query,
                    text,
                    text_set(sets[j]).contains(text),
                ));
                assert(says::<T, Q, D, C, O, P, K, E>(
                    engine,
                    group.index,
                    query,
                    text,
                    text_set(other_sets[j]).contains(text),
                ));
            }
        }
        assert(text_set(sets[j]) =~= text_set(other_sets[j]));
    }
    assert forall|text: Seq<char>| #[trigger] in_some_set(sets, text) == in_some_set(
        other_sets,
        text,
    ) by {
        if in_some_set(sets, text) {
            let j = choose|j: int|
                0 <= j < sets.len() && text_set(#[trigger] sets[j]).contains(text);
            assert(text_set(other_sets[j]).contains(text));
        }
        if in_some_set(other_sets, text) {
            let j = choose|j: int|
                0 <= j < other_sets.len() && text_set(#[trigger] other_sets[j]).contains(text);
            assert(text_set(sets[j]).contains(text));
        }
    }
    assert(found_texts(sets) =~= found_texts(other_sets));
}

/// Several queries as alternatives, as one query.
pub open spec fn alternatives(queries: Seq<Seq<char>>) -> Seq<char> {
    joined(queries.map_values(|query: Seq<char>| enclosed("("@, query, ")"@)), " OR "@)
}

/// The engine may say these of a text when it is asked for the queries.
pub open spec fn says_each<
    T,
    Q,
    D,
    C: Fn(&CacheKey) -> ScoreCorpus,
    O: Fn(u32) -> T,
    P: Fn(&String, &T) -> Result<Q, String>,
    K: Fn(&String, &T) -> D,
    E: Fn(&Q, &D) -> Result<bool, String>,
>(
    engine: (C, O, P, K, E),
    index: u32,
    queries: Seq<Seq<char>>,
    text: Seq<char>,
    each: Seq<bool>,
) -> bool {
    &&& each.len() == queries.len()
    &&& forall|j: int|
        0 <= j < queries.len() ==> says::<T, Q, D, C, O, P, K, E>(
            engine,
            index,
            #[trigger] queries[j],
            text,
            each[j],
        )
}

/// The engine reads alternatives as such: they match a text exactly when one of
/// them does, and parentheses around a whole query do not change its scores.
pub open spec fn reads_alternatives<
    T,
    Q,
    D,
    C: Fn(&CacheKey) -> ScoreCorpus,
    O: Fn(u32) -> T,
    P: Fn(&String, &T) -> Result<Q, String>,
    K: Fn(&String, &T) -> D,
    E: Fn(&Q, &D) -> Result<bool, String>,
>(engine: (C, O, P, K, E)) -> bool {
    &&& forall|
        index: u32,
        queries: Seq<Seq<char>>,
        text: Seq<char>,
        whole: bool,
        each: Seq<bool>,
    |
        queries.len() > 0 && #[trigger] says::<T, Q, D, C, O, P, K, E>(
            engine,
            index,
            alternatives(queries),
            text,
            whole,
        ) && #[trigger] says_each::<T, Q, D, C, O, P, K, E>(engine, index, queries, text, each)
            ==> whole == each.contains(true)
    &&& forall|key: CacheKeyView, x: Map<Seq<char>, u32>, y: Map<Seq<char>, u32>|
        #[trigger] scores_as(engine.0, key, x) && #[trigger] scores_as(
            engine.0,
            in_parentheses(key),
            y,
        ) ==> x == y
}

/// The key with its query in parentheses.
pub open spec fn in_parentheses(key: CacheKeyView) -> CacheKeyView {
    CacheKeyView { query: enclosed("("@, key.query, ")"@), ..key }
}

/// Several queries on one index come to what the single query comes to that has
/// them as alternatives: the single query matches the documents that one of them
/// matches, and the same scores are kept.
pub proof fn law_queries_of_one_index_are_alternatives<
    T,
    Q,
    D,
    C: Fn(&CacheKey) -> ScoreCorpus,
    O: Fn(u32) -> T,
    P: Fn(&String, &T) -> Result<Q, String>,
    K: Fn(&String, &T) -> D,
    E: Fn(&Q, &D) -> Result<bool, String>,
>(
    engine: (C, O, P, K, E),
    slots: Seq<Slot>,
    group: Group,
    sets: Seq<FxHashSet<String>>,
    kept: ScoreCorpus,
    single_slots: Seq<Slot>,
    single: Group,
    single_sets: Seq<FxHashSet<String>>,
    single_kept: ScoreCorpus,
)
    requires
        engine_repeats::<T, Q, D, C, O, P, K, E>(engine),
        reads_alternatives::<T, Q, D, C, O, P, K, E>(engine),
        group_settled::<T, Q, D, C, O, P, K, E>(slots, group, sets, kept, engine),
        group_settled::<T, Q, D, C, O, P, K, E>(
            single_slots,
            single,
            single_sets,
            single_kept,
            engine,
        ),
        group.slots@.len() > 0,
        single.index == group.index,
        single.slots@.len() == 1,
        single_slots[single.slots@[0] as int].key->0@ == group_key(slots, group.slots@),
    ensures
        single_sets.len() == 1,
        text_set(single_sets[0]) == found_texts(sets),
        single_kept.scores() == kept.scores(),
{
    let scores = lemma_came_to::<T, Q, D, C, O, P, K, E>(slots, group, sets, kept, engine);
    let other = lemma_came_to::<T, Q, D, C, O, P, K, E>(
        single_slots,
        single,
        single_sets,
        single_kept,
        engine,
    );
    let queries = group_queries(slots, group.slots@);
    let key = group_key(slots, group.slots@);
    assert(group_query(slots, group.slots@) == alternatives(queries)) by {
        assert(Seq::new(
            group.slots@.len(),
            |j: int| enclosed("("@, slots[group.slots@[j] as int].key->0.query@, ")"@),
        ) =~= queries.map_values(|query: Seq<char>| enclosed("("@, query, ")"@)));
    }
    lemma_single_query(single_slots, single.slots@);
    assert(group_key(single_slots, single.slots@) == in_parentheses(key));
    assert(scores == other);
    assert(group_queries(single_slots, single.slots@)[0] == alternatives(queries));
    assert forall|text: Seq<char>| text_set(single_sets[0]).contains(text) == found_texts(
        sets,
    ).contains(text) by {
        if scores.contains_key(text) {
            let whole = text_set(single_sets[0]).contains(text);
            let each = Seq::new(sets.len(), |j: int| text_set(sets[j]).contains(text));
            assert(queries.len() == sets.len());
            assert forall|j: int| 0 <= j < queries.len() implies says::<T, Q, D, C, O, P, K, E>(
                engine,
                group.index,
                #[trigger] queries[j],
                text,
                each[j],
            ) by {
                assert(says::<T, Q, D, C, O, P, K, E>(
                    engine,
                    group.index,
                    group_queries(slots, group.slots@)[j],
                    text,
                    text_set(sets[j]).contains(text),
                ));
            }
            assert(says_each::<T, Q, D, C, O, P, K, E>(engine, group.index, queries, text, each));
            assert(says::<T, Q, D, C, O, P, K, E>(
                engine,
                group.index,
                alternatives(queries),
                text,
                whole,
            ));
            assert(whole == each.contains(true));
            if whole {
                let j = each.index_of(true);
                assert(text_set(sets[j]).contains(text));
            }
            if in_some_set(sets, text) {
                let j = choose|j: int|
                    0 <= j < sets.len() && text_set(#[trigger] sets[j]).contains(text);
                assert(each[j]);
            }
        } else if in_some_set(sets, text) {
            let j = choose|j: int|
                0 <= j < sets.len() && text_set(#[trigger] sets[j]).contains(text);
            assert(false);
        }
    }
    assert(text_set(single_sets[0]) =~= found_texts(sets));
    assert forall|text: Seq<char>| in_some_set(single_sets, text) == text_set(
        single_sets[0],
    ).contains(text) by {
        if text_set(single_sets[0]).contains(text) {
            assert(in_some_set(single_sets, text));
        }
    }
    assert(found_texts(single_sets) =~= found_texts(sets));
}

/// A single query is put in parentheses.
pub proof fn lemma_single_query(slots: Seq<Slot>, group: Seq<usize>)
    requires
        group.len() == 1,
    ensures
        group_key(slots, group) == in_parentheses(slots[group[0] as int].key->0@),
{
    let parts = Seq::new(
        group.len(),
        |j: int| enclosed("("@, slots[group[j] as int].key->0.query@, ")"@),
    );
    assert(parts.last() == parts[0]);
    assert(joined(parts, " OR "@) =~= parts[0]);
}

/// An index has a group exactly when some slot with a query belongs to it.
pub proof fn lemma_group_of_slot(slots: Seq<Slot>, groups: Seq<Group>, index: u32)
    requires
        slots.len() <= usize::MAX,
        is_grouping(slots, groups),
    ensures
        has_group(groups, index) <==> exists|s: int|
            0 <= s < slots.len() && (#[trigger] slots[s]).key is Some && slots[s].index == index,
{
    if has_group(groups, index) {
        let g = choose|g: int| 0 <= g < groups.len() && (#[trigger] groups[g]).index == index;
        lemma_slots_of(slots, index);
        assert(groups[g].slots@ == slots_of(slots, index));
        let s = groups[g].slots@[0] as int;
        assert(slots[s].key is Some);
    }
}

/// Two groupings over the same indexes have the same indexes in the same places.
pub proof fn lemma_same_indexes(a: Seq<Slot>, groups: Seq<Group>, b: Seq<Slot>, others: Seq<Group>)
    requires
        a.len() <= usize::MAX,
        b.len() <= usize::MAX,
        is_grouping(a, groups),
        is_grouping(b, others),
        forall|index: u32| #[trigger] has_group(groups, index) <==> has_group(others, index),
    ensures
        groups.len() == others.len(),
        forall|g: int| 0 <= g < groups.len() ==> (#[trigger] groups[g]).index == others[g].index,
{
    let x = groups.map_values(|group: Group| group.index as int);
    let y = others.map_values(|group: Group| group.index as int);
    assert forall|i: int, j: int| 0 <= i < j < x.len() implies #[trigger] x[i]
        < #[trigger] x[j] by {
        assert(groups[i].index < groups[j].index);
    }
    assert forall|i: int, j: int| 0 <= i < j < y.len() implies #[trigger] y[i]
        < #[trigger] y[j] by {
        assert(others[i].index < others[j].index);
    }
    assert forall|n: int| #[trigger] x.contains(n) <==> y.contains(n) by {
        if x.contains(n) {
            let g = x.index_of(n);
            assert(x[g] == groups[g].index);
            assert(has_group(groups, groups[g].index));
            let h = choose|h: int|
                0 <= h < others.len() && (#[trigger] others[h]).index == groups[g].index;
            assert(y[h] == n);
        }
        if y.contains(n) {
            let g = y.index_of(n);
            assert(y[g] == others[g].index);
            assert(has_group(others, others[g].index));
            assert(has_group(groups, others[g].index));
            let h = choose|h: int|
                0 <= h < groups.len() && (#[trigger] groups[h]).index == others[g].index;
            assert(x[h] == n);
        }
    }
    lemma_ascending_unique(x, y);
    assert forall|g: int| 0 <= g < groups.len() implies (#[trigger] groups[g]).index
        == others[g].index by {
        assert(x[g] == y[g]);
    }
}

/// `b` are the slots `a` in another order. Slots of one index keep their order.
pub open spec fn same_slots_in_order(a: Seq<SlotView>, b: Seq<SlotView>, order: Seq<int>) -> bool {
    &&& reorders(order, a.len())
    &&& b == reordered(a, order)
    &&& forall|i: int, j: int|
        0 <= i < j < b.len() && (#[trigger] b[i]).index == (#[trigger] b[j]).index ==> order[i]
            < order[j]
}

/// The slots of an index in another order are the slots of the index.
proof fn lemma_reordered_group(
    a: Seq<Slot>,
    b: Seq<Slot>,
    order: Seq<int>,
    index: u32,
)
    requires
        a.len() <= usize::MAX,
        same_slots_in_order(slot_views(a), slot_views(b), order),
    ensures
        slots_of(a, index).len() == slots_of(b, index).len(),
        forall|j: int|
            0 <= j < slots_of(b, index).len() ==> slots_of(a, index)[j] == order[
                #[trigger] slots_of(b, index)[j] as int
            ],
{
    let one = slots_of(a, index);
    let two = slots_of(b, index);
    assert(slot_views(b).len() == b.len());
    assert(slot_views(a).len() == a.len());
    lemma_slots_of(a, index);
    lemma_slots_of(b, index);
    let x = one.map_values(|s: usize| s as int);
    let y = two.map_values(|s: usize| order[s as int]);
    assert forall|i: int| 0 <= i < b.len() implies #[trigger] slot_views(b)[i]
        == a[order[i]]@ && slot_views(b)[i] == b[i]@ by {
        assert(0 <= order[i] < a.len());
        assert(slot_views(b)[i] == slot_views(a)[order[i]]);
    }
    assert(ascends(x)) by {
        assert forall|i: int, j: int| 0 <= i < j < x.len() implies #[trigger] x[i]
            < #[trigger] x[j] by {
            assert(one[i] < one[j]);
        }
    }
    assert(ascends(y)) by {
        assert forall|i: int, j: int| 0 <= i < j < y.len() implies #[trigger] y[i]
            < #[trigger] y[j] by {
            let s = two[i] as int;
            let t = two[j] as int;
            assert(two[i] < two[j]);
            assert(slot_views(b)[s].index == index);
            assert(slot_views(b)[t].index == index);
        }
    }
    assert forall|n: int| #[trigger] x.contains(n) <==> y.contains(n) by {
        if x.contains(n) {
            let k = x.index_of(n);
            assert(one[k] == n);
            assert(a[n].key is Some && a[n].index == index);
            assert(order.contains(n));
            let i = order.index_of(n);
            assert(order[i] == n);
            assert(slot_views(b)[i] == a[n]@);
            assert(b[i].key is Some && b[i].index == index);
            assert(two.contains(i as usize));
            let l = two.index_of(i as usize);
            assert(y[l] == n);
        }
        if y.contains(n) {
            let k = y.index_of(n);
            let i = two[k] as int;
            assert(order[i] == n);
            assert(b[i].key is Some && b[i].index == index);
            assert(slot_views(b)[i] == a[n]@);
            assert(a[n].key is Some && a[n].index == index);
            assert(one.contains(n as usize));
            let l = one.index_of(n as usize);
            assert(x[l] == n);
        }
    }
    lemma_ascending_unique(x, y);
    assert(x.len() == one.len() && y.len() == two.len());
    assert forall|j: int| 0 <= j < two.len() implies one[j] == order[#[trigger] two[j] as int] by {
        assert(x[j] == y[j]);
    }
}

/// The same set of documents, or none on both sides.
pub open spec fn same_matches(a: Option<FxHashSet<String>>, b: Option<FxHashSet<String>>) -> bool {
    match (a, b) {
        (Some(x), Some(y)) => text_set(x) == text_set(y),
        (None, None) => true,
        _ => false,
    }
}

/// Columns in another order come to the same: each slot finds the documents that
/// it finds in its other place, and the scores of each index are the same, filed
/// under the same slot in its other place. The scores stand in the same order.
pub proof fn law_reordered_columns_come_to_the_same<
    T,
    Q,
    D,
    C: Fn(&CacheKey) -> ScoreCorpus,
    O: Fn(u32) -> T,
    P: Fn(&String, &T) -> Result<Q, String>,
    K: Fn(&String, &T) -> D,
    E: Fn(&Q, &D) -> Result<bool, String>,
>(
    engine: (C, O, P, K, E),
    a: Seq<Slot>,
    groups: Seq<Group>,
    fields: FieldCorpora,
    b: Seq<Slot>,
    others: Seq<Group>,
    other: FieldCorpora,
    order: Seq<int>,
)
    requires
        a.len() <= usize::MAX,
        engine_repeats::<T, Q, D, C, O, P, K, E>(engine),
        fields_built::<T, Q, D, C, O, P, K, E>(a, groups, fields, engine),
        fields_built::<T, Q, D, C, O, P, K, E>(b, others, other, engine),
        same_slots_in_order(slot_views(a), slot_views(b), order),
    ensures
        other.matches@.len() == fields.matches@.len(),
        forall|i: int|
            0 <= i < other.matches@.len() ==> same_matches(
                fields.matches@[order[i]],
                #[trigger] other.matches@[i],
            ),
        other.scored@.len() == fields.scored@.len(),
        forall|g: int|
            0 <= g < other.scored@.len() ==> {
                &&& (#[trigger] other.scored@[g]).0 < b.len()
                &&& fields.scored@[g].0 == order[other.scored@[g].0 as int]
                &&& fields.scored@[g].1.scores() == other.scored@[g].1.scores()
            },
{
    assert(slot_views(b).len() == b.len());
    assert(slot_views(a).len() == a.len());
    assert forall|i: int| 0 <= i < b.len() implies #[trigger] b[i]@ == a[order[i]]@ by {
        assert(0 <= order[i] < a.len());
        assert(slot_views(b)[i] == slot_views(a)[order[i]]);
    }
    assert forall|index: u32| #[trigger] has_group(groups, index) <==> has_group(
        others,
        index,
    ) by {
        lemma_group_of_slot(a, groups, index);
        lemma_group_of_slot(b, others, index);
        if has_group(groups, index) {
            let s = choose|s: int|
                0 <= s < a.len() && (#[trigger] a[s]).key is Some && a[s].index == index;
            assert(order.contains(s));
            let i = order.index_of(s);
            assert(b[i]@ == a[order[i]]@);
            assert(b[i].key is Some);
        }
        if has_group(others, index) {
            let i = choose|i: int|
                0 <= i < b.len() && (#[trigger] b[i]).key is Some && b[i].index == index;
            assert(b[i]@ == a[order[i]]@);
            assert(a[order[i]].key is Some);
        }
    }
    lemma_same_indexes(a, groups, b, others);
    assert forall|g: int| 0 <= g < others.len() implies {
        &&& groups[g].slots@.len() == (#[trigger] others[g]).slots@.len()
        &&& forall|j: int|
            0 <= j < others[g].slots@.len() ==> same_matches(
                fields.matches@[order[others[g].slots@[j] as int]],
                other.matches@[#[trigger] others[g].slots@[j] as int],
            )
        &&& other.scored@[g].0 < b.len()
        &&& fields.scored@[g].0 == order[other.scored@[g].0 as int]
        &&& fields.scored@[g].1.scores() == other.scored@[g].1.scores()
    } by {
        lemma_reordered_outcome::<T, Q, D, C, O, P, K, E>(
            engine,
            a,
            groups,
            fields,
            b,
            others,
            other,
            order,
            g,
        );
    }
    assert forall|i: int| 0 <= i < other.matches@.len() implies same_matches(
        fields.matches@[order[i]],
        #[trigger] other.matches@[i],
    ) by {
        assert(b[i]@ == a[order[i]]@);
        assert(fields.matches@[order[i]] is Some <==> a[order[i]].key is Some);
        if b[i].key is Some {
            lemma_group_of_slot(b, others, b[i].index);
            assert(has_group(others, b[i].index));
            let g = choose|g: int|
                0 <= g < others.len() && (#[trigger] others[g]).index == b[i].index;
            lemma_slots_of(b, b[i].index);
            assert(others[g].slots@.contains(i as usize));
            let j = others[g].slots@.index_of(i as usize);
            assert(others[g].slots@[j] == i);
        }
    }
    assert forall|g: int| 0 <= g < other.scored@.len() implies {
        &&& (#[trigger] other.scored@[g]).0 < b.len()
        &&& fields.scored@[g].0 == order[other.scored@[g].0 as int]
        &&& fields.scored@[g].1.scores() == other.scored@[g].1.scores()
    } by {
        assert(groups[g].slots@.len() == others[g].slots@.len());
    }
}

/// `law_reordered_columns_come_to_the_same` for one index.
proof fn lemma_reordered_outcome<
    T,
    Q,
    D,
    C: Fn(&CacheKey) -> ScoreCorpus,
    O: Fn(u32) -> T,
    P: Fn(&String, &T) -> Result<Q, String>,
    K: Fn(&String, &T) -> D,
    E: Fn(&Q, &D) -> Result<bool, String>,
>(
    engine: (C, O, P, K, E),
    a: Seq<Slot>,
    groups: Seq<Group>,
    fields: FieldCorpora,
    b: Seq<Slot>,
    others: Seq<Group>,
    other: FieldCorpora,
    order: Seq<int>,
    g: int,
)
    requires
        a.len() <= usize::MAX,
        engine_repeats::<T, Q, D, C, O, P, K, E>(engine),
        fields_built::<T, Q, D, C, O, P, K, E>(a, groups, fields, engine),
        fields_built::<T, Q, D, C, O, P, K, E>(b, others, other, engine),
        same_slots_in_order(slot_views(a), slot_views(b), order),
        groups.len() == others.len(),
        0 <= g < groups.len(),
        groups[g].index == others[g].index,
    ensures
        groups[g].slots@.len() == others[g].slots@.len(),
        forall|j: int|
            0 <= j < others[g].slots@.len() ==> same_matches(
                fields.matches@[order[others[g].slots@[j] as int]],
                other.matches@[#[trigger] others[g].slots@[j] as int],
            ),
        other.scored@[g].0 < b.len(),
        fields.scored@[g].0 == order[other.scored@[g].0 as int],
        fields.scored@[g].1.scores() == other.scored@[g].1.scores(),
{
    let group = groups[g];
    let mate = others[g];
    let index = group.index;
    assert(slot_views(b).len() == b.len());
    assert(slot_views(a).len() == a.len());
    assert(group.slots@ == slots_of(a, index));
    assert(mate.slots@ == slots_of(b, index));
    lemma_slots_of(a, index);
    lemma_slots_of(b, index);
    lemma_reordered_group(a, b, order, index);
    assert forall|j: int| 0 <= j < mate.slots@.len() implies {
        &&& group.slots@[j] == order[#[trigger] mate.slots@[j] as int]
        &&& mate.slots@[j] < b.len()
        &&& b[mate.slots@[j] as int].key is Some
        &&& a[group.slots@[j] as int].key is Some
        &&& b[mate.slots@[j] as int].key->0@ == a[group.slots@[j] as int].key->0@
    } by {
        let i = mate.slots@[j] as int;
        assert(slots_of(b, index)[j] == mate.slots@[j]);
        assert(slots_of(a, index)[j] == group.slots@[j]);
        assert(0 <= order[i] < a.len());
        assert(slot_views(b)[i] == slot_views(a)[order[i]]);
        assert(b[i]@ == a[order[i]]@);
    }
    let sets = fields.group_sets(group.slots@);
    let mates = other.group_sets(mate.slots@);
    assert(group_queries(a, group.slots@) =~= group_queries(b, mate.slots@)) by {
        assert forall|j: int| 0 <= j < mate.slots@.len() implies group_queries(
            a,
            group.slots@,
        )[j] == group_queries(b, mate.slots@)[j] by {
            let key = b[mate.slots@[j] as int].key->0;
            assert(key@.query == key.query@);
            let first = a[group.slots@[j] as int].key->0;
            assert(first@.query == first.query@);
        }
    }
    assert(group_query(a, group.slots@) == group_query(b, mate.slots@)) by {
        assert(Seq::new(
            group.slots@.len(),
            |j: int| enclosed("("@, a[group.slots@[j] as int].key->0.query@, ")"@),
        ) =~= Seq::new(
            mate.slots@.len(),
            |j: int| enclosed("("@, b[mate.slots@[j] as int].key->0.query@, ")"@),
        )) by {
            assert forall|j: int| 0 <= j < mate.slots@.len() implies #[trigger] enclosed(
                "("@,
                a[group.slots@[j] as int].key->0.query@,
                ")"@,
            ) == enclosed("("@, b[mate.slots@[j] as int].key->0.query@, ")"@) by {
                assert(group_queries(a, group.slots@)[j] == group_queries(b, mate.slots@)[j]);
            }
        }
    }
    assert(mate.slots@.len() > 0);
    assert(b[mate.slots@[0] as int].key->0@ == a[group.slots@[0] as int].key->0@);
    assert(group_key(a, group.slots@) == group_key(b, mate.slots@));
    law_same_queries_same_outcome::<T, Q, D, C, O, P, K, E>(
        engine,
        a,
        group,
        sets,
        fields.scored@[g].1,
        b,
        mate,
        mates,
        other.scored@[g].1,
    );
    assert forall|j: int| 0 <= j < mate.slots@.len() implies same_matches(
        fields.matches@[order[mate.slots@[j] as int]],
        other.matches@[#[trigger] mate.slots@[j] as int],
    ) by {
        assert(sets[j] == fields.matches@[group.slots@[j] as int]->0);
        assert(mates[j] == other.matches@[mate.slots@[j] as int]->0);
        assert(text_set(sets[j]) == text_set(mates[j]));
        assert(other.matches@[mate.slots@[j] as int] is Some);
        assert(fields.matches@[group.slots@[j] as int] is Some);
    }
    assert(other.scored@[g].0 == mate.slots@[0]);
    assert(fields.scored@[g].0 == group.slots@[0]);
}

/// What the slots of an index have found, and what is kept of its scores: all
/// documents of the index were scored under the key that joins its queries, and each
/// slot found those of them on which the engine said, for the slot's own query and
/// under the slot's own index, that it matches. Kept are the scores of those that
/// some slot of the index found, as the engine gave them.
pub proof fn law_slots_find_what_their_query_matches<
    T,
    Q,
    D,
    C: Fn(&CacheKey) -> ScoreCorpus,
    O: Fn(u32) -> T,
    P: Fn(&String, &T) -> Result<Q, String>,
    K: Fn(&String, &T) -> D,
    E: Fn(&Q, &D) -> Result<bool, String>,
>(
    engine: (C, O, P, K, E),
    slots: Seq<Slot>,
    groups: Seq<Group>,
    fields: FieldCorpora,
    g: int,
) -> (scores: Map<Seq<char>, u32>)
    requires
        slots.len() <= usize::MAX,
        fields_built::<T, Q, D, C, O, P, K, E>(slots, groups, fields, engine),
        0 <= g < groups.len(),
    ensures
        scores_as(engine.0, group_key(slots, groups[g].slots@), scores),
        fields.scored@.len() == groups.len(),
        fields.scored@[g].0 == groups[g].slots@[0],
        forall|s: int|
            0 <= s < slots.len() && (#[trigger] slots[s]).key is Some && slots[s].index
                == groups[g].index ==> {
                &&& fields.matches@[s] is Some
                &&& forall|text: Seq<char>|
                    scores.contains_key(text) ==> says::<T, Q, D, C, O, P, K, E>(
                        engine,
                        slots[s].index,
                        slots[s].key->0.query@,
                        text,
                        #[trigger] text_set(fields.matches@[s]->0).contains(text),
                    )
                &&& forall|text: Seq<char>|
                    #[trigger] text_set(fields.matches@[s]->0).contains(text)
                        ==> scores.contains_key(text)
            },
        forall|text: Seq<char>| #[trigger]
            fields.scored@[g].1.scores().contains_key(text) ==> scores.contains_key(text)
                && fields.scored@[g].1.scores()[text] == scores[text],
{
    let group = groups[g];
    let sets = fields.group_sets(group.slots@);
    let scores = lemma_came_to::<T, Q, D, C, O, P, K, E>(
        slots,
        group,
        sets,
        fields.scored@[g].1,
        engine,
    );
    lemma_slots_of(slots, group.index);
    assert(group.slots@ == slots_of(slots, group.index));
    assert forall|s: int|
        0 <= s < slots.len() && (#[trigger] slots[s]).key is Some && slots[s].index
            == group.index implies {
        &&& fields.matches@[s] is Some
        &&& forall|text: Seq<char>|
            scores.contains_key(text) ==> says::<T, Q, D, C, O, P, K, E>(
                engine,
                slots[s].index,
                slots[s].key->0.query@,
                text,
                #[trigger] text_set(fields.matches@[s]->0).contains(text),
            )
        &&& forall|text: Seq<char>|
            #[trigger] text_set(fields.matches@[s]->0).contains(text) ==> scores.contains_key(text)
    } by {
        assert(group.slots@.contains(s as usize));
        let j = group.slots@.index_of(s as usize);
        assert(group.slots@[j] == s);
        assert(fields.matches@[s] is Some);
        assert(sets[j] == fields.matches@[s]->0);
        assert(group_queries(slots, group.slots@)[j] == slots[s].key->0.query@);
        assert forall|text: Seq<char>| scores.contains_key(text) implies says::<T, Q, D, C, O, P, K, E>(
            engine,
            slots[s].index,
            slots[s].key->0.query@,
            text,
            #[trigger] text_set(fields.matches@[s]->0).contains(text),
        ) by {
            assert(text_set(sets[j]).contains(text) == text_set(fields.matches@[s]->0).contains(
                text,
            ));
        }
        assert forall|text: Seq<char>|
            #[trigger] text_set(fields.matches@[s]->0).contains(
                text,
            ) implies scores.contains_key(text) by {
            assert(text_set(sets[j]).contains(text));
        }
    }
    scores
}

/// Columns that were worked through have a group for each index with a query, a set
/// for each slot with a query and none for the others; and each query was read with
/// a tokenizer of its own index.
pub proof fn law_every_query_was_read<
    T,
    Q,
    D,
    C: Fn(&CacheKey) -> ScoreCorpus,
    O: Fn(u32) -> T,
    P: Fn(&String, &T) -> Result<Q, String>,
    K: Fn(&String, &T) -> D,
    E: Fn(&Q, &D) -> Result<bool, String>,
>(
    engine: (C, O, P, K, E),
    slots: Seq<Slot>,
    groups: Seq<Group>,
    fields: FieldCorpora,
    s: int,
)
    requires
        slots.len() <= usize::MAX,
        fields_built::<T, Q, D, C, O, P, K, E>(slots, groups, fields, engine),
        0 <= s < slots.len(),
    ensures
        is_grouping(slots, groups),
        fields.matches@.len() == slots.len(),
        fields.matches@[s] is Some <==> slots[s].key is Some,
        slots[s].key is Some ==> exists|tokenizer: T, parsed: Q|
            {
                &&& #[trigger] engine.1.ensures((slots[s].index,), tokenizer)
                &&& #[trigger] engine.2.ensures((&slots[s].key->0.query, &tokenizer), Ok(parsed))
            },
{
    assert(fields.matches@[s] is Some <==> slots[s].key is Some);
    if slots[s].key is Some {
        assert(has_group(groups, slots[s].index));
        let g = choose|g: int|
            0 <= g < groups.len() && (#[trigger] groups[g]).index == slots[s].index;
        let group = groups[g];
        let sets = fields.group_sets(group.slots@);
        lemma_slots_of(slots, group.index);
        assert(group.slots@ == slots_of(slots, group.index));
        assert(group.slots@.contains(s as usize));
        let j = group.slots@.index_of(s as usize);
        assert(group.slots@[j] == s);
        let (key, corpus, tokenizer, queries) = choose|
            key: CacheKey,
            corpus: ScoreCorpus,
            tokenizer: T,
            queries: Seq<Q>,
        | #[trigger]
            settles::<T, Q, D, C, O, P, K, E>(
                slots,
                group,
                sets,
                fields.scored@[g].1,
                engine,
                key,
                corpus,
                tokenizer,
                queries,
            );
        assert(engine.1.ensures((slots[s].index,), tokenizer));
        assert(engine.2.ensures((&slots[s].key->0.query, &tokenizer), Ok(queries[j])));
    }
}

/// The query of the slot can be read with a tokenizer of its index.
pub open spec fn can_be_read<
    T,
    Q,
    D,
    C: Fn(&CacheKey) -> ScoreCorpus,
    O: Fn(u32) -> T,
    P: Fn(&String, &T) -> Result<Q, String>,
    K: Fn(&String, &T) -> D,
    E: Fn(&Q, &D) -> Result<bool, String>,
>(engine: (C, O, P, K, E), slot: Slot) -> bool {
    exists|tokenizer: T, parsed: Q|
        {
            &&& #[trigger] engine.1.ensures((slot.index,), tokenizer)
            &&& #[trigger] engine.2.ensures((&slot.key->0.query, &tokenizer), Ok(parsed))
        }
}

/// The queries of an index that was worked through can be read.
proof fn lemma_worked_through_is_read<
    T,
    Q,
    D,
    C: Fn(&CacheKey) -> ScoreCorpus,
    O: Fn(u32) -> T,
    P: Fn(&String, &T) -> Result<Q, String>,
    K: Fn(&String, &T) -> D,
    E: Fn(&Q, &D) -> Result<bool, String>,
>(engine: (C, O, P, K, E), slots: Seq<Slot>, group: Group, s: int)
    requires
        slots.len() <= usize::MAX,
        group.slots@ == slots_of(slots, group.index),
        works_through::<T, Q, D, C, O, P, K, E>(slots, group, engine),
        0 <= s < slots.len(),
        slots[s].key is Some,
        slots[s].index == group.index,
    ensures
        can_be_read::<T, Q, D, C, O, P, K, E>(engine, slots[s]),
{
    lemma_slots_of(slots, group.index);
    assert(group.slots@.contains(s as usize));
    let j = group.slots@.index_of(s as usize);
    assert(group.slots@[j] == s);
    let (sets, kept) = choose|sets: Seq<FxHashSet<String>>, kept: ScoreCorpus| #[trigger]
        group_settled::<T, Q, D, C, O, P, K, E>(slots, group, sets, kept, engine);
    let (key, corpus, tokenizer, queries) = choose|
        key: CacheKey,
        corpus: ScoreCorpus,
        tokenizer: T,
        queries: Seq<Q>,
    | #[trigger]
        settles::<T, Q, D, C, O, P, K, E>(
            slots,
            group,
            sets,
            kept,
            engine,
            key,
            corpus,
            tokenizer,
            queries,
        );
    assert(engine.1.ensures((slots[s].index,), tokenizer));
    assert(engine.2.ensures((&slots[s].key->0.query, &tokenizer), Ok(queries[j])));
}

/// The text is one of the documents that the engine scored for an index, under the
/// key that joins the queries on it.
pub open spec fn is_scored<C: Fn(&CacheKey) -> ScoreCorpus>(
    score: C,
    slots: Seq<Slot>,
    index: u32,
    text: Seq<char>,
) -> bool {
    exists|scores: Map<Seq<char>, u32>| #[trigger]
        scores_as(score, group_key(slots, slots_of(slots, index)), scores) && scores.contains_key(
            text,
        )
}

/// Every slot with a query that belongs to a lower index can be read.
pub open spec fn lower_are_read<
    T,
    Q,
    D,
    C: Fn(&CacheKey) -> ScoreCorpus,
    O: Fn(u32) -> T,
    P: Fn(&String, &T) -> Result<Q, String>,
    K: Fn(&String, &T) -> D,
    E: Fn(&Q, &D) -> Result<bool, String>,
>(engine: (C, O, P, K, E), slots: Seq<Slot>, index: u32) -> bool {
    forall|t: int|
        0 <= t < slots.len() && (#[trigger] slots[t]).key is Some && slots[t].index < index
            ==> can_be_read::<T, Q, D, C, O, P, K, E>(engine, slots[t])
}

/// Work on the columns stops for two reasons only, and each has its own error: a
/// query that its index's tokenizer cannot read, or a query that cannot be evaluated
/// on a document of its index. It is the first such failure in ascending order of
/// the indexes, and within an index reading comes before evaluating.
pub proof fn law_failed_columns_have_their_cause<
    T,
    Q,
    D,
    C: Fn(&CacheKey) -> ScoreCorpus,
    O: Fn(u32) -> T,
    P: Fn(&String, &T) -> Result<Q, String>,
    K: Fn(&String, &T) -> D,
    E: Fn(&Q, &D) -> Result<bool, String>,
>(
    engine: (C, O, P, K, E),
    slots: Seq<Slot>,
    error: ScoreError,
)
    requires
        slots.len() <= usize::MAX,
        fields_failed::<T, Q, D, C, O, P, K, E>(slots, error, engine),
    ensures
        error is Query || error is Evaluation,
        error is Query ==> exists|s: int, tokenizer: T|
            {
                &&& 0 <= s < slots.len()
                &&& (#[trigger] slots[s]).key is Some
                &&& #[trigger] engine.1.ensures((slots[s].index,), tokenizer)
                &&& engine.2.ensures((&slots[s].key->0.query, &tokenizer), Err(error->Query_0))
                &&& lower_are_read::<T, Q, D, C, O, P, K, E>(engine, slots, slots[s].index)
                &&& forall|t: int|
                    0 <= t < s && (#[trigger] slots[t]).key is Some && slots[t].index
                        == slots[s].index ==> can_be_read::<T, Q, D, C, O, P, K, E>(engine, slots[t])
            },
        error is Evaluation ==> exists|s: int, tokenizer: T, parsed: Q, source: String, document: D|
            {
                &&& 0 <= s < slots.len()
                &&& slots[s].key is Some
                &&& engine.1.ensures((slots[s].index,), tokenizer)
                &&& #[trigger] engine.2.ensures(
                    (&slots[s].key->0.query, &tokenizer),
                    Ok(parsed),
                )
                &&& #[trigger] engine.3.ensures((&source, &tokenizer), document)
                &&& engine.4.ensures((&parsed, &document), Err(error->Evaluation_0))
                &&& is_scored(engine.0, slots, slots[s].index, source@)
                &&& lower_are_read::<T, Q, D, C, O, P, K, E>(engine, slots, slots[s].index)
                &&& forall|t: int|
                    0 <= t < slots.len() && (#[trigger] slots[t]).key is Some && slots[t].index
                        == slots[s].index ==> can_be_read::<T, Q, D, C, O, P, K, E>(engine, slots[t])
            },
{
    let (groups, at) = choose|groups: Seq<Group>, at: int|
        {
            &&& is_grouping(slots, groups)
            &&& 0 <= at < groups.len()
            &&& #[trigger] group_failed::<T, Q, D, C, O, P, K, E>(slots, groups[at], error, engine)
            &&& forall|h: int|
                0 <= h < at ==> works_through::<T, Q, D, C, O, P, K, E>(slots, #[trigger] groups[h], engine)
        };
    let group = groups[at];
    lemma_slots_of(slots, group.index);
    assert(group.slots@ == slots_of(slots, group.index));
    assert(lower_are_read::<T, Q, D, C, O, P, K, E>(engine, slots, group.index)) by {
        assert forall|t: int|
            0 <= t < slots.len() && (#[trigger] slots[t]).key is Some && slots[t].index
                < group.index implies can_be_read::<T, Q, D, C, O, P, K, E>(engine, slots[t]) by {
            assert(has_group(groups, slots[t].index));
            let h = choose|h: int|
                0 <= h < groups.len() && (#[trigger] groups[h]).index == slots[t].index;
            if h > at {
                assert(groups[at].index < groups[h].index);
            }
            assert(h < at);
            assert(works_through::<T, Q, D, C, O, P, K, E>(slots, groups[h], engine));
            lemma_worked_through_is_read::<T, Q, D, C, O, P, K, E>(engine, slots, groups[h], t);
        }
    }
    if error is Query {
        let message = error->Query_0;
        let (tokenizer, j) = choose|tokenizer: T, j: int|
            {
                &&& 0 <= j < group.slots@.len()
                &&& #[trigger] engine.1.ensures((group.index,), tokenizer)
                &&& engine.2.ensures(
                    (&slots[#[trigger] group.slots@[j] as int].key->0.query, &tokenizer),
                    Err(message),
                )
                &&& forall|i: int|
                    0 <= i < j ==> reads_query::<T, Q, P>(
                        slots[#[trigger] group.slots@[i] as int],
                        tokenizer,
                        engine.2,
                    )
            };
        let s = group.slots@[j] as int;
        assert(slots_of(slots, group.index)[j] == group.slots@[j]);
        assert(slots[s].key is Some && slots[s].index == group.index);
        assert(engine.1.ensures((slots[s].index,), tokenizer));
        assert forall|t: int|
            0 <= t < s && (#[trigger] slots[t]).key is Some && slots[t].index
                == slots[s].index implies can_be_read::<T, Q, D, C, O, P, K, E>(engine, slots[t]) by {
            assert(group.slots@.contains(t as usize));
            let i = group.slots@.index_of(t as usize);
            assert(group.slots@[i] == t);
            if i > j {
                assert(slots_of(slots, group.index)[j] < slots_of(slots, group.index)[i]);
            }
            assert(i < j);
            assert(reads_query::<T, Q, P>(
                slots[group.slots@[i] as int],
                tokenizer,
                engine.2,
            ));
            let parsed = choose|parsed: Q| #[trigger]
                engine.2.ensures((&slots[t].key->0.query, &tokenizer), Ok(parsed));
            assert(engine.1.ensures((slots[t].index,), tokenizer));
        }
    }
    if error is Evaluation {
        let message = error->Evaluation_0;
        assert(evaluation_failed::<T, Q, D, C, O, P, K, E>(slots, group, message, engine));
        let (corpus, tokenizer, queries, j, source, document) = choose|
            corpus: ScoreCorpus,
            tokenizer: T,
            queries: Seq<Q>,
            j: int,
            source: String,
            document: D,
        | #[trigger]
            fails::<T, Q, D, C, O, P, K, E>(
                slots,
                group,
                message,
                engine,
                corpus,
                tokenizer,
                queries,
                j,
                source,
                document,
            );
        let s = group.slots@[j] as int;
        assert(slots_of(slots, group.index)[j] == group.slots@[j]);
        assert(slots[s].key is Some && slots[s].index == group.index);
        assert(engine.2.ensures((&slots[s].key->0.query, &tokenizer), Ok(queries[j])));
        assert(engine.3.ensures((&source, &tokenizer), document));
        assert(scores_as(engine.0, group_key(slots, group.slots@), corpus.scores()));
        assert(is_scored(engine.0, slots, slots[s].index, source@));
        assert forall|t: int|
            0 <= t < slots.len() && (#[trigger] slots[t]).key is Some && slots[t].index
                == slots[s].index implies can_be_read::<T, Q, D, C, O, P, K, E>(engine, slots[t]) by {
            assert(group.slots@.contains(t as usize));
            let i = group.slots@.index_of(t as usize);
            assert(group.slots@[i] == t);
            assert(engine.1.ensures((slots[t].index,), tokenizer));
            assert(engine.2.ensures((&slots[t].key->0.query, &tokenizer), Ok(queries[i])));
        }
    }
}

/// The scorer of an index is given what the request says: its table, the index, the
/// policy, the parameters, and the added and replaced terms.
pub proof fn law_scorer_is_given_the_request<
    T,
    Q,
    D,
    C: Fn(&CacheKey) -> ScoreCorpus,
    O: Fn(u32) -> T,
    P: Fn(&String, &T) -> Result<Q, String>,
    K: Fn(&String, &T) -> D,
    E: Fn(&Q, &D) -> Result<bool, String>,
>(
    engine: (C, O, P, K, E),
    request: ScoreRequest,
    session: Session,
    slots: Seq<Slot>,
    groups: Seq<Group>,
    fields: FieldCorpora,
    g: int,
) -> (asked: (CacheKey, ScoreCorpus))
    requires
        slots.len() <= usize::MAX,
        slot_views(slots) == request.slots(session),
        fields_built::<T, Q, D, C, O, P, K, E>(slots, groups, fields, engine),
        0 <= g < groups.len(),
    ensures
        engine.0.ensures((&asked.0,), asked.1),
        forall|text: Seq<char>| #[trigger]
            fields.scored@[g].1.scores().contains_key(text) ==> asked.1.scores().contains_key(text)
                && fields.scored@[g].1.scores()[text] == asked.1.scores()[text],
        asked.0.transaction == session.transaction,
        asked.0.command == session.command,
        asked.0.heap_oid == request.heap_oid as u32,
        asked.0.index_oid == groups[g].index,
        asked.0.full <==> request.mode == 1 || request.mode == 3,
        request.dense_ratio is Some ==> asked.0.dense == request.dense_ratio->0,
        request.dense_ratio is None ==> asked.0.dense == session.default_dense_ratio,
        asked.0.k1 == request.k1,
        asked.0.b == request.b,
        asked.0.add.deep_view() == request.term_add.deep_view(),
        asked.0.replace.deep_view() == request.term_replace.deep_view(),
{
    let group = groups[g];
    let scores = law_slots_find_what_their_query_matches::<T, Q, D, C, O, P, K, E>(
        engine,
        slots,
        groups,
        fields,
        g,
    );
    let (key, corpus) = choose|key: CacheKey, corpus: ScoreCorpus|
        {
            &&& key@ == group_key(slots, group.slots@)
            &&& #[trigger] engine.0.ensures((&key,), corpus)
            &&& corpus.scores() == scores
        };
    lemma_slots_of(slots, group.index);
    assert(group.slots@ == slots_of(slots, group.index));
    let s = group.slots@[0] as int;
    assert(slots_of(slots, group.index)[0] == group.slots@[0]);
    assert(slots[s].key is Some && slots[s].index == group.index);
    assert(slot_views(slots).len() == slots.len());
    assert(request.slots(session).len() == request.indexes@.len());
    law_slots_carry_the_request(request, session, slots, s);
    (key, corpus)
}

} // verus!
