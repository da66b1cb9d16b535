//! The scored documents of each column, and which of them each query matches.

use rustc_hash::{FxHashMap, FxHashSet};
use vstd::prelude::*;

use crate::collections::{
    found_texts, in_some_set, insert_text, new_text_set, retain_found, score_map, scored_texts,
    text_set,
};
use crate::keys::{
    copy_key, law_slots_carry_the_request, slot_views, CacheKey, CacheKeyView, ScoreError,
    ScoreRequest, Session, Slot,
};
use crate::text::{enclose, enclosed, join, joined, law_parts_are_joined};

verus! {

/// The slots that share an index, in ascending order.
#[derive(Debug)]
pub struct Group {
    pub index: u32,
    pub slots: Vec<usize>,
}

/// The slots with a query on this index, in ascending order.
pub open spec fn slots_of(slots: Seq<Slot>, index: u32) -> Seq<usize>
    decreases slots.len(),
{
    if slots.len() == 0 {
        Seq::empty()
    } else {
        let before = slots_of(slots.drop_last(), index);
        if slots.last().key is Some && slots.last().index == index {
            before.push((slots.len() - 1) as usize)
        } else {
            before
        }
    }
}

/// Some group is for this index.
pub open spec fn has_group(groups: Seq<Group>, index: u32) -> bool {
    exists|g: int| 0 <= g < groups.len() && (#[trigger] groups[g]).index == index
}

/// The slots that have a query, grouped by index: one group for each index,
/// indexes ascending, each with all its slots.
pub open spec fn is_grouping(slots: Seq<Slot>, groups: Seq<Group>) -> bool {
    &&& forall|g: int, h: int|
        0 <= g < h < groups.len() ==> (#[trigger] groups[g]).index < (#[trigger] groups[h]).index
    &&& forall|g: int|
        0 <= g < groups.len() ==> {
            &&& (#[trigger] groups[g]).slots@ == slots_of(slots, groups[g].index)
            &&& groups[g].slots@.len() > 0
        }
    &&& forall|s: int|
        0 <= s < slots.len() && (#[trigger] slots[s]).key is Some ==> has_group(
            groups,
            slots[s].index,
        )
}

/// Groups the slots that have a query by index.
pub fn group_slots(slots: &Vec<Slot>) -> (groups: Vec<Group>)
    ensures
        is_grouping(slots@, groups@),
{
    let mut groups: Vec<Group> = Vec::new();
    let mut at: usize = 0;
    while at < slots.len()
        invariant
            at <= slots@.len(),
            is_grouping(slots@.take(at as int), groups@),
        decreases slots@.len() - at,
    {
        let ghost seen = slots@.take(at as int);
        let ghost more = slots@.take(at + 1);
        proof {
            assert(more.drop_last() =~= seen);
            assert(more.last() == slots@[at as int]);
            assert(forall|i: int| 0 <= i < seen.len() ==> #[trigger] more[i] == seen[i]);
        }
        if slots[at].key.is_some() {
            let index: u32 = slots[at].index;
            let mut place: usize = 0;
            while place < groups.len() && groups[place].index < index
                invariant
                    place <= groups@.len(),
                    forall|g: int| 0 <= g < place ==> (#[trigger] groups@[g]).index < index,
                decreases groups@.len() - place,
            {
                place = place + 1;
            }
            let ghost before = groups@;
            if place < groups.len() && groups[place].index == index {
                groups[place].slots.push(at);
                proof {
                    assert(groups@.len() == before.len());
                    assert(groups@[place as int].index == index);
                    assert(groups@[place as int].slots@ == before[place as int].slots@.push(at));
                    assert forall|g: int| 0 <= g < groups@.len() && g != place implies groups@[g]
                        == before[g] by {}
                    assert forall|g: int| 0 <= g < groups@.len() implies {
                        &&& (#[trigger] groups@[g]).slots@ == slots_of(more, groups@[g].index)
                        &&& groups@[g].slots@.len() > 0
                    } by {
                        assert(before[g].slots@ == slots_of(seen, before[g].index));
                    }
                    assert forall|s: int|
                        0 <= s < more.len() && (#[trigger] more[s]).key is Some implies has_group(
                        groups@,
                        more[s].index,
                    ) by {
                        if s < seen.len() {
                            assert(seen[s].key is Some);
                            let g = choose|g: int|
                                0 <= g < before.len() && (#[trigger] before[g]).index
                                    == seen[s].index;
                            assert(groups@[g].index == seen[s].index);
                        } else {
                            assert(groups@[place as int].index == more[s].index);
                        }
                    }
                    assert forall|g: int, h: int| 0 <= g < h < groups@.len() implies (
                    #[trigger] groups@[g]).index < (#[trigger] groups@[h]).index by {
                        assert(before[g].index < before[h].index);
                    }
                }
            } else {
                let mut own: Vec<usize> = Vec::new();
                own.push(at);
                proof {
                    assert forall|g: int| place <= g < before.len() implies (
                    #[trigger] before[g]).index > index by {
                        if g > place {
                            assert(before[place as int].index < before[g].index);
                        }
                    }
                    lemma_no_slots(seen, before, index);
                }
                groups.insert(place, Group { index, slots: own });
                proof {
                    assert(groups@[place as int].slots@ =~= seq![at]);
                    assert(slots_of(more, index) =~= seq![at]);
                    assert forall|g: int| 0 <= g < groups@.len() implies #[trigger] groups@[g]
                        == if g < place {
                        before[g]
                    } else if g == place {
                        groups@[place as int]
                    } else {
                        before[g - 1]
                    } by {}
                    assert forall|g: int| 0 <= g < groups@.len() implies {
                        &&& (#[trigger] groups@[g]).slots@ == slots_of(more, groups@[g].index)
                        &&& groups@[g].slots@.len() > 0
                    } by {
                        if g < place {
                            assert(before[g].slots@ == slots_of(seen, before[g].index));
                        } else if g > place {
                            assert(before[g - 1].slots@ == slots_of(seen, before[g - 1].index));
                        }
                    }
                    assert forall|s: int|
                        0 <= s < more.len() && (#[trigger] more[s]).key is Some implies has_group(
                        groups@,
                        more[s].index,
                    ) by {
                        if s < seen.len() {
                            assert(seen[s].key is Some);
                            let g = choose|g: int|
                                0 <= g < before.len() && (#[trigger] before[g]).index
                                    == seen[s].index;
                            if g < place {
                                assert(groups@[g].index == seen[s].index);
                            } else {
                                assert(groups@[g + 1].index == seen[s].index);
                            }
                        } else {
                            assert(groups@[place as int].index == more[s].index);
                        }
                    }
                    assert forall|g: int, h: int| 0 <= g < h < groups@.len() implies (
                    #[trigger] groups@[g]).index < (#[trigger] groups@[h]).index by {
                        if g < place && h < place {
                            assert(before[g].index < before[h].index);
                        } else if g > place && h > place {
                            assert(before[g - 1].index < before[h - 1].index);
                        } else if g < place && h > place {
                            assert(before[g].index < index);
                            assert(before[h - 1].index > index);
                        }
                    }
                }
            }
        } else {
            proof {
                assert forall|g: int| 0 <= g < groups@.len() implies {
                    &&& (#[trigger] groups@[g]).slots@ == slots_of(more, groups@[g].index)
                    &&& groups@[g].slots@.len() > 0
                } by {
                    assert(groups@[g].slots@ == slots_of(seen, groups@[g].index));
                }
                assert forall|s: int|
                    0 <= s < more.len() && (#[trigger] more[s]).key is Some implies has_group(
                    groups@,
                    more[s].index,
                ) by {
                    assert(s < seen.len());
                    assert(seen[s].key is Some);
                }
            }
        }
        at = at + 1;
    }
    assert(slots@.take(at as int) =~= slots@);
    groups
}

/// An index without a group has no slots.
proof fn lemma_no_slots(slots: Seq<Slot>, groups: Seq<Group>, index: u32)
    requires
        is_grouping(slots, groups),
        !has_group(groups, index),
    ensures
        slots_of(slots, index) == Seq::<usize>::empty(),
{
    assert forall|s: int| 0 <= s < slots.len() implies !((#[trigger] slots[s]).key is Some
        && slots[s].index == index) by {
        if slots[s].key is Some && slots[s].index == index {
            assert(has_group(groups, slots[s].index));
        }
    }
    lemma_slots_of_absent(slots, index);
}

proof fn lemma_slots_of_absent(slots: Seq<Slot>, index: u32)
    requires
        forall|s: int|
            0 <= s < slots.len() ==> !((#[trigger] slots[s]).key is Some && slots[s].index == index),
    ensures
        slots_of(slots, index) == Seq::<usize>::empty(),
    decreases slots.len(),
{
    if slots.len() > 0 {
        assert forall|s: int| 0 <= s < slots.drop_last().len() implies !((
        #[trigger] slots.drop_last()[s]).key is Some && slots.drop_last()[s].index == index) by {
            assert(slots.drop_last()[s] == slots[s]);
        }
        lemma_slots_of_absent(slots.drop_last(), index);
        assert(slots[slots.len() - 1] == slots.last());
    }
}

/// The slots of an index exist, have a query, belong to it and ascend; and every
/// such slot is among them.
pub proof fn lemma_slots_of(slots: Seq<Slot>, index: u32)
    requires
        slots.len() <= usize::MAX,
    ensures
        forall|j: int|
            0 <= j < slots_of(slots, index).len() ==> {
                let s = #[trigger] slots_of(slots, index)[j];
                s < slots.len() && slots[s as int].key is Some && slots[s as int].index == index
            },
        forall|j: int, k: int|
            0 <= j < k < slots_of(slots, index).len() ==> #[trigger] slots_of(slots, index)[j]
                < #[trigger] slots_of(slots, index)[k],
        forall|s: int|
            0 <= s < slots.len() && (#[trigger] slots[s]).key is Some && slots[s].index == index
                ==> slots_of(slots, index).contains(s as usize),
    decreases slots.len(),
{
    if slots.len() > 0 {
        let front = slots.drop_last();
        lemma_slots_of(front, index);
        let before = slots_of(front, index);
        let all = slots_of(slots, index);
        assert forall|j: int| 0 <= j < all.len() implies {
            let s = #[trigger] all[j];
            s < slots.len() && slots[s as int].key is Some && slots[s as int].index == index
        } by {
            if j < before.len() {
                let s = before[j];
                assert(all[j] == s);
                assert(front[s as int] == slots[s as int]);
            }
        }
        assert forall|j: int, k: int| 0 <= j < k < all.len() implies #[trigger] all[j]
            < #[trigger] all[k] by {
            assert(before[j] == all[j]);
            if k < before.len() {
                assert(before[k] == all[k]);
            }
        }
        assert forall|s: int|
            0 <= s < slots.len() && (#[trigger] slots[s]).key is Some && slots[s].index
                == index implies all.contains(s as usize) by {
            if s < front.len() {
                assert(front[s].key is Some);
                assert(before.contains(s as usize));
                let j = before.index_of(s as usize);
                assert(all[j] == s as usize);
            } else {
                assert(all[all.len() - 1] == s as usize);
            }
        }
    }
}

/// The scores of the documents of one column.
#[derive(Debug)]
pub struct ScoreCorpus {
    pub by_document: FxHashMap<String, u32>,
}

impl ScoreCorpus {
    /// The score of each document.
    pub open spec fn scores(self) -> Map<Seq<char>, u32> {
        score_map(self.by_document)
    }
}

/// The queries of the slots, each in parentheses, as alternatives.
pub open spec fn group_query(slots: Seq<Slot>, group: Seq<usize>) -> Seq<char> {
    joined(
        Seq::new(
            group.len(),
            |j: int| enclosed("("@, slots[group[j] as int].key->0.query@, ")"@),
        ),
        " OR "@,
    )
}

/// The key under which the slots of an index are scored together.
pub open spec fn group_key(slots: Seq<Slot>, group: Seq<usize>) -> CacheKeyView {
    CacheKeyView { query: group_query(slots, group), ..slots[group[0] as int].key->0@ }
}

/// The slots exist and have a query.
pub open spec fn is_group(slots: Seq<Slot>, group: Seq<usize>) -> bool {
    &&& group.len() > 0
    &&& forall|j: int|
        0 <= j < group.len() ==> (#[trigger] group[j]) < slots.len() && slots[group[j] as int].key is Some
}

/// Makes the key under which the slots of an index are scored together.
pub fn combine_keys(slots: &Vec<Slot>, group: &Vec<usize>) -> (key: CacheKey)
    requires
        is_group(slots@, group@),
    ensures
        key@ == group_key(slots@, group@),
{
    let mut queries: Vec<String> = Vec::new();
    let ghost parts = Seq::new(
        group@.len(),
        |j: int| enclosed("("@, slots@[group@[j] as int].key->0.query@, ")"@),
    );
    let mut at: usize = 0;
    while at < group.len()
        invariant
            at <= group@.len(),
            is_group(slots@, group@),
            queries@.len() == at,
            forall|j: int|
                0 <= j < at ==> (#[trigger] queries@[j])@ == enclosed(
                    "("@,
                    slots@[group@[j] as int].key->0.query@,
                    ")"@,
                ),
        decreases group@.len() - at,
    {
        assert(group@[at as int] < slots@.len());
        if let Some(key) = &slots[group[at]].key {
            queries.push(enclose("(", key.query.as_str(), ")"));
        }
        at = at + 1;
    }
    assert(queries.deep_view() =~= parts);
    assert(group@[0] < slots@.len());
    let mut key = copy_key(slots[group[0]].key.as_ref().unwrap());
    key.query = join(&queries, " OR ");
    key
}

/// The texts on which one of the verdicts is true.
pub open spec fn accepted(texts: Seq<String>, verdicts: Seq<Vec<bool>>, at: int) -> Set<Seq<char>> {
    Set::new(
        |text: Seq<char>|
            exists|i: int|
                0 <= i < texts.len() && (#[trigger] texts[i])@ == text && verdicts[i]@[at],
    )
}

/// Collects the texts on which one of the verdicts is true.
fn collect_accepted(texts: &Vec<String>, verdicts: &Vec<Vec<bool>>, at: usize) -> (set: FxHashSet<
    String,
>)
    requires
        verdicts@.len() == texts@.len(),
        forall|i: int| 0 <= i < verdicts@.len() ==> at < (#[trigger] verdicts@[i])@.len(),
    ensures
        text_set(set) == accepted(texts@, verdicts@, at as int),
{
    let mut set = new_text_set();
    let mut i: usize = 0;
    assert(text_set(set) =~= accepted(texts@.take(0), verdicts@, at as int));
    while i < texts.len()
        invariant
            i <= texts@.len(),
            verdicts@.len() == texts@.len(),
            forall|k: int| 0 <= k < verdicts@.len() ==> at < (#[trigger] verdicts@[k])@.len(),
            text_set(set) == accepted(texts@.take(i as int), verdicts@, at as int),
        decreases texts@.len() - i,
    {
        let ghost before = text_set(set);
        let ghost seen = texts@.take(i as int);
        let ghost more = texts@.take(i + 1);
        assert(at < verdicts@[i as int]@.len());
        if verdicts[i][at] {
            insert_text(&mut set, texts[i].clone());
        }
        proof {
            assert forall|text: Seq<char>| accepted(more, verdicts@, at as int).contains(
                text,
            ) == text_set(set).contains(text) by {
                if accepted(more, verdicts@, at as int).contains(text) {
                    let k = choose|k: int|
                        0 <= k < more.len() && (#[trigger] more[k])@ == text
                            && verdicts@[k]@[at as int];
                    if k < i {
                        assert(seen[k] == more[k]);
                        assert(before.contains(text));
                    }
                }
                if before.contains(text) {
                    let k = choose|k: int|
                        0 <= k < seen.len() && (#[trigger] seen[k])@ == text
                            && verdicts@[k]@[at as int];
                    assert(more[k] == seen[k]);
                }
                assert(more[i as int] == texts@[i as int]);
            }
            assert(text_set(set) =~= accepted(more, verdicts@, at as int));
        }
        i = i + 1;
    }
    assert(texts@.take(i as int) =~= texts@);
    set
}

/// Settles the verdicts on the documents of one index: which documents each of
/// its `width` queries matches, and the scores of those that any of them does.
pub fn settle_group(
    corpus: ScoreCorpus,
    texts: &Vec<String>,
    verdicts: &Vec<Vec<bool>>,
    width: usize,
) -> (settled: (Vec<FxHashSet<String>>, ScoreCorpus))
    requires
        verdicts@.len() == texts@.len(),
        forall|i: int| 0 <= i < verdicts@.len() ==> (#[trigger] verdicts@[i])@.len() == width,
    ensures
        settled.0@.len() == width,
        forall|j: int|
            0 <= j < width ==> text_set(#[trigger] settled.0@[j]) == accepted(
                texts@,
                verdicts@,
                j,
            ),
        settled.1.scores() == corpus.scores().restrict(found_texts(settled.0@)),
{
    let mut sets: Vec<FxHashSet<String>> = Vec::new();
    let mut at: usize = 0;
    while at < width
        invariant
            at <= width,
            verdicts@.len() == texts@.len(),
            forall|i: int| 0 <= i < verdicts@.len() ==> (#[trigger] verdicts@[i])@.len() == width,
            sets@.len() == at,
            forall|j: int|
                0 <= j < at ==> text_set(#[trigger] sets@[j]) == accepted(texts@, verdicts@, j),
        decreases width - at,
    {
        sets.push(collect_accepted(texts, verdicts, at));
        at = at + 1;
    }
    let mut by_document = corpus.by_document;
    retain_found(&mut by_document, &sets);
    (sets, ScoreCorpus { by_document })
}

/// The outcome for all columns: per slot the documents that its query matches,
/// and per index the scores of the documents that any of its queries matches,
/// under the first slot of the index.
#[derive(Debug)]
pub struct FieldCorpora {
    pub matches: Vec<Option<FxHashSet<String>>>,
    pub scored: Vec<(usize, ScoreCorpus)>,
}

impl FieldCorpora {
    /// There is an entry for each of `width` slots, and scores only for slots.
    pub open spec fn fits(self, width: nat) -> bool {
        &&& self.matches@.len() == width
        &&& forall|g: int| 0 <= g < self.scored@.len() ==> (#[trigger] self.scored@[g]).0 < width
    }

    /// The documents that each slot of a group has found.
    pub open spec fn group_sets(self, group: Seq<usize>) -> Seq<FxHashSet<String>> {
        Seq::new(group.len(), |j: int| self.matches@[group[j] as int]->0)
    }
}

/// The engine judged a text: it was cut into tokens once, and each of the
/// queries evaluated on them told whether the text is in the query's set.
pub open spec fn judged<T, Q, D, K: Fn(&String, &T) -> D, E: Fn(&Q, &D) -> Result<bool, String>>(
    sets: Seq<FxHashSet<String>>,
    tokenizer: T,
    queries: Seq<Q>,
    text: Seq<char>,
    tokenize: K,
    evaluate: E,
) -> bool {
    exists|source: String, document: D|
        {
            &&& source@ == text
            &&& #[trigger] tokenize.ensures((&source, &tokenizer), document)
            &&& forall|j: int|
                0 <= j < queries.len() ==> evaluate.ensures(
                    (&#[trigger] queries[j], &document),
                    Ok(text_set(sets[j]).contains(text)),
                )
        }
}

/// What holds of one index that was worked through, given the key, the scored
/// documents, the tokenizer and the queries: the documents were scored under the
/// combined key, every one of them was judged, and what is kept are the verdicts
/// and the scores of the documents that some query matches.
pub open spec fn settles<
    T,
    Q,
    D,
    C: Fn(&CacheKey) -> ScoreCorpus,
    O: Fn(u32) -> T,
    P: Fn(&String, &T) -> Result<Q, String>,
    K: Fn(&String, &T) -> D,
    E: Fn(&Q, &D) -> Result<bool, String>,
>(
    slots: Seq<Slot>,
    group: Group,
    sets: Seq<FxHashSet<String>>,
    kept: ScoreCorpus,
    engine: (C, O, P, K, E),
    key: CacheKey,
    corpus: ScoreCorpus,
    tokenizer: T,
    queries: Seq<Q>,
) -> bool {
    &&& key@ == group_key(slots, group.slots@)
    &&& engine.0.ensures((&key,), corpus)
    &&& engine.1.ensures((group.index,), tokenizer)
    &&& sets.len() == group.slots@.len()
    &&& queries.len() == group.slots@.len()
    &&& forall|j: int|
        0 <= j < queries.len() ==> engine.2.ensures(
            (&slots[group.slots@[j] as int].key->0.query, &tokenizer),
            Ok(#[trigger] queries[j]),
        )
    &&& forall|text: Seq<char>| #[trigger]
        corpus.scores().contains_key(text) ==> judged::<T, Q, D, K, E>(
            sets,
            tokenizer,
            queries,
            text,
            engine.3,
            engine.4,
        )
    &&& forall|j: int, text: Seq<char>|
        0 <= j < sets.len() && #[trigger] text_set(sets[j]).contains(text)
            ==> corpus.scores().contains_key(text)
    &&& kept.scores() == corpus.scores().restrict(found_texts(sets))
}

/// One index was worked through with this outcome.
pub open spec fn group_settled<
    T,
    Q,
    D,
    C: Fn(&CacheKey) -> ScoreCorpus,
    O: Fn(u32) -> T,
    P: Fn(&String, &T) -> Result<Q, String>,
    K: Fn(&String, &T) -> D,
    E: Fn(&Q, &D) -> Result<bool, String>,
>(
    slots: Seq<Slot>,
    group: Group,
    sets: Seq<FxHashSet<String>>,
    kept: ScoreCorpus,
    engine: (C, O, P, K, E),
) -> bool {
    exists|key: CacheKey, corpus: ScoreCorpus, tokenizer: T, queries: Seq<Q>| #[trigger]
        settles::<T, Q, D, C, O, P, K, E>(
            slots,
            group,
            sets,
            kept,
            engine,
            key,
            corpus,
            tokenizer,
            queries,
        )
}

/// A query of the index was refused when it was read, and none before it was.
pub open spec fn refused<T, Q, O: Fn(u32) -> T, P: Fn(&String, &T) -> Result<Q, String>>(
    slots: Seq<Slot>,
    group: Group,
    error: String,
    open_tokenizer: O,
    parse: P,
) -> bool {
    exists|tokenizer: T, j: int|
        {
            &&& 0 <= j < group.slots@.len()
            &&& #[trigger] open_tokenizer.ensures((group.index,), tokenizer)
            &&& parse.ensures(
                (&slots[#[trigger] group.slots@[j] as int].key->0.query, &tokenizer),
                Err(error),
            )
            &&& forall|i: int|
                0 <= i < j ==> reads_query::<T, Q, P>(
                    slots[#[trigger] group.slots@[i] as int],
                    tokenizer,
                    parse,
                )
        }
}

/// The query of the slot can be read.
pub open spec fn reads_query<T, Q, P: Fn(&String, &T) -> Result<Q, String>>(
    slot: Slot,
    tokenizer: T,
    parse: P,
) -> bool {
    exists|query: Q| #[trigger] parse.ensures((&slot.key->0.query, &tokenizer), Ok(query))
}

/// All queries of the index were read, and one of them failed on this document,
/// as it was evaluated, while those before it did not.
pub open spec fn fails<
    T,
    Q,
    D,
    C: Fn(&CacheKey) -> ScoreCorpus,
    O: Fn(u32) -> T,
    P: Fn(&String, &T) -> Result<Q, String>,
    K: Fn(&String, &T) -> D,
    E: Fn(&Q, &D) -> Result<bool, String>,
>(
    slots: Seq<Slot>,
    group: Group,
    error: String,
    engine: (C, O, P, K, E),
    corpus: ScoreCorpus,
    tokenizer: T,
    queries: Seq<Q>,
    at: int,
    source: String,
    document: D,
) -> bool {
    &&& exists|key: CacheKey|
        key@ == group_key(slots, group.slots@) && #[trigger] engine.0.ensures((&key,), corpus)
    &&& corpus.scores().contains_key(source@)
    &&& engine.1.ensures((group.index,), tokenizer)
    &&& queries.len() == group.slots@.len()
    &&& forall|j: int|
        0 <= j < queries.len() ==> engine.2.ensures(
            (&slots[group.slots@[j] as int].key->0.query, &tokenizer),
            Ok(#[trigger] queries[j]),
        )
    &&& engine.3.ensures((&source, &tokenizer), document)
    &&& 0 <= at < queries.len()
    &&& engine.4.ensures((&queries[at], &document), Err(error))
    &&& forall|j: int|
        0 <= j < at ==> gives_verdict::<Q, D, E>(#[trigger] queries[j], document, engine.4)
}

/// The query can be evaluated on the document.
pub open spec fn gives_verdict<Q, D, E: Fn(&Q, &D) -> Result<bool, String>>(
    query: Q,
    document: D,
    evaluate: E,
) -> bool {
    exists|matched: bool| #[trigger] evaluate.ensures((&query, &document), Ok(matched))
}

/// A query of the index failed on some document.
pub open spec fn evaluation_failed<
    T,
    Q,
    D,
    C: Fn(&CacheKey) -> ScoreCorpus,
    O: Fn(u32) -> T,
    P: Fn(&String, &T) -> Result<Q, String>,
    K: Fn(&String, &T) -> D,
    E: Fn(&Q, &D) -> Result<bool, String>,
>(slots: Seq<Slot>, group: Group, error: String, engine: (C, O, P, K, E)) -> bool {
    exists|
        corpus: ScoreCorpus,
        tokenizer: T,
        queries: Seq<Q>,
        at: int,
        source: String,
        document: D,
    | #[trigger]
        fails::<T, Q, D, C, O, P, K, E>(
            slots,
            group,
            error,
            engine,
            corpus,
            tokenizer,
            queries,
            at,
            source,
            document,
        )
}

/// Working through the index stopped with this error.
pub open spec fn group_failed<
    T,
    Q,
    D,
    C: Fn(&CacheKey) -> ScoreCorpus,
    O: Fn(u32) -> T,
    P: Fn(&String, &T) -> Result<Q, String>,
    K: Fn(&String, &T) -> D,
    E: Fn(&Q, &D) -> Result<bool, String>,
>(slots: Seq<Slot>, group: Group, error: ScoreError, engine: (C, O, P, K, E)) -> bool {
    match error {
        ScoreError::Query(message) => refused::<T, Q, O, P>(
            slots,
            group,
            message,
            engine.1,
            engine.2,
        ),
        ScoreError::Evaluation(message) => evaluation_failed::<T, Q, D, C, O, P, K, E>(
            slots,
            group,
            message,
            engine,
        ),
        _ => false,
    }
}

/// A document on which a query fails stops the work.
proof fn lemma_fails<
    T,
    Q,
    D,
    C: Fn(&CacheKey) -> ScoreCorpus,
    O: Fn(u32) -> T,
    P: Fn(&String, &T) -> Result<Q, String>,
    K: Fn(&String, &T) -> D,
    E: Fn(&Q, &D) -> Result<bool, String>,
>(
    slots: Seq<Slot>,
    group: Group,
    error: String,
    engine: (C, O, P, K, E),
    corpus: ScoreCorpus,
    tokenizer: T,
    queries: Seq<Q>,
    at: int,
    source: String,
    document: D,
)
    requires
        fails::<T, Q, D, C, O, P, K, E>(
            slots,
            group,
            error,
            engine,
            corpus,
            tokenizer,
            queries,
            at,
            source,
            document,
        ),
    ensures
        group_failed::<T, Q, D, C, O, P, K, E>(
            slots,
            group,
            ScoreError::Evaluation(error),
            engine,
        ),
{
    assert(evaluation_failed::<T, Q, D, C, O, P, K, E>(slots, group, error, engine));
}

/// Works through one index.
fn build_group<
    T,
    Q,
    D,
    C: Fn(&CacheKey) -> ScoreCorpus,
    O: Fn(u32) -> T,
    P: Fn(&String, &T) -> Result<Q, String>,
    K: Fn(&String, &T) -> D,
    E: Fn(&Q, &D) -> Result<bool, String>,
>(slots: &Vec<Slot>, group: &Group, engine: &(C, O, P, K, E)) -> (outcome: Result<
    (Vec<FxHashSet<String>>, ScoreCorpus),
    ScoreError,
>)
    requires
        is_group(slots@, group.slots@),
        forall|key: &CacheKey| engine.0.requires((key,)),
        forall|index: u32| engine.1.requires((index,)),
        forall|query: &String, tokenizer: &T| engine.2.requires((query, tokenizer)),
        forall|text: &String, tokenizer: &T| engine.3.requires((text, tokenizer)),
        forall|query: &Q, document: &D| engine.4.requires((query, document)),
    ensures
        match outcome {
            Ok(settled) => group_settled::<T, Q, D, C, O, P, K, E>(
                slots@,
                *group,
                settled.0@,
                settled.1,
                *engine,
            ),
            Err(error) => group_failed::<T, Q, D, C, O, P, K, E>(slots@, *group, error, *engine),
        },
{
    let key = combine_keys(slots, &group.slots);
    let corpus = (engine.0)(&key);
    let tokenizer = (engine.1)(group.index);
    let mut queries: Vec<Q> = Vec::new();
    let mut at: usize = 0;
    while at < group.slots.len()
        invariant
            at <= group.slots@.len(),
            is_group(slots@, group.slots@),
            forall|query: &String, tokenizer: &T| engine.2.requires((query, tokenizer)),
            engine.1.ensures((group.index,), tokenizer),
            queries@.len() == at,
            forall|j: int|
                0 <= j < at ==> engine.2.ensures(
                    (&slots@[group.slots@[j] as int].key->0.query, &tokenizer),
                    Ok(#[trigger] queries@[j]),
                ),
        decreases group.slots@.len() - at,
    {
        assert(group.slots@[at as int] < slots@.len());
        let slot_key = slots[group.slots[at]].key.as_ref().unwrap();
        match (engine.2)(&slot_key.query, &tokenizer) {
            Ok(query) => {
                queries.push(query);
            },
            Err(error) => {
                assert forall|i: int| 0 <= i < at implies reads_query::<T, Q, P>(
                    slots@[#[trigger] group.slots@[i] as int],
                    tokenizer,
                    engine.2,
                ) by {
                    assert(engine.2.ensures(
                        (&slots@[group.slots@[i] as int].key->0.query, &tokenizer),
                        Ok(queries@[i]),
                    ));
                }
                assert(refused::<T, Q, O, P>(slots@, *group, error, engine.1, engine.2));
                return Err(ScoreError::Query(error));
            },
        }
        at = at + 1;
    }
    let texts = scored_texts(&corpus.by_document);
    let mut verdicts: Vec<Vec<bool>> = Vec::new();
    let mut i: usize = 0;
    while i < texts.len()
        invariant
            i <= texts@.len(),
            forall|text: &String, tokenizer: &T| engine.3.requires((text, tokenizer)),
            forall|query: &Q, document: &D| engine.4.requires((query, document)),
            key@ == group_key(slots@, group.slots@),
            engine.0.ensures((&key,), corpus),
            engine.1.ensures((group.index,), tokenizer),
            queries@.len() == group.slots@.len(),
            forall|j: int|
                0 <= j < queries@.len() ==> engine.2.ensures(
                    (&slots@[group.slots@[j] as int].key->0.query, &tokenizer),
                    Ok(#[trigger] queries@[j]),
                ),
            forall|text: Seq<char>| #[trigger]
                corpus.scores().contains_key(text) <==> texts.deep_view().contains(text),
            verdicts@.len() == i,
            forall|k: int| 0 <= k < i ==> (#[trigger] verdicts@[k])@.len() == queries@.len(),
            forall|k: int|
                0 <= k < i ==> verdict_row::<T, Q, D, K, E>(
                    texts@[k],
                    tokenizer,
                    queries@,
                    (#[trigger] verdicts@[k])@,
                    engine.3,
                    engine.4,
                ),
        decreases texts@.len() - i,
    {
        let document = (engine.3)(&texts[i], &tokenizer);
        let mut row: Vec<bool> = Vec::new();
        let mut at: usize = 0;
        while at < queries.len()
            invariant
                at <= queries@.len(),
                i < texts@.len(),
                forall|query: &Q, document: &D| engine.4.requires((query, document)),
                key@ == group_key(slots@, group.slots@),
                engine.0.ensures((&key,), corpus),
                engine.1.ensures((group.index,), tokenizer),
                queries@.len() == group.slots@.len(),
                forall|j: int|
                    0 <= j < queries@.len() ==> engine.2.ensures(
                        (&slots@[group.slots@[j] as int].key->0.query, &tokenizer),
                        Ok(#[trigger] queries@[j]),
                    ),
                forall|text: Seq<char>| #[trigger]
                    corpus.scores().contains_key(text) <==> texts.deep_view().contains(text),
                engine.3.ensures((&texts@[i as int], &tokenizer), document),
                row@.len() == at,
                forall|j: int|
                    0 <= j < at ==> engine.4.ensures(
                        (&#[trigger] queries@[j], &document),
                        Ok(row@[j]),
                    ),
            decreases queries@.len() - at,
        {
            match (engine.4)(&queries[at], &document) {
                Ok(matched) => {
                    row.push(matched);
                },
                Err(error) => {
                    proof {
                        assert forall|j: int| 0 <= j < at implies gives_verdict::<Q, D, E>(
                            #[trigger] queries@[j],
                            document,
                            engine.4,
                        ) by {
                            assert(engine.4.ensures((&queries@[j], &document), Ok(row@[j])));
                        }
                        assert(texts.deep_view()[i as int] == texts@[i as int]@);
                        assert(corpus.scores().contains_key(texts@[i as int]@));
                        lemma_fails::<T, Q, D, C, O, P, K, E>(
                            slots@,
                            *group,
                            error,
                            *engine,
                            corpus,
                            tokenizer,
                            queries@,
                            at as int,
                            texts@[i as int],
                            document,
                        );
                    }
                    return Err(ScoreError::Evaluation(error));
                },
            }
            at = at + 1;
        }
        assert(verdict_row::<T, Q, D, K, E>(
            texts@[i as int],
            tokenizer,
            queries@,
            row@,
            engine.3,
            engine.4,
        ));
        verdicts.push(row);
        i = i + 1;
    }
    let ghost scored = corpus;
    let settled = settle_group(corpus, &texts, &verdicts, queries.len());
    proof {
        let sets = settled.0@;
        assert(texts@.map_values(|source: String| source@) =~= texts.deep_view());
        assert forall|text: Seq<char>| #[trigger]
            scored.scores().contains_key(text) implies judged::<T, Q, D, K, E>(
            sets,
            tokenizer,
            queries@,
            text,
            engine.3,
            engine.4,
        ) by {
            lemma_judged::<T, Q, D, K, E>(
                texts@,
                verdicts@,
                sets,
                tokenizer,
                queries@,
                text,
                engine.3,
                engine.4,
            );
        }
        assert forall|j: int, text: Seq<char>|
            0 <= j < sets.len() && #[trigger] text_set(sets[j]).contains(
                text,
            ) implies scored.scores().contains_key(text) by {
            let k = choose|k: int|
                0 <= k < texts@.len() && (#[trigger] texts@[k])@ == text && verdicts@[k]@[j];
            assert(texts.deep_view()[k] == text);
        }
        assert(settles::<T, Q, D, C, O, P, K, E>(
            slots@,
            *group,
            sets,
            settled.1,
            *engine,
            key,
            scored,
            tokenizer,
            queries@,
        ));
    }
    Ok(settled)
}

/// The engine gave these verdicts on a text.
spec fn verdict_row<T, Q, D, K: Fn(&String, &T) -> D, E: Fn(&Q, &D) -> Result<bool, String>>(
    source: String,
    tokenizer: T,
    queries: Seq<Q>,
    row: Seq<bool>,
    tokenize: K,
    evaluate: E,
) -> bool {
    exists|document: D|
        {
            &&& #[trigger] tokenize.ensures((&source, &tokenizer), document)
            &&& forall|j: int|
                0 <= j < queries.len() ==> evaluate.ensures(
                    (&#[trigger] queries[j], &document),
                    Ok(row[j]),
                )
        }
}

/// Where no text occurs twice, the sets tell what the engine said of each text.
proof fn lemma_judged<T, Q, D, K: Fn(&String, &T) -> D, E: Fn(&Q, &D) -> Result<bool, String>>(
    texts: Seq<String>,
    verdicts: Seq<Vec<bool>>,
    sets: Seq<FxHashSet<String>>,
    tokenizer: T,
    queries: Seq<Q>,
    text: Seq<char>,
    tokenize: K,
    evaluate: E,
)
    requires
        verdicts.len() == texts.len(),
        sets.len() == queries.len(),
        texts.map_values(|source: String| source@).no_duplicates(),
        texts.map_values(|source: String| source@).contains(text),
        forall|j: int|
            0 <= j < sets.len() ==> text_set(#[trigger] sets[j]) == accepted(texts, verdicts, j),
        forall|k: int|
            0 <= k < texts.len() ==> verdict_row::<T, Q, D, K, E>(
                texts[k],
                tokenizer,
                queries,
                (#[trigger] verdicts[k])@,
                tokenize,
                evaluate,
            ),
    ensures
        judged::<T, Q, D, K, E>(sets, tokenizer, queries, text, tokenize, evaluate),
{
    let views = texts.map_values(|source: String| source@);
    let k = views.index_of(text);
    assert(views[k] == texts[k]@);
    assert(verdict_row::<T, Q, D, K, E>(
        texts[k],
        tokenizer,
        queries,
        verdicts[k]@,
        tokenize,
        evaluate,
    ));
    let document = choose|document: D|
        {
            &&& #[trigger] tokenize.ensures((&texts[k], &tokenizer), document)
            &&& forall|j: int|
                0 <= j < queries.len() ==> evaluate.ensures(
                    (&#[trigger] queries[j], &document),
                    Ok(verdicts[k]@[j]),
                )
        };
    assert forall|j: int| 0 <= j < queries.len() implies evaluate.ensures(
        (&#[trigger] queries[j], &document),
        Ok(text_set(sets[j]).contains(text)),
    ) by {
        assert(text_set(sets[j]) == accepted(texts, verdicts, j));
        if text_set(sets[j]).contains(text) {
            let i = choose|i: int|
                0 <= i < texts.len() && (#[trigger] texts[i])@ == text && verdicts[i]@[j];
            assert(views[i] == views[k]);
        } else {
            assert(texts[k]@ == text);
        }
    }
}

/// The columns were worked through with this outcome: each index by itself, in
/// ascending order, and nothing for the slots that have no query.
pub open spec fn fields_built<
    T,
    Q,
    D,
    C: Fn(&CacheKey) -> ScoreCorpus,
    O: Fn(u32) -> T,
    P: Fn(&String, &T) -> Result<Q, String>,
    K: Fn(&String, &T) -> D,
    E: Fn(&Q, &D) -> Result<bool, String>,
>(
    slots: Seq<Slot>,
    groups: Seq<Group>,
    fields: FieldCorpora,
    engine: (C, O, P, K, E),
) -> bool {
    &&& is_grouping(slots, groups)
    &&& fields.matches@.len() == slots.len()
    &&& forall|s: int|
        0 <= s < slots.len() ==> ((#[trigger] fields.matches@[s]) is Some <==> slots[s].key is Some)
    &&& fields.scored@.len() == groups.len()
    &&& forall|g: int|
        0 <= g < groups.len() ==> {
            &&& fields.scored@[g].0 == groups[g].slots@[0]
            &&& group_settled::<T, Q, D, C, O, P, K, E>(
                slots,
                #[trigger] groups[g],
                fields.group_sets(groups[g].slots@),
                fields.scored@[g].1,
                engine,
            )
        }
}

/// Working through the columns stopped with this error: it came up at one of the
/// indexes, and those before it, in ascending order, had been worked through.
pub open spec fn fields_failed<
    T,
    Q,
    D,
    C: Fn(&CacheKey) -> ScoreCorpus,
    O: Fn(u32) -> T,
    P: Fn(&String, &T) -> Result<Q, String>,
    K: Fn(&String, &T) -> D,
    E: Fn(&Q, &D) -> Result<bool, String>,
>(slots: Seq<Slot>, error: ScoreError, engine: (C, O, P, K, E)) -> bool {
    exists|groups: Seq<Group>, at: int|
        {
            &&& is_grouping(slots, groups)
            &&& 0 <= at < groups.len()
            &&& #[trigger] group_failed::<T, Q, D, C, O, P, K, E>(
                slots,
                groups[at],
                error,
                engine,
            )
            &&& forall|h: int|
                0 <= h < at ==> works_through::<T, Q, D, C, O, P, K, E>(
                    slots,
                    #[trigger] groups[h],
                    engine,
                )
        }
}

/// The index can be worked through.
pub open spec fn works_through<
    T,
    Q,
    D,
    C: Fn(&CacheKey) -> ScoreCorpus,
    O: Fn(u32) -> T,
    P: Fn(&String, &T) -> Result<Q, String>,
    K: Fn(&String, &T) -> D,
    E: Fn(&Q, &D) -> Result<bool, String>,
>(slots: Seq<Slot>, group: Group, engine: (C, O, P, K, E)) -> bool {
    exists|sets: Seq<FxHashSet<String>>, kept: ScoreCorpus| #[trigger]
        group_settled::<T, Q, D, C, O, P, K, E>(slots, group, sets, kept, engine)
}

/// The engine can be asked for anything.
pub open spec fn engine_ready<
    T,
    Q,
    D,
    C: Fn(&CacheKey) -> ScoreCorpus,
    O: Fn(u32) -> T,
    P: Fn(&String, &T) -> Result<Q, String>,
    K: Fn(&String, &T) -> D,
    E: Fn(&Q, &D) -> Result<bool, String>,
>(engine: (C, O, P, K, E)) -> bool {
    &&& forall|key: &CacheKey| engine.0.requires((key,))
    &&& forall|index: u32| engine.1.requires((index,))
    &&& forall|query: &String, tokenizer: &T| engine.2.requires((query, tokenizer))
    &&& forall|text: &String, tokenizer: &T| engine.3.requires((text, tokenizer))
    &&& forall|query: &Q, document: &D| engine.4.requires((query, document))
}

/// Files the sets of a group under its slots and leaves the other slots.
fn place_sets(
    matches: &mut Vec<Option<FxHashSet<String>>>,
    group: &Vec<usize>,
    sets: Vec<FxHashSet<String>>,
)
    requires
        sets@.len() == group@.len(),
        forall|j: int| 0 <= j < group@.len() ==> (#[trigger] group@[j]) < old(matches)@.len(),
        forall|j: int, k: int|
            0 <= j < k < group@.len() ==> #[trigger] group@[j] < #[trigger] group@[k],
    ensures
        final(matches)@.len() == old(matches)@.len(),
        forall|j: int|
            0 <= j < group@.len() ==> final(matches)@[#[trigger] group@[j] as int] == Some(sets@[j]),
        forall|s: int|
            0 <= s < old(matches)@.len() && !group@.contains(s as usize)
                ==> #[trigger] final(matches)@[s] == old(matches)@[s],
{
    let ghost all = sets@;
    let ghost before = matches@;
    let mut rest = sets;
    let mut left: usize = rest.len();
    while left > 0
        invariant
            left <= all.len(),
            rest@ == all.take(left as int),
            all.len() == group@.len(),
            matches@.len() == before.len(),
            forall|j: int| 0 <= j < group@.len() ==> (#[trigger] group@[j]) < before.len(),
            forall|j: int, k: int|
                0 <= j < k < group@.len() ==> #[trigger] group@[j] < #[trigger] group@[k],
            forall|j: int|
                left <= j < all.len() ==> matches@[#[trigger] group@[j] as int] == Some(all[j]),
            forall|s: int|
                0 <= s < before.len() && !group@.contains(s as usize) ==> #[trigger] matches@[s]
                    == before[s],
        decreases left,
    {
        left = left - 1;
        let set = rest.pop();
        assert(rest@ =~= all.take(left as int));
        assert(set == Some(all[left as int]));
        assert(group@[left as int] < before.len());
        assert(group@.contains(group@[left as int]));
        matches.set(group[left], set);
    }
}

/// Filing one group leaves what another index has found.
proof fn lemma_group_untouched(
    slots: Seq<Slot>,
    other: Group,
    group: Group,
    before: FieldCorpora,
    after: FieldCorpora,
)
    requires
        slots.len() <= usize::MAX,
        other.index != group.index,
        other.slots@ == slots_of(slots, other.index),
        group.slots@ == slots_of(slots, group.index),
        before.matches@.len() == slots.len(),
        after.matches@.len() == slots.len(),
        forall|s: int|
            0 <= s < slots.len() && !group.slots@.contains(s as usize)
                ==> #[trigger] after.matches@[s] == before.matches@[s],
    ensures
        after.group_sets(other.slots@) == before.group_sets(other.slots@),
        forall|j: int|
            0 <= j < other.slots@.len() ==> after.matches@[#[trigger] other.slots@[j] as int]
                == before.matches@[other.slots@[j] as int],
{
    lemma_slots_of(slots, other.index);
    lemma_slots_of(slots, group.index);
    assert forall|j: int|
        0 <= j < other.slots@.len() implies after.matches@[#[trigger] other.slots@[j] as int]
        == before.matches@[other.slots@[j] as int] by {
        let s = other.slots@[j];
        if group.slots@.contains(s) {
            let k = group.slots@.index_of(s);
            assert(slots[group.slots@[k] as int].index == group.index);
        }
    }
    assert(after.group_sets(other.slots@) =~= before.group_sets(other.slots@));
}

/// Works through the columns. The engine scores the documents of an index under
/// a key, opens the tokenizer of an index, reads a query, cuts a text into
/// tokens, and evaluates a query on them.
pub fn build_fields<
    T,
    Q,
    D,
    C: Fn(&CacheKey) -> ScoreCorpus,
    O: Fn(u32) -> T,
    P: Fn(&String, &T) -> Result<Q, String>,
    K: Fn(&String, &T) -> D,
    E: Fn(&Q, &D) -> Result<bool, String>,
>(slots: &Vec<Slot>, engine: &(C, O, P, K, E)) -> (outcome: Result<FieldCorpora, ScoreError>)
    requires
        engine_ready::<T, Q, D, C, O, P, K, E>(*engine),
    ensures
        match outcome {
            Ok(fields) => fields.fits(slots@.len()) && exists|groups: Seq<Group>| #[trigger]
                fields_built::<T, Q, D, C, O, P, K, E>(slots@, groups, fields, *engine),
            Err(error) => fields_failed::<T, Q, D, C, O, P, K, E>(slots@, error, *engine),
        },
{
    let groups = group_slots(slots);
    let mut fields = FieldCorpora { matches: Vec::new(), scored: Vec::new() };
    while fields.matches.len() < slots.len()
        invariant
            fields.matches@.len() <= slots@.len(),
            fields.scored@.len() == 0,
            forall|s: int| 0 <= s < fields.matches@.len() ==> (#[trigger] fields.matches@[s]) is None,
        decreases slots@.len() - fields.matches@.len(),
    {
        fields.matches.push(None);
    }
    let mut g: usize = 0;
    while g < groups.len()
        invariant
            g <= groups@.len(),
            engine_ready::<T, Q, D, C, O, P, K, E>(*engine),
            is_grouping(slots@, groups@),
            slots@.len() <= usize::MAX,
            fields.matches@.len() == slots@.len(),
            fields.scored@.len() == g,
            forall|h: int|
                0 <= h < g ==> {
                    &&& fields.scored@[h].0 == groups@[h].slots@[0]
                    &&& group_settled::<T, Q, D, C, O, P, K, E>(
                        slots@,
                        #[trigger] groups@[h],
                        fields.group_sets(groups@[h].slots@),
                        fields.scored@[h].1,
                        *engine,
                    )
                },
            forall|h: int, j: int|
                0 <= h < g && 0 <= j < groups@[h].slots@.len()
                    ==> fields.matches@[#[trigger] groups@[h].slots@[j] as int] is Some,
            forall|s: int|
                0 <= s < slots@.len() && (#[trigger] fields.matches@[s]) is Some
                    ==> slots@[s].key is Some,
        decreases groups@.len() - g,
    {
        let ghost group = groups@[g as int];
        proof {
            lemma_slots_of(slots@, group.index);
            assert(group.slots@ == slots_of(slots@, group.index));
            assert(is_group(slots@, group.slots@));
        }
        match build_group::<T, Q, D, C, O, P, K, E>(slots, &groups[g], engine) {
            Ok(settled) => {
                let ghost before = fields;
                let ghost all = settled.0@;
                place_sets(&mut fields.matches, &groups[g].slots, settled.0);
                fields.scored.push((groups[g].slots[0], settled.1));
                proof {
                    assert(fields.group_sets(group.slots@) =~= all);
                    assert forall|h: int| 0 <= h < g implies {
                        &&& fields.scored@[h].0 == groups@[h].slots@[0]
                        &&& group_settled::<T, Q, D, C, O, P, K, E>(
                            slots@,
                            #[trigger] groups@[h],
                            fields.group_sets(groups@[h].slots@),
                            fields.scored@[h].1,
                            *engine,
                        )
                    } by {
                        lemma_group_untouched(slots@, groups@[h], group, before, fields);
                    }
                    assert forall|h: int, j: int|
                        0 <= h <= g && 0 <= j
                            < groups@[h].slots@.len() implies fields.matches@[#[trigger] groups@[h].slots@[j] as int] is Some by {
                        if h < g {
                            lemma_group_untouched(slots@, groups@[h], group, before, fields);
                            assert(before.matches@[groups@[h].slots@[j] as int] is Some);
                        } else {
                            assert(fields.matches@[group.slots@[j] as int] == Some(all[j]));
                        }
                    }
                    assert forall|s: int|
                        0 <= s < slots@.len()
                            && (#[trigger] fields.matches@[s]) is Some implies slots@[s].key is Some by {
                        if group.slots@.contains(s as usize) {
                            let j = group.slots@.index_of(s as usize);
                            assert(group.slots@[j] < slots@.len());
                        } else {
                            assert(before.matches@[s] is Some);
                        }
                    }
                }
            },
            Err(error) => {
                assert forall|h: int| 0 <= h < g implies works_through::<T, Q, D, C, O, P, K, E>(
                    slots@,
                    #[trigger] groups@[h],
                    *engine,
                ) by {
                    assert(group_settled::<T, Q, D, C, O, P, K, E>(
                        slots@,
                        groups@[h],
                        fields.group_sets(groups@[h].slots@),
                        fields.scored@[h].1,
                        *engine,
                    ));
                }
                assert(fields_failed::<T, Q, D, C, O, P, K, E>(slots@, error, *engine));
                return Err(error);
            },
        }
        g = g + 1;
    }
    proof {
        assert forall|s: int| 0 <= s < slots@.len() implies ((#[trigger] fields.matches@[s]) is Some
            <==> slots@[s].key is Some) by {
            if slots@[s].key is Some {
                assert(has_group(groups@, slots@[s].index));
                let h = choose|h: int|
                    0 <= h < groups@.len() && (#[trigger] groups@[h]).index == slots@[s].index;
                lemma_slots_of(slots@, slots@[s].index);
                let j = groups@[h].slots@.index_of(s as usize);
                assert(groups@[h].slots@[j] == s as usize);
            }
        }
        assert forall|h: int| 0 <= h < fields.scored@.len() implies (
        #[trigger] fields.scored@[h]).0 < slots@.len() by {
            lemma_slots_of(slots@, groups@[h].index);
            assert(groups@[h].slots@[0] < slots@.len());
        }
        assert(fields_built::<T, Q, D, C, O, P, K, E>(slots@, groups@, fields, *engine));
    }
    Ok(fields)
}

/// A document has a score for an index exactly when the query of one of the
/// index's slots matches it.
pub proof fn law_only_matching_documents_are_scored<
    T,
    Q,
    D,
    C: Fn(&CacheKey) -> ScoreCorpus,
    O: Fn(u32) -> T,
    P: Fn(&String, &T) -> Result<Q, String>,
    K: Fn(&String, &T) -> D,
    E: Fn(&Q, &D) -> Result<bool, String>,
>(
    slots: Seq<Slot>,
    groups: Seq<Group>,
    fields: FieldCorpora,
    engine: (C, O, P, K, E),
    g: int,
    text: Seq<char>,
)
    requires
        slots.len() <= usize::MAX,
        fields_built::<T, Q, D, C, O, P, K, E>(slots, groups, fields, engine),
        0 <= g < groups.len(),
    ensures
        fields.scored@[g].1.scores().contains_key(text) <==> exists|s: int|
            {
                &&& 0 <= s < slots.len()
                &&& slots[s].index == groups[g].index
                &&& (#[trigger] fields.matches@[s]) matches Some(set) && text_set(set).contains(
                    text,
                )
            },
{
    let group = groups[g];
    let sets = fields.group_sets(group.slots@);
    assert(group_settled::<T, Q, D, C, O, P, K, E>(
        slots,
        group,
        sets,
        fields.scored@[g].1,
        engine,
    ));
    lemma_slots_of(slots, group.index);
    assert(group.slots@ == slots_of(slots, group.index));
    if fields.scored@[g].1.scores().contains_key(text) {
        assert(in_some_set(sets, text));
        let j = choose|j: int| 0 <= j < sets.len() && text_set(#[trigger] sets[j]).contains(text);
        let s = group.slots@[j] as int;
        assert(fields.matches@[s] is Some);
    }
    if exists|s: int|
        {
            &&& 0 <= s < slots.len()
            &&& slots[s].index == groups[g].index
            &&& (#[trigger] fields.matches@[s]) matches Some(set) && text_set(set).contains(text)
        } {
        let s = choose|s: int|
            {
                &&& 0 <= s < slots.len()
                &&& slots[s].index == groups[g].index
                &&& (#[trigger] fields.matches@[s]) matches Some(set) && text_set(set).contains(
                    text,
                )
            };
        assert(slots[s].key is Some);
        let j = group.slots@.index_of(s as usize);
        assert(group.slots@[j] == s as usize);
        assert(text_set(sets[j]).contains(text));
        assert(in_some_set(sets, text));
    }
}

/// The key under which slots are scored together is that of the first of them but
/// for the query. A single query stands in parentheses, and every further one
/// follows behind `OR`, in parentheses too.
pub proof fn law_combined_key_changes_only_the_query(
    slots: Seq<Slot>,
    group: Seq<usize>,
    key: CacheKey,
    more: usize,
    longer: CacheKey,
)
    requires
        group.len() > 0,
        key@ == group_key(slots, group),
        longer@ == group_key(slots, group.push(more)),
    ensures
        ({
            let first = slots[group[0] as int].key->0;
            &&& key.transaction == first.transaction
            &&& key.command == first.command
            &&& key.heap_oid == first.heap_oid
            &&& key.index_oid == first.index_oid
            &&& key.full == first.full
            &&& key.dense == first.dense
            &&& key.k1 == first.k1
            &&& key.b == first.b
            &&& key.add.deep_view() == first.add.deep_view()
            &&& key.replace.deep_view() == first.replace.deep_view()
            &&& group.len() == 1 ==> key.query@ == "("@ + first.query@ + ")"@
        }),
        longer.query@ == key.query@ + " OR "@ + ("("@ + slots[more as int].key->0.query@ + ")"@),
{
    let parts = Seq::new(
        group.len(),
        |j: int| enclosed("("@, slots[group[j] as int].key->0.query@, ")"@),
    );
    let all = group.push(more);
    let longer_parts = Seq::new(
        all.len(),
        |j: int| enclosed("("@, slots[all[j] as int].key->0.query@, ")"@),
    );
    let last = enclosed("("@, slots[more as int].key->0.query@, ")"@);
    assert(longer_parts =~= parts.push(last));
    law_parts_are_joined(parts, last, " OR "@);
    if group.len() == 1 {
        assert(parts =~= seq![parts[0]]);
        law_parts_are_joined(parts, parts[0], " OR "@);
    }
}

/// The key under which the slots of an index are scored together agrees with the key
/// of each of them in everything but the query, for any number of slots of one
/// request.
pub proof fn law_combined_key_agrees_with_each_slot(
    request: ScoreRequest,
    session: Session,
    slots: Seq<Slot>,
    group: Seq<usize>,
    key: CacheKey,
    j: int,
)
    requires
        slot_views(slots) == request.slots(session),
        is_group(slots, group),
        forall|k: int|
            0 <= k < group.len() ==> slots[#[trigger] group[k] as int].index
                == slots[group[0] as int].index,
        key@ == group_key(slots, group),
        0 <= j < group.len(),
    ensures
        ({
            let own = slots[group[j] as int].key->0;
            &&& key.transaction == own.transaction
            &&& key.command == own.command
            &&& key.heap_oid == own.heap_oid
            &&& key.index_oid == own.index_oid
            &&& key.full == own.full
            &&& key.dense == own.dense
            &&& key.k1 == own.k1
            &&& key.b == own.b
            &&& key.add.deep_view() == own.add.deep_view()
            &&& key.replace.deep_view() == own.replace.deep_view()
            &&& key.add.deep_view() == request.term_add.deep_view()
            &&& key.replace.deep_view() == request.term_replace.deep_view()
            &&& key.k1 == request.k1
            &&& key.b == request.b
        }),
{
    assert(slot_views(slots).len() == slots.len());
    assert(request.slots(session).len() == request.indexes@.len());
    assert(group[0] < slots.len() && group[j] < slots.len());
    assert(slots[group[j] as int].index == slots[group[0] as int].index);
    law_slots_carry_the_request(request, session, slots, group[0] as int);
    law_slots_carry_the_request(request, session, slots, group[j] as int);
}

/// Groups stand in ascending order of their indexes. Each has slots, in ascending
/// order, which exist, have a query and belong to its index; and every slot with a
/// query is in the group of its index.
pub proof fn law_groups_hold_the_slots_of_their_index(slots: Seq<Slot>, groups: Seq<Group>)
    requires
        slots.len() <= usize::MAX,
        is_grouping(slots, groups),
    ensures
        forall|g: int, h: int|
            0 <= g < h < groups.len() ==> (#[trigger] groups[g]).index < (#[trigger] groups[h]).index,
        forall|g: int|
            0 <= g < groups.len() ==> (#[trigger] groups[g]).slots@.len() > 0,
        forall|g: int, j: int|
            0 <= g < groups.len() && 0 <= j < groups[g].slots@.len() ==> {
                let s = #[trigger] groups[g].slots@[j];
                s < slots.len() && slots[s as int].key is Some && slots[s as int].index
                    == groups[g].index
            },
        forall|g: int, j: int, k: int|
            0 <= g < groups.len() && 0 <= j < k < groups[g].slots@.len()
                ==> #[trigger] groups[g].slots@[j] < #[trigger] groups[g].slots@[k],
        forall|s: int|
            0 <= s < slots.len() && (#[trigger] slots[s]).key is Some ==> exists|g: int|
                {
                    &&& 0 <= g < groups.len()
                    &&& (#[trigger] groups[g]).index == slots[s].index
                    &&& groups[g].slots@.contains(s as usize)
                },
{
    assert forall|g: int, j: int|
        0 <= g < groups.len() && 0 <= j < groups[g].slots@.len() implies {
        let s = #[trigger] groups[g].slots@[j];
        s < slots.len() && slots[s as int].key is Some && slots[s as int].index == groups[g].index
    } by {
        lemma_slots_of(slots, groups[g].index);
        assert(groups[g].slots@ == slots_of(slots, groups[g].index));
        assert(slots_of(slots, groups[g].index)[j] == groups[g].slots@[j]);
    }
    assert forall|g: int, j: int, k: int|
        0 <= g < groups.len() && 0 <= j < k
            < groups[g].slots@.len() implies #[trigger] groups[g].slots@[j]
        < #[trigger] groups[g].slots@[k] by {
        lemma_slots_of(slots, groups[g].index);
        assert(groups[g].slots@ == slots_of(slots, groups[g].index));
        assert(slots_of(slots, groups[g].index)[j] < slots_of(slots, groups[g].index)[k]);
    }
    assert forall|s: int| 0 <= s < slots.len() && (#[trigger] slots[s]).key is Some implies exists|
        g: int,
    |
        {
            &&& 0 <= g < groups.len()
            &&& (#[trigger] groups[g]).index == slots[s].index
            &&& groups[g].slots@.contains(s as usize)
        } by {
        assert(has_group(groups, slots[s].index));
        let g = choose|g: int|
            0 <= g < groups.len() && (#[trigger] groups[g]).index == slots[s].index;
        lemma_slots_of(slots, slots[s].index);
        assert(groups[g].slots@ == slots_of(slots, groups[g].index));
    }
}

/// The texts on which a verdict is true, and no others, are accepted.
pub proof fn law_accepted_texts_have_true_verdicts(
    texts: Seq<String>,
    verdicts: Seq<Vec<bool>>,
    at: int,
    text: Seq<char>,
)
    ensures
        accepted(texts, verdicts, at).contains(text) <==> exists|i: int|
            0 <= i < texts.len() && (#[trigger] texts[i])@ == text && verdicts[i]@[at],
{
}

} // verus!
