//! Scores over several columns: the rows of the table, their combined scores and
//! the greatest of them.

use rustc_hash::{FxHashMap, FxHashSet};
use vstd::prelude::*;

use crate::collections::{
    contains_text, insert_row, new_row_map, no_rows, row_map, row_score, score_map, text_score,
    text_set,
};
use crate::corpus::{
    build_fields, engine_ready, fields_built, fields_failed, group_failed, is_grouping,
    law_only_matching_documents_are_scored, works_through, FieldCorpora, Group, ScoreCorpus,
};
use crate::keys::{
    is_full_mode, is_max_mode, law_other_requests_have_other_slots, request_slots, same_slots,
    slot_views, CacheKey, ScoreError, ScoreRequest, Session, Slot, SlotView, FULL_SCORE,
    MAX_FULL_SCORE, MAX_SCORE, SCORE,
};
use crate::single::{larger, law_larger_bounds_both, maximum, rank, ZERO};
use crate::text::{enclose, enclosed, join, joined, prefixed};
use crate::truth::{holds, qualifies, runs};

verus! {

/// What an index is defined over: an expression, and the condition on its rows
/// where the index is partial.
#[derive(Debug)]
pub struct IndexDefinition {
    pub expression: String,
    pub predicate: Option<String>,
}

/// What a definition holds.
pub struct DefinitionView {
    pub expression: Seq<char>,
    pub predicate: Option<Seq<char>>,
}

impl View for IndexDefinition {
    type V = DefinitionView;

    open spec fn view(&self) -> DefinitionView {
        DefinitionView {
            expression: self.expression@,
            predicate: match self.predicate {
                Some(predicate) => Some(predicate@),
                None => None,
            },
        }
    }
}

/// What the definitions hold.
pub open spec fn definition_views(definitions: Seq<IndexDefinition>) -> Seq<DefinitionView> {
    definitions.map_values(|definition: IndexDefinition| definition@)
}

/// The expressions of the indexes, each as text.
pub open spec fn expression_parts(definitions: Seq<DefinitionView>) -> Seq<Seq<char>> {
    definitions.map_values(
        |definition: DefinitionView| enclosed("("@, definition.expression, ")::text"@),
    )
}

/// The conditions of the partial indexes, each in parentheses.
pub open spec fn predicate_parts(definitions: Seq<DefinitionView>) -> Seq<Seq<char>> {
    definitions.filter_map(
        |definition: DefinitionView|
            match definition.predicate {
                Some(predicate) => Some(enclosed("("@, predicate, ")"@)),
                None => None,
            },
    )
}

/// The restriction to the rows that all indexes hold.
pub open spec fn row_filter(definitions: Seq<DefinitionView>) -> Seq<char> {
    let predicates = predicate_parts(definitions);
    if predicates.len() == 0 {
        Seq::empty()
    } else {
        " WHERE "@ + joined(predicates, " AND "@)
    }
}

/// The statement that reads the scored columns of all rows.
pub open spec fn scan_text(
    definitions: Seq<DefinitionView>,
    relation: Seq<char>,
) -> Seq<char> {
    "SELECT ARRAY["@ + joined(expression_parts(definitions), ", "@) + "] FROM "@ + relation
        + row_filter(definitions)
}

/// Writes the statement that reads the scored columns of all rows.
pub fn scan_statement(definitions: &Vec<IndexDefinition>, relation: &str) -> (statement: String)
    ensures
        statement@ == scan_text(definition_views(definitions@), relation@),
{
    let mut expressions: Vec<String> = Vec::new();
    let mut predicates: Vec<String> = Vec::new();
    let ghost views = definition_views(definitions@);
    let ghost pick = |definition: DefinitionView|
        match definition.predicate {
            Some(predicate) => Some(enclosed("("@, predicate, ")"@)),
            None => None,
        };
    let mut at: usize = 0;
    proof {
        assert(views.take(0).filter_map(pick) =~= Seq::<Seq<char>>::empty()) by {
            reveal_with_fuel(Seq::filter_map, 1);
        }
        assert(predicates.deep_view() =~= Seq::<Seq<char>>::empty());
    }
    while at < definitions.len()
        invariant
            at <= definitions@.len(),
            views == definition_views(definitions@),
            pick == (|definition: DefinitionView|
                match definition.predicate {
                    Some(predicate) => Some(enclosed("("@, predicate, ")"@)),
                    None => None,
                }),
            expressions@.len() == at,
            forall|i: int|
                0 <= i < at ==> (#[trigger] expressions@[i])@ == enclosed(
                    "("@,
                    views[i].expression,
                    ")::text"@,
                ),
            predicates.deep_view() == views.take(at as int).filter_map(pick),
        decreases definitions@.len() - at,
    {
        proof {
            views.lemma_filter_map_take_succ(pick, at as int);
            assert(views[at as int] == definitions@[at as int]@);
        }
        let ghost before = predicates.deep_view();
        let definition = &definitions[at];
        expressions.push(enclose("(", definition.expression.as_str(), ")::text"));
        if let Some(predicate) = &definition.predicate {
            let part = enclose("(", predicate.as_str(), ")");
            predicates.push(part);
            assert(predicates.deep_view() =~= before.push(enclosed("("@, predicate@, ")"@)));
            assert(views.take(at + 1).filter_map(pick) =~= before.push(
                enclosed("("@, predicate@, ")"@),
            ));
        } else {
            assert(views.take(at + 1).filter_map(pick) =~= before);
        }
        at = at + 1;
    }
    proof {
        assert(views.take(at as int) =~= views);
        assert(expressions.deep_view() =~= expression_parts(views));
        assert(predicates.deep_view() == predicate_parts(views));
    }
    let mut statement = "SELECT ARRAY[".to_owned();
    statement.append(join(&expressions, ", ").as_str());
    statement.append("] FROM ");
    statement.append(relation);
    if predicates.len() > 0 {
        let filter = prefixed(" WHERE ", join(&predicates, " AND ").as_str());
        statement.append(filter.as_str());
        assert(predicates.deep_view().len() > 0);
    } else {
        assert(predicates.deep_view().len() == 0);
        assert(statement@ + Seq::<char>::empty() =~= statement@);
    }
    statement
}

/// The verdict of each slot on a row: none where the row has no document or the
/// slot no query, else whether the slot's query matches the document.
pub open spec fn verdicts(
    row: Seq<Option<Seq<char>>>,
    matches: Seq<Option<FxHashSet<String>>>,
) -> Seq<Option<bool>> {
    Seq::new(
        if row.len() < matches.len() {
            row.len()
        } else {
            matches.len()
        },
        |i: int|
            match (row[i], matches[i]) {
                (Some(document), Some(set)) => Some(text_set(set).contains(document)),
                _ => None,
            },
    )
}

/// Works out the verdict of each slot on a row.
pub fn row_verdicts(row: &Vec<Option<String>>, matches: &Vec<Option<FxHashSet<String>>>) -> (said:
    Vec<Option<bool>>)
    ensures
        said@ == verdicts(row.deep_view(), matches@),
{
    let mut said: Vec<Option<bool>> = Vec::new();
    let mut at: usize = 0;
    while at < row.len() && at < matches.len()
        invariant
            at <= row@.len(),
            at <= matches@.len(),
            said@.len() == at,
            forall|i: int|
                0 <= i < at ==> #[trigger] said@[i] == verdicts(row.deep_view(), matches@)[i],
        decreases row@.len() - at,
    {
        let verdict = match (&row[at], &matches[at]) {
            (Some(document), Some(set)) => Some(contains_text(set, document)),
            _ => None,
        };
        said.push(verdict);
        at = at + 1;
    }
    assert(said@ =~= verdicts(row.deep_view(), matches@));
    said
}

/// The score of a row's document under one index: zero where the row has no
/// document there or the document does not match.
pub open spec fn part(
    row: Seq<Option<Seq<char>>>,
    scored: (usize, ScoreCorpus),
) -> u32 {
    match row[scored.0 as int] {
        Some(document) => if scored.1.scores().contains_key(document) {
            scored.1.scores()[document]
        } else {
            ZERO
        },
        None => ZERO,
    }
}

/// The scores of a row under each index, in the order of the indexes.
pub open spec fn parts(
    row: Seq<Option<Seq<char>>>,
    scored: Seq<(usize, ScoreCorpus)>,
) -> Seq<u32> {
    scored.map_values(|entry: (usize, ScoreCorpus)| part(row, entry))
}

/// Looks up the scores of a row under each index.
pub fn row_parts(row: &Vec<Option<String>>, scored: &Vec<(usize, ScoreCorpus)>) -> (found: Vec<u32>)
    requires
        forall|g: int| 0 <= g < scored@.len() ==> (#[trigger] scored@[g]).0 < row@.len(),
    ensures
        found@ == parts(row.deep_view(), scored@),
{
    let mut found: Vec<u32> = Vec::new();
    let mut at: usize = 0;
    while at < scored.len()
        invariant
            at <= scored@.len(),
            forall|g: int| 0 <= g < scored@.len() ==> (#[trigger] scored@[g]).0 < row@.len(),
            found@.len() == at,
            forall|g: int|
                0 <= g < at ==> #[trigger] found@[g] == part(row.deep_view(), scored@[g]),
        decreases scored@.len() - at,
    {
        assert(scored@[at as int].0 < row@.len());
        let entry = &scored[at];
        let score: u32 = match &row[entry.0] {
            Some(document) => match text_score(&entry.1.by_document, document) {
                Some(bits) => bits,
                None => ZERO,
            },
            None => ZERO,
        };
        found.push(score);
        at = at + 1;
    }
    assert(found@ =~= parts(row.deep_view(), scored@));
    found
}

/// The rows of a table with their scores, for one set of slots and one condition.
#[derive(Debug)]
pub struct MultiCorpus {
    pub slots: Vec<Slot>,
    pub condition: Vec<i32>,
    pub by_document: FxHashMap<Vec<Option<String>>, u32>,
    pub max: u32,
}

/// The score of each row. Of rows with the same documents the last one counts.
pub open spec fn tabled(rows: Seq<Seq<Option<Seq<char>>>>, scores: Seq<u32>) -> Map<
    Seq<Option<Seq<char>>>,
    u32,
>
    decreases rows.len(),
{
    if rows.len() == 0 {
        no_rows()
    } else {
        tabled(rows.drop_last(), scores).insert(rows.last(), scores[rows.len() - 1])
    }
}

/// The greatest score of the rows that satisfy the condition, and at least zero.
pub open spec fn greatest(
    rows: Seq<Seq<Option<Seq<char>>>>,
    scores: Seq<u32>,
    condition: Seq<i32>,
    matches: Seq<Option<FxHashSet<String>>>,
) -> u32
    decreases rows.len(),
{
    if rows.len() == 0 {
        ZERO
    } else {
        let before = greatest(rows.drop_last(), scores, condition, matches);
        if holds(condition, verdicts(rows.last(), matches)) {
            larger(before, scores[rows.len() - 1])
        } else {
            before
        }
    }
}

impl MultiCorpus {
    /// The table was made for these slots and this condition.
    pub open spec fn is_for(self, slots: Seq<SlotView>, condition: Seq<i32>) -> bool {
        slot_views(self.slots@) == slots && self.condition@ == condition
    }

    /// The score that a mode asks for: the greatest one, or that of the row, which
    /// is zero where the table does not have it.
    pub open spec fn answer(self, mode: i32, documents: Seq<Option<Seq<char>>>) -> u32 {
        if is_max_mode(mode) {
            self.max
        } else if row_map(self.by_document).contains_key(documents) {
            row_map(self.by_document)[documents]
        } else {
            ZERO
        }
    }

    /// Whether the table was made for these slots and this condition.
    pub fn is_current(&self, slots: &Vec<Slot>, condition: &Vec<i32>) -> (current: bool)
        ensures
            current == self.is_for(slot_views(slots@), condition@),
    {
        if !same_slots(&self.slots, slots) || self.condition.len() != condition.len() {
            return false;
        }
        let mut at: usize = 0;
        while at < condition.len()
            invariant
                at <= condition@.len(),
                condition@.len() == self.condition@.len(),
                forall|i: int| 0 <= i < at ==> self.condition@[i] == condition@[i],
            decreases condition@.len() - at,
        {
            if self.condition[at] != condition[at] {
                return false;
            }
            at = at + 1;
        }
        assert(self.condition@ =~= condition@);
        true
    }

    /// Looks up the score that a mode asks for.
    pub fn score(&self, mode: i32, documents: &Vec<Option<String>>) -> (score: u32)
        ensures
            score == self.answer(mode, documents.deep_view()),
    {
        if mode == MAX_SCORE || mode == MAX_FULL_SCORE {
            self.max
        } else {
            match row_score(&self.by_document, documents) {
                Some(bits) => bits,
                None => ZERO,
            }
        }
    }

    /// Adds a row with its combined score.
    pub fn add_row(&mut self, fields: &FieldCorpora, row: Vec<Option<String>>, score: u32)
        requires
            runs(
                old(self).condition@,
                verdicts(row.deep_view(), fields.matches@).len(),
            ),
        ensures
            final(self).slots == old(self).slots,
            final(self).condition == old(self).condition,
            row_map(final(self).by_document) == row_map(old(self).by_document).insert(
                row.deep_view(),
                score,
            ),
            final(self).max == if holds(
                old(self).condition@,
                verdicts(row.deep_view(), fields.matches@),
            ) {
                larger(old(self).max, score)
            } else {
                old(self).max
            },
    {
        let said = row_verdicts(&row, &fields.matches);
        if qualifies(self.condition.as_slice(), said.as_slice()) {
            self.max = maximum(self.max, score);
        }
        insert_row(&mut self.by_document, row, score);
    }
}

/// Makes the table of the rows with these combined scores.
pub fn table_rows(
    slots: Vec<Slot>,
    condition: Vec<i32>,
    fields: &FieldCorpora,
    rows: Vec<Vec<Option<String>>>,
    scores: &Vec<u32>,
) -> (corpus: MultiCorpus)
    requires
        scores@.len() == rows@.len(),
        forall|i: int|
            0 <= i < rows@.len() ==> (#[trigger] rows@[i])@.len() >= fields.matches@.len(),
        rows@.len() > 0 ==> runs(condition@, fields.matches@.len()),
    ensures
        corpus.slots == slots,
        corpus.condition == condition,
        row_map(corpus.by_document) == tabled(rows.deep_view(), scores@),
        corpus.max == greatest(rows.deep_view(), scores@, condition@, fields.matches@),
{
    let ghost all = rows@;
    let ghost texts = rows.deep_view();
    let mut rest = rows;
    let mut corpus = MultiCorpus { slots, condition, by_document: new_row_map(), max: ZERO };
    let mut at: usize = 0;
    while at < rest.len()
        invariant
            at <= all.len(),
            rest@.len() == all.len(),
            scores@.len() == all.len(),
            texts.len() == all.len(),
            forall|i: int| 0 <= i < all.len() ==> texts[i] == (#[trigger] all[i]).deep_view(),
            forall|i: int| at <= i < all.len() ==> #[trigger] rest@[i] == all[i],
            forall|i: int|
                0 <= i < all.len() ==> (#[trigger] all[i])@.len() >= fields.matches@.len(),
            all.len() > 0 ==> runs(condition@, fields.matches@.len()),
            corpus.slots == slots,
            corpus.condition == condition,
            row_map(corpus.by_document) == tabled(texts.take(at as int), scores@),
            corpus.max == greatest(
                texts.take(at as int),
                scores@,
                condition@,
                fields.matches@,
            ),
        decreases all.len() - at,
    {
        let mut row: Vec<Option<String>> = Vec::new();
        proof {
            assert(rest@[at as int] == all[at as int]);
            assert(texts.take(at + 1).drop_last() =~= texts.take(at as int));
            assert(texts.take(at + 1).last() == texts[at as int]);
            assert(all[at as int]@.len() >= fields.matches@.len());
        }
        std::mem::swap(&mut rest[at], &mut row);
        assert(row == all[at as int]);
        corpus.add_row(fields, row, scores[at]);
        at = at + 1;
    }
    assert(texts.take(at as int) =~= texts);
    corpus
}

/// How the rows of a table are read: the definitions of the scored indexes, the
/// name of the table, and the statement written from them.
pub struct Scan {
    pub definitions: Seq<IndexDefinition>,
    pub relation: String,
    pub statement: String,
}

/// The host tells how an index is defined and how a table is written, runs a
/// statement, and adds up scores. It can be asked for anything, and the rows that
/// a statement gives have at least `width` columns.
pub open spec fn host_ready<
    I: Fn(u32, u32) -> IndexDefinition,
    R: FnOnce(u32) -> String,
    S: FnOnce(&String) -> Result<Vec<Vec<Option<String>>>, String>,
    A: Fn(&Vec<u32>) -> u32,
>(host: (I, R, S, A), width: nat) -> bool {
    &&& forall|heap: u32, index: u32| host.0.requires((heap, index))
    &&& forall|heap: u32| host.1.requires((heap,))
    &&& forall|statement: &String| host.2.requires((statement,))
    &&& forall|statement: &String, rows: Vec<Vec<Option<String>>>| #[trigger]
        host.2.ensures((statement,), Ok(rows)) ==> forall|i: int|
            0 <= i < rows@.len() ==> (#[trigger] rows@[i])@.len() >= width
    &&& forall|scores: &Vec<u32>| host.3.requires((scores,))
}

/// The condition can be run over the columns. Where it cannot, no statement gives
/// a row on which it would have to.
pub open spec fn condition_ready<S: FnOnce(&String) -> Result<Vec<Vec<Option<String>>>, String>>(
    select: S,
    request: ScoreRequest,
) -> bool {
    runs(request.condition@, request.indexes@.len()) || forall|
        statement: &String,
        rows: Vec<Vec<Option<String>>>,
    | #[trigger]
        select.ensures((statement,), Ok(rows)) ==> rows@.len() == 0
}

/// The statement that reads the rows was written from what the host told.
pub open spec fn scans<
    I: Fn(u32, u32) -> IndexDefinition,
    R: FnOnce(u32) -> String,
    S: FnOnce(&String) -> Result<Vec<Vec<Option<String>>>, String>,
    A: Fn(&Vec<u32>) -> u32,
>(host: (I, R, S, A), request: ScoreRequest, scan: Scan) -> bool {
    &&& scan.definitions.len() == request.indexes@.len()
    &&& forall|i: int|
        0 <= i < scan.definitions.len() ==> host.0.ensures(
            (request.heap_oid as u32, request.indexes@[i] as u32),
            #[trigger] scan.definitions[i],
        )
    &&& host.1.ensures((request.heap_oid as u32,), scan.relation)
    &&& scan.statement@ == scan_text(definition_views(scan.definitions), scan.relation@)
}

/// The host added up these scores to this one.
pub open spec fn summed<A: Fn(&Vec<u32>) -> u32>(sum: A, scores: Seq<u32>, total: u32) -> bool {
    exists|list: Vec<u32>| list@ == scores && #[trigger] sum.ensures((&list,), total)
}

/// What a table was made from: the groups of its columns and the outcome for
/// them, how its rows were read, the rows, and their combined scores.
pub struct Source {
    pub groups: Seq<Group>,
    pub fields: FieldCorpora,
    pub scan: Scan,
    pub rows: Vec<Vec<Option<String>>>,
    pub scores: Seq<u32>,
}

/// The table was made from this.
pub open spec fn tables<
    T,
    Q,
    D,
    C: Fn(&CacheKey) -> ScoreCorpus,
    O: Fn(u32) -> T,
    P: Fn(&String, &T) -> Result<Q, String>,
    K: Fn(&String, &T) -> D,
    E: Fn(&Q, &D) -> Result<bool, String>,
    I: Fn(u32, u32) -> IndexDefinition,
    R: FnOnce(u32) -> String,
    S: FnOnce(&String) -> Result<Vec<Vec<Option<String>>>, String>,
    A: Fn(&Vec<u32>) -> u32,
>(
    engine: (C, O, P, K, E),
    host: (I, R, S, A),
    request: ScoreRequest,
    corpus: MultiCorpus,
    source: Source,
) -> bool {
    &&& source.fields.fits(corpus.slots@.len())
    &&& fields_built::<T, Q, D, C, O, P, K, E>(
        corpus.slots@,
        source.groups,
        source.fields,
        engine,
    )
    &&& scans(host, request, source.scan)
    &&& host.2.ensures((&source.scan.statement,), Ok(source.rows))
    &&& source.scores.len() == source.rows@.len()
    &&& forall|i: int|
        0 <= i < source.rows@.len() ==> summed(
            host.3,
            parts((#[trigger] source.rows@[i]).deep_view(), source.fields.scored@),
            source.scores[i],
        )
    &&& row_map(corpus.by_document) == tabled(source.rows.deep_view(), source.scores)
    &&& corpus.max == greatest(
        source.rows.deep_view(),
        source.scores,
        corpus.condition@,
        source.fields.matches@,
    )
}

/// The table was made anew for this request.
pub open spec fn rebuilt<
    T,
    Q,
    D,
    C: Fn(&CacheKey) -> ScoreCorpus,
    O: Fn(u32) -> T,
    P: Fn(&String, &T) -> Result<Q, String>,
    K: Fn(&String, &T) -> D,
    E: Fn(&Q, &D) -> Result<bool, String>,
    I: Fn(u32, u32) -> IndexDefinition,
    R: FnOnce(u32) -> String,
    S: FnOnce(&String) -> Result<Vec<Vec<Option<String>>>, String>,
    A: Fn(&Vec<u32>) -> u32,
>(
    engine: (C, O, P, K, E),
    host: (I, R, S, A),
    request: ScoreRequest,
    session: Session,
    corpus: MultiCorpus,
) -> bool {
    &&& corpus.is_for(request.slots(session), request.condition@)
    &&& exists|source: Source| #[trigger]
        tables::<T, Q, D, C, O, P, K, E, I, R, S, A>(
            engine,
            host,
            request,
            corpus,
            source,
        )
}

/// The table could not be made: working through the columns failed, or, after
/// that, running the statement that reads the rows.
pub open spec fn rebuild_failed<
    T,
    Q,
    D,
    C: Fn(&CacheKey) -> ScoreCorpus,
    O: Fn(u32) -> T,
    P: Fn(&String, &T) -> Result<Q, String>,
    K: Fn(&String, &T) -> D,
    E: Fn(&Q, &D) -> Result<bool, String>,
    I: Fn(u32, u32) -> IndexDefinition,
    R: FnOnce(u32) -> String,
    S: FnOnce(&String) -> Result<Vec<Vec<Option<String>>>, String>,
    A: Fn(&Vec<u32>) -> u32,
>(
    engine: (C, O, P, K, E),
    host: (I, R, S, A),
    request: ScoreRequest,
    session: Session,
    error: ScoreError,
) -> bool {
    exists|slots: Vec<Slot>|
        {
            &&& #[trigger] slot_views(slots@) == request.slots(session)
            &&& match error {
                ScoreError::Scan(message) => works_out::<T, Q, D, C, O, P, K, E>(slots@, engine)
                    && scan_failed(host, request, message),
                _ => fields_failed::<T, Q, D, C, O, P, K, E>(slots@, error, engine),
            }
        }
}

/// The columns can be worked through.
pub open spec fn works_out<
    T,
    Q,
    D,
    C: Fn(&CacheKey) -> ScoreCorpus,
    O: Fn(u32) -> T,
    P: Fn(&String, &T) -> Result<Q, String>,
    K: Fn(&String, &T) -> D,
    E: Fn(&Q, &D) -> Result<bool, String>,
>(slots: Seq<Slot>, engine: (C, O, P, K, E)) -> bool {
    exists|groups: Seq<Group>, fields: FieldCorpora| #[trigger]
        fields_built::<T, Q, D, C, O, P, K, E>(slots, groups, fields, engine)
}

/// Running the statement that reads the rows failed.
pub open spec fn scan_failed<
    I: Fn(u32, u32) -> IndexDefinition,
    R: FnOnce(u32) -> String,
    S: FnOnce(&String) -> Result<Vec<Vec<Option<String>>>, String>,
    A: Fn(&Vec<u32>) -> u32,
>(host: (I, R, S, A), request: ScoreRequest, message: String) -> bool {
    exists|scan: Scan| #[trigger]
        scans(host, request, scan) && host.2.ensures((&scan.statement,), Err(message))
}

/// Makes the table for a request.
fn rebuild<
    T,
    Q,
    D,
    C: Fn(&CacheKey) -> ScoreCorpus,
    O: Fn(u32) -> T,
    P: Fn(&String, &T) -> Result<Q, String>,
    K: Fn(&String, &T) -> D,
    E: Fn(&Q, &D) -> Result<bool, String>,
    I: Fn(u32, u32) -> IndexDefinition,
    R: FnOnce(u32) -> String,
    S: FnOnce(&String) -> Result<Vec<Vec<Option<String>>>, String>,
    A: Fn(&Vec<u32>) -> u32,
>(
    request: &ScoreRequest,
    session: &Session,
    slots: Vec<Slot>,
    engine: &(C, O, P, K, E),
    host: (I, R, S, A),
) -> (outcome: Result<MultiCorpus, ScoreError>)
    requires
        request.matched(),
        slot_views(slots@) == request.slots(*session),
        condition_ready(host.2, *request),
        engine_ready::<T, Q, D, C, O, P, K, E>(*engine),
        host_ready(host, request.indexes@.len()),
    ensures
        match outcome {
            Ok(corpus) => rebuilt::<T, Q, D, C, O, P, K, E, I, R, S, A>(
                *engine,
                host,
                *request,
                *session,
                corpus,
            ),
            Err(error) => rebuild_failed::<T, Q, D, C, O, P, K, E, I, R, S, A>(
                *engine,
                host,
                *request,
                *session,
                error,
            ),
        },
{
    let ghost whole = host;
    let (definition, relation, select, sum) = host;
    let fields = match build_fields::<T, Q, D, C, O, P, K, E>(&slots, engine) {
        Ok(fields) => fields,
        Err(error) => {
            assert(slot_views(slots@) == request.slots(*session));
            return Err(error);
        },
    };
    let ghost groups = choose|groups: Seq<Group>| #[trigger]
        fields_built::<T, Q, D, C, O, P, K, E>(slots@, groups, fields, *engine);
    assert(slot_views(slots@).len() == slots@.len());
    assert(fields.fits(request.indexes@.len()));
    let mut definitions: Vec<IndexDefinition> = Vec::new();
    let mut at: usize = 0;
    while at < request.indexes.len()
        invariant
            at <= request.indexes@.len(),
            definition == whole.0,
            forall|heap: u32, index: u32| definition.requires((heap, index)),
            definitions@.len() == at,
            forall|i: int|
                0 <= i < at ==> definition.ensures(
                    (request.heap_oid as u32, request.indexes@[i] as u32),
                    #[trigger] definitions@[i],
                ),
        decreases request.indexes@.len() - at,
    {
        definitions.push(definition(request.heap_oid as u32, request.indexes[at] as u32));
        at = at + 1;
    }
    let name = relation(request.heap_oid as u32);
    let statement = scan_statement(&definitions, name.as_str());
    let ghost scan = Scan { definitions: definitions@, relation: name, statement };
    assert(scans(whole, *request, scan));
    let rows = match select(&statement) {
        Ok(rows) => rows,
        Err(error) => {
            assert(scans(whole, *request, scan) && whole.2.ensures(
                (&scan.statement,),
                Err(error),
            ));
            assert(scan_failed(whole, *request, error));
            assert(works_out::<T, Q, D, C, O, P, K, E>(slots@, *engine));
            assert(slot_views(slots@) == request.slots(*session));
            return Err(ScoreError::Scan(error));
        },
    };
    let mut scores: Vec<u32> = Vec::new();
    let mut i: usize = 0;
    while i < rows.len()
        invariant
            i <= rows@.len(),
            sum == whole.3,
            forall|list: &Vec<u32>| sum.requires((list,)),
            fields.fits(request.indexes@.len()),
            forall|k: int|
                0 <= k < rows@.len() ==> (#[trigger] rows@[k])@.len() >= request.indexes@.len(),
            scores@.len() == i,
            forall|k: int|
                0 <= k < i ==> summed(
                    sum,
                    parts((#[trigger] rows@[k]).deep_view(), fields.scored@),
                    scores@[k],
                ),
        decreases rows@.len() - i,
    {
        assert(rows@[i as int]@.len() >= request.indexes@.len());
        let found = row_parts(&rows[i], &fields.scored);
        let total: u32 = sum(&found);
        assert(summed(sum, parts(rows@[i as int].deep_view(), fields.scored@), total));
        scores.push(total);
        i = i + 1;
    }
    let condition = copy_program(&request.condition);
    let ghost source = Source { groups, fields, scan, rows, scores: scores@ };
    let corpus = table_rows(slots, condition, &fields, rows, &scores);
    assert(tables::<T, Q, D, C, O, P, K, E, I, R, S, A>(
        *engine,
        whole,
        *request,
        corpus,
        source,
    ));
    Ok(corpus)
}

/// Copies a program.
fn copy_program(program: &Vec<i32>) -> (copy: Vec<i32>)
    ensures
        copy@ == program@,
{
    let mut copy: Vec<i32> = Vec::new();
    let mut at: usize = 0;
    while at < program.len()
        invariant
            at <= program@.len(),
            copy@ =~= program@.take(at as int),
        decreases program@.len() - at,
    {
        copy.push(program[at]);
        at = at + 1;
    }
    assert(copy@ =~= program@);
    copy
}

/// What a request for a score comes to. The inputs are refused exactly where their
/// lists differ in length. Else a table at hand for the same slots and condition
/// answers and stays; where there is none, the table is made anew and answers,
/// or cannot be made, and what is at hand stays.
pub open spec fn answered<
    T,
    Q,
    D,
    C: Fn(&CacheKey) -> ScoreCorpus,
    O: Fn(u32) -> T,
    P: Fn(&String, &T) -> Result<Q, String>,
    K: Fn(&String, &T) -> D,
    E: Fn(&Q, &D) -> Result<bool, String>,
    I: Fn(u32, u32) -> IndexDefinition,
    R: FnOnce(u32) -> String,
    S: FnOnce(&String) -> Result<Vec<Vec<Option<String>>>, String>,
    A: Fn(&Vec<u32>) -> u32,
>(
    engine: (C, O, P, K, E),
    host: (I, R, S, A),
    request: ScoreRequest,
    session: Session,
    before: Option<MultiCorpus>,
    after: Option<MultiCorpus>,
    outcome: Result<u32, ScoreError>,
) -> bool {
    match outcome {
        Ok(score) => {
            &&& request.matched()
            &&& after matches Some(corpus) && {
                &&& corpus.is_for(request.slots(session), request.condition@)
                &&& score == corpus.answer(request.mode, request.documents.deep_view())
                &&& if usable(before, request, session) {
                    after == before
                } else {
                    rebuilt::<T, Q, D, C, O, P, K, E, I, R, S, A>(
                        engine,
                        host,
                        request,
                        session,
                        corpus,
                    )
                }
            }
        },
        Err(error) => {
            &&& after == before
            &&& if request.matched() {
                &&& !usable(before, request, session)
                &&& rebuild_failed::<T, Q, D, C, O, P, K, E, I, R, S, A>(
                    engine,
                    host,
                    request,
                    session,
                    error,
                )
            } else {
                error is MismatchedInputs
            }
        },
    }
}

/// Scores a row over several columns, or finds the greatest score. The table of
/// an earlier call is used where it was made for the same slots and condition,
/// else it is made anew; a failure leaves it as it was.
pub fn score_many_bound<
    T,
    Q,
    D,
    C: Fn(&CacheKey) -> ScoreCorpus,
    O: Fn(u32) -> T,
    P: Fn(&String, &T) -> Result<Q, String>,
    K: Fn(&String, &T) -> D,
    E: Fn(&Q, &D) -> Result<bool, String>,
    I: Fn(u32, u32) -> IndexDefinition,
    R: FnOnce(u32) -> String,
    S: FnOnce(&String) -> Result<Vec<Vec<Option<String>>>, String>,
    A: Fn(&Vec<u32>) -> u32,
>(
    cache: &mut Option<MultiCorpus>,
    request: &ScoreRequest,
    session: &Session,
    engine: &(C, O, P, K, E),
    host: (I, R, S, A),
) -> (outcome: Result<u32, ScoreError>)
    requires
        request.matched() ==> condition_ready(host.2, *request),
        engine_ready::<T, Q, D, C, O, P, K, E>(*engine),
        host_ready(host, request.indexes@.len()),
    ensures
        answered::<T, Q, D, C, O, P, K, E, I, R, S, A>(
            *engine,
            host,
            *request,
            *session,
            *old(cache),
            *final(cache),
            outcome,
        ),
{
    let slots = match request_slots(request, session) {
        Ok(slots) => slots,
        Err(error) => return Err(error),
    };
    let current = match cache.as_ref() {
        Some(corpus) => corpus.is_current(&slots, &request.condition),
        None => false,
    };
    if !current {
        match rebuild::<T, Q, D, C, O, P, K, E, I, R, S, A>(
            request,
            session,
            slots,
            engine,
            host,
        ) {
            Ok(corpus) => {
                *cache = Some(corpus);
            },
            Err(error) => return Err(error),
        }
    }
    Ok(cache.as_ref().unwrap().score(request.mode, &request.documents))
}

/// The table at hand was made for the slots and the condition of the request.
pub open spec fn usable(
    cache: Option<MultiCorpus>,
    request: ScoreRequest,
    session: Session,
) -> bool {
    cache matches Some(corpus) && corpus.is_for(request.slots(session), request.condition@)
}

/// The greatest score bounds the score of every row that satisfies the condition.
/// It is a number, not below zero and never the negative zero, and either zero or
/// the score of such a row.
pub proof fn law_greatest_is_attained_bound(
    rows: Seq<Seq<Option<Seq<char>>>>,
    scores: Seq<u32>,
    condition: Seq<i32>,
    matches: Seq<Option<FxHashSet<String>>>,
)
    requires
        scores.len() >= rows.len(),
    ensures
        rank(greatest(rows, scores, condition, matches)) is Some,
        rank(greatest(rows, scores, condition, matches))->0 >= 0,
        rank(greatest(rows, scores, condition, matches))->0 == 0 ==> greatest(
            rows,
            scores,
            condition,
            matches,
        ) == ZERO,
        forall|i: int|
            0 <= i < rows.len() && holds(condition, verdicts(#[trigger] rows[i], matches)) && rank(
                scores[i],
            ) is Some ==> rank(greatest(rows, scores, condition, matches))->0 >= rank(scores[i])->0,
        greatest(rows, scores, condition, matches) == ZERO || exists|i: int|
            {
                &&& 0 <= i < rows.len()
                &&& holds(condition, verdicts(#[trigger] rows[i], matches))
                &&& greatest(rows, scores, condition, matches) == scores[i]
            },
    decreases rows.len(),
{
    if rows.len() > 0 {
        let front = rows.drop_last();
        law_greatest_is_attained_bound(front, scores, condition, matches);
        let before = greatest(front, scores, condition, matches);
        let last = rows.len() - 1;
        let whole = greatest(rows, scores, condition, matches);
        law_larger_bounds_both(before, scores[last]);
        assert forall|i: int|
            0 <= i < rows.len() && holds(condition, verdicts(#[trigger] rows[i], matches)) && rank(
                scores[i],
            ) is Some implies rank(whole)->0 >= rank(scores[i])->0 by {
            if i < last {
                assert(front[i] == rows[i]);
            }
        }
        if whole != ZERO {
            if whole == before {
                let i = choose|i: int|
                    {
                        &&& 0 <= i < front.len()
                        &&& holds(condition, verdicts(#[trigger] front[i], matches))
                        &&& before == scores[i]
                    };
                assert(rows[i] == front[i]);
            } else {
                assert(rows[last] == rows.last());
            }
        }
    }
}

/// Rows with the same documents have the same score.
pub open spec fn consistent(rows: Seq<Seq<Option<Seq<char>>>>, scores: Seq<u32>) -> bool {
    forall|i: int, j: int|
        0 <= i < rows.len() && 0 <= j < rows.len() && #[trigger] rows[i] == #[trigger] rows[j]
            ==> scores[i] == scores[j]
}

/// The table has exactly the rows that were read, each with its score.
pub proof fn law_every_row_has_its_score(rows: Seq<Seq<Option<Seq<char>>>>, scores: Seq<u32>)
    requires
        scores.len() >= rows.len(),
        consistent(rows, scores),
    ensures
        forall|row: Seq<Option<Seq<char>>>| #[trigger]
            tabled(rows, scores).contains_key(row) <==> rows.contains(row),
        forall|i: int| 0 <= i < rows.len() ==> tabled(rows, scores)[#[trigger] rows[i]] == scores[i],
    decreases rows.len(),
{
    if rows.len() > 0 {
        let front = rows.drop_last();
        let last = rows.len() - 1;
        assert(consistent(front, scores)) by {
            assert forall|i: int, j: int|
                0 <= i < front.len() && 0 <= j < front.len() && #[trigger] front[i]
                    == #[trigger] front[j] implies scores[i] == scores[j] by {
                assert(rows[i] == rows[j]);
            }
        }
        law_every_row_has_its_score(front, scores);
        let before = tabled(front, scores);
        let whole = tabled(rows, scores);
        assert forall|row: Seq<Option<Seq<char>>>| #[trigger]
            whole.contains_key(row) <==> rows.contains(row) by {
            if rows.contains(row) {
                let k = rows.index_of(row);
                if k < last {
                    assert(front[k] == row);
                    assert(before.contains_key(row));
                }
            }
            if before.contains_key(row) {
                let k = front.index_of(row);
                assert(rows[k] == row);
            }
            assert(rows[last] == rows.last());
        }
        assert forall|i: int| 0 <= i < rows.len() implies whole[#[trigger] rows[i]] == scores[i] by {
            if i < last {
                assert(front[i] == rows[i]);
                if rows[i] == rows[last] {
                    assert(scores[i] == scores[last]);
                }
            }
        }
    } else {
        assert forall|row: Seq<Option<Seq<char>>>| #[trigger]
            tabled(rows, scores).contains_key(row) <==> rows.contains(row) by {}
    }
}

/// The same scores always add up to the same.
pub open spec fn sum_repeats<A: Fn(&Vec<u32>) -> u32>(sum: A) -> bool {
    forall|x: Vec<u32>, y: Vec<u32>, a: u32, b: u32|
        x@ == y@ && #[trigger] sum.ensures((&x,), a) && #[trigger] sum.ensures((&y,), b) ==> a == b
}

/// What the same scores add up to is the same.
pub proof fn lemma_one_sum<A: Fn(&Vec<u32>) -> u32>(sum: A, scores: Seq<u32>, a: u32, b: u32)
    requires
        sum_repeats(sum),
        summed(sum, scores, a),
        summed(sum, scores, b),
    ensures
        a == b,
{
    let x = choose|list: Vec<u32>| list@ == scores && #[trigger] sum.ensures((&list,), a);
    let y = choose|list: Vec<u32>| list@ == scores && #[trigger] sum.ensures((&list,), b);
    assert(x@ == y@);
}

/// In a table, rows with the same documents have the same score.
pub proof fn lemma_scores_are_consistent<
    T,
    Q,
    D,
    C: Fn(&CacheKey) -> ScoreCorpus,
    O: Fn(u32) -> T,
    P: Fn(&String, &T) -> Result<Q, String>,
    K: Fn(&String, &T) -> D,
    E: Fn(&Q, &D) -> Result<bool, String>,
    I: Fn(u32, u32) -> IndexDefinition,
    R: FnOnce(u32) -> String,
    S: FnOnce(&String) -> Result<Vec<Vec<Option<String>>>, String>,
    A: Fn(&Vec<u32>) -> u32,
>(
    engine: (C, O, P, K, E),
    host: (I, R, S, A),
    request: ScoreRequest,
    corpus: MultiCorpus,
    source: Source,
)
    requires
        tables::<T, Q, D, C, O, P, K, E, I, R, S, A>(
            engine,
            host,
            request,
            corpus,
            source,
        ),
        sum_repeats(host.3),
    ensures
        consistent(source.rows.deep_view(), source.scores),
{
    let rows = source.rows.deep_view();
    let scores = source.scores;
    assert forall|i: int, j: int|
        0 <= i < rows.len() && 0 <= j < rows.len() && #[trigger] rows[i]
            == #[trigger] rows[j] implies scores[i] == scores[j] by {
        assert(rows[i] == source.rows@[i].deep_view());
        assert(rows[j] == source.rows@[j].deep_view());
        lemma_one_sum(host.3, parts(rows[i], source.fields.scored@), scores[i], scores[j]);
    }
}

/// The score that a table reports of a row that was read is the sum of the row's
/// scores under each index. A row that was not read has the score zero.
pub proof fn law_reported_scores_are_sums<
    T,
    Q,
    D,
    C: Fn(&CacheKey) -> ScoreCorpus,
    O: Fn(u32) -> T,
    P: Fn(&String, &T) -> Result<Q, String>,
    K: Fn(&String, &T) -> D,
    E: Fn(&Q, &D) -> Result<bool, String>,
    I: Fn(u32, u32) -> IndexDefinition,
    R: FnOnce(u32) -> String,
    S: FnOnce(&String) -> Result<Vec<Vec<Option<String>>>, String>,
    A: Fn(&Vec<u32>) -> u32,
>(
    engine: (C, O, P, K, E),
    host: (I, R, S, A),
    request: ScoreRequest,
    corpus: MultiCorpus,
    source: Source,
)
    requires
        tables::<T, Q, D, C, O, P, K, E, I, R, S, A>(
            engine,
            host,
            request,
            corpus,
            source,
        ),
        sum_repeats(host.3),
    ensures
        forall|i: int|
            0 <= i < source.rows@.len() ==> {
                let row = (#[trigger] source.rows@[i]).deep_view();
                let score = corpus.answer(SCORE, row);
                &&& score == source.scores[i]
                &&& corpus.answer(FULL_SCORE, row) == score
                &&& summed(host.3, parts(row, source.fields.scored@), score)
            },
        forall|documents: Seq<Option<Seq<char>>>|
            !source.rows.deep_view().contains(documents) ==> #[trigger] corpus.answer(
                SCORE,
                documents,
            ) == ZERO,
{
    let rows = source.rows.deep_view();
    let scores = source.scores;
    assert forall|i: int| 0 <= i < rows.len() implies #[trigger] rows[i]
        == source.rows@[i].deep_view() by {}
    lemma_scores_are_consistent::<T, Q, D, C, O, P, K, E, I, R, S, A>(
        engine,
        host,
        request,
        corpus,
        source,
    );
    law_every_row_has_its_score(rows, scores);
    assert forall|i: int| 0 <= i < source.rows@.len() implies {
        let row = (#[trigger] source.rows@[i]).deep_view();
        corpus.answer(SCORE, row) == scores[i]
    } by {
        assert(rows[i] == source.rows@[i].deep_view());
        assert(rows.contains(rows[i]));
        assert(tabled(rows, scores).contains_key(rows[i]));
    }
}

/// The greatest score that a table reports is the greatest of the scores that it
/// reports of the rows that satisfy the condition, or zero where that is more.
pub proof fn law_reported_maximum_is_greatest_reported_score<
    T,
    Q,
    D,
    C: Fn(&CacheKey) -> ScoreCorpus,
    O: Fn(u32) -> T,
    P: Fn(&String, &T) -> Result<Q, String>,
    K: Fn(&String, &T) -> D,
    E: Fn(&Q, &D) -> Result<bool, String>,
    I: Fn(u32, u32) -> IndexDefinition,
    R: FnOnce(u32) -> String,
    S: FnOnce(&String) -> Result<Vec<Vec<Option<String>>>, String>,
    A: Fn(&Vec<u32>) -> u32,
>(
    engine: (C, O, P, K, E),
    host: (I, R, S, A),
    request: ScoreRequest,
    corpus: MultiCorpus,
    source: Source,
    documents: Seq<Option<Seq<char>>>,
)
    requires
        tables::<T, Q, D, C, O, P, K, E, I, R, S, A>(
            engine,
            host,
            request,
            corpus,
            source,
        ),
        sum_repeats(host.3),
    ensures
        ({
            let max = corpus.answer(MAX_SCORE, documents);
            let matches = source.fields.matches@;
            &&& corpus.answer(MAX_FULL_SCORE, documents) == max
            &&& rank(max) is Some
            &&& rank(max)->0 >= 0
            &&& forall|i: int|
                0 <= i < source.rows@.len() && holds(
                    corpus.condition@,
                    verdicts((#[trigger] source.rows@[i]).deep_view(), matches),
                ) ==> {
                    let score = rank(corpus.answer(SCORE, source.rows@[i].deep_view()));
                    score is Some ==> score->0 <= rank(max)->0
                }
            &&& max == ZERO || exists|i: int|
                {
                    &&& 0 <= i < source.rows@.len()
                    &&& holds(
                        corpus.condition@,
                        verdicts((#[trigger] source.rows@[i]).deep_view(), matches),
                    )
                    &&& max == corpus.answer(SCORE, source.rows@[i].deep_view())
                }
        }),
{
    let rows = source.rows.deep_view();
    let scores = source.scores;
    let matches = source.fields.matches@;
    law_greatest_is_attained_bound(rows, scores, corpus.condition@, matches);
    law_reported_scores_are_sums::<T, Q, D, C, O, P, K, E, I, R, S, A>(
        engine,
        host,
        request,
        corpus,
        source,
    );
    assert forall|i: int|
        0 <= i < source.rows@.len() && holds(
            corpus.condition@,
            verdicts((#[trigger] source.rows@[i]).deep_view(), matches),
        ) implies {
        let score = rank(corpus.answer(SCORE, source.rows@[i].deep_view()));
        score is Some ==> score->0 <= rank(corpus.max)->0
    } by {
        assert(rows[i] == source.rows@[i].deep_view());
    }
    if corpus.max != ZERO {
        let i = choose|i: int|
            {
                &&& 0 <= i < rows.len()
                &&& holds(corpus.condition@, verdicts(#[trigger] rows[i], matches))
                &&& corpus.max == scores[i]
            };
        assert(rows[i] == source.rows@[i].deep_view());
    }
}

/// A column in which a row has no document, or whose document no query of its
/// index matches, adds nothing to the row; any other adds the document's score.
pub proof fn law_matching_columns_contribute<
    T,
    Q,
    D,
    C: Fn(&CacheKey) -> ScoreCorpus,
    O: Fn(u32) -> T,
    P: Fn(&String, &T) -> Result<Q, String>,
    K: Fn(&String, &T) -> D,
    E: Fn(&Q, &D) -> Result<bool, String>,
>(
    slots: Seq<Slot>,
    groups: Seq<Group>,
    fields: FieldCorpora,
    engine: (C, O, P, K, E),
    row: Seq<Option<Seq<char>>>,
    g: int,
)
    requires
        slots.len() <= usize::MAX,
        fields_built::<T, Q, D, C, O, P, K, E>(slots, groups, fields, engine),
        0 <= g < groups.len(),
    ensures
        ({
            let entry = fields.scored@[g];
            let document = row[entry.0 as int];
            let found = document is Some && exists|s: int|
                {
                    &&& 0 <= s < slots.len()
                    &&& slots[s].index == groups[g].index
                    &&& (#[trigger] fields.matches@[s]) matches Some(set) && text_set(set).contains(
                        document->0,
                    )
                };
            parts(row, fields.scored@)[g] == if found {
                entry.1.scores()[document->0]
            } else {
                ZERO
            }
        }),
{
    if let Some(document) = row[fields.scored@[g].0 as int] {
        law_only_matching_documents_are_scored::<T, Q, D, C, O, P, K, E>(
            slots,
            groups,
            fields,
            engine,
            g,
            document,
        );
    }
}

/// A NULL query says NULL of every row, and so does a query on a NULL document.
pub proof fn law_null_says_null<
    T,
    Q,
    D,
    C: Fn(&CacheKey) -> ScoreCorpus,
    O: Fn(u32) -> T,
    P: Fn(&String, &T) -> Result<Q, String>,
    K: Fn(&String, &T) -> D,
    E: Fn(&Q, &D) -> Result<bool, String>,
>(
    slots: Seq<Slot>,
    groups: Seq<Group>,
    fields: FieldCorpora,
    engine: (C, O, P, K, E),
    row: Seq<Option<Seq<char>>>,
    s: int,
)
    requires
        fields_built::<T, Q, D, C, O, P, K, E>(slots, groups, fields, engine),
        row.len() == slots.len(),
        0 <= s < slots.len(),
    ensures
        verdicts(row, fields.matches@)[s] is None <==> slots[s].key is None || row[s] is None,
{
    assert(fields.matches@[s] is Some <==> slots[s].key is Some);
}

/// Requests that differ only in the documents and in the mode, and whose modes
/// follow the same policy, are answered from one table. A dense ratio that is not
/// given counts as the default one.
pub proof fn law_one_policy_one_table(a: ScoreRequest, b: ScoreRequest, session: Session)
    requires
        b.queries == a.queries,
        b.heap_oid == a.heap_oid,
        b.indexes == a.indexes,
        b.condition == a.condition,
        b.dense(session) == a.dense(session),
        b.k1 == a.k1,
        b.b == a.b,
        b.term_add == a.term_add,
        b.term_replace == a.term_replace,
        is_full_mode(b.mode) == is_full_mode(a.mode),
    ensures
        b.slots(session) == a.slots(session),
        forall|cache: Option<MultiCorpus>| #[trigger]
            usable(cache, a, session) == usable(cache, b, session),
{
    assert(b.slots(session) =~= a.slots(session));
}

/// The places of the definitions with a condition, and their conditions in
/// parentheses in the same order.
proof fn lemma_predicate_places(definitions: Seq<IndexDefinition>) -> (places: Seq<int>)
    ensures
        predicate_parts(definition_views(definitions)).len() == places.len(),
        forall|k: int|
            0 <= k < places.len() ==> 0 <= #[trigger] places[k] < definitions.len()
                && definitions[places[k]].predicate is Some && predicate_parts(
                definition_views(definitions),
            )[k] == "("@ + definitions[places[k]].predicate->0@ + ")"@,
        forall|k: int, l: int|
            0 <= k < l < places.len() ==> #[trigger] places[k] < #[trigger] places[l],
        forall|i: int|
            0 <= i < definitions.len() && (#[trigger] definitions[i]).predicate is Some
                ==> places.contains(i),
    decreases definitions.len(),
{
    let views = definition_views(definitions);
    if definitions.len() == 0 {
        Seq::empty()
    } else {
        let front = definitions.drop_last();
        let last = definitions.len() - 1;
        let before = lemma_predicate_places(front);
        assert(views.drop_last() =~= definition_views(front));
        assert(views.last() == definitions[last]@);
        assert forall|i: int| 0 <= i < front.len() implies #[trigger] definitions[i]
            == front[i] by {}
        let found = predicate_parts(definition_views(front));
        let places = if definitions[last].predicate is Some {
            before.push(last)
        } else {
            before
        };
        if let Some(predicate) = definitions[last].predicate {
            let part = "("@ + predicate@ + ")"@;
            assert(predicate_parts(views) =~= found + seq![part]);
            assert(places[before.len() as int] == last);
        } else {
            assert(predicate_parts(views) =~= found);
        }
        assert forall|k: int| 0 <= k < before.len() implies #[trigger] places[k] == before[k] by {}
        assert forall|i: int|
            0 <= i < definitions.len() && (#[trigger] definitions[i]).predicate is Some implies places.contains(
        i) by {
            if i < last {
                assert(front[i].predicate is Some);
                let k = before.index_of(i);
                assert(places[k] == i);
            } else {
                assert(places[before.len() as int] == last);
            }
        }
        places
    }
}

/// The statement reads the expression of every index, as text and in order, from
/// the table. It has no `WHERE` exactly when no index is partial. Else it ends in
/// the conditions of all partial indexes, each in parentheses and in order, joined
/// by `AND`: only rows that every index holds are read.
pub proof fn law_scan_reads_the_rows_of_all_indexes(
    definitions: Seq<IndexDefinition>,
    relation: Seq<char>,
) -> (places: Seq<int>)
    ensures
        forall|k: int|
            0 <= k < places.len() ==> 0 <= #[trigger] places[k] < definitions.len()
                && definitions[places[k]].predicate is Some,
        forall|k: int, l: int|
            0 <= k < l < places.len() ==> #[trigger] places[k] < #[trigger] places[l],
        forall|i: int|
            0 <= i < definitions.len() && (#[trigger] definitions[i]).predicate is Some
                ==> places.contains(i),
        ({
            let columns = Seq::new(
                definitions.len(),
                |i: int| "("@ + definitions[i].expression@ + ")::text"@,
            );
            let conditions = Seq::new(
                places.len(),
                |k: int| "("@ + definitions[places[k]].predicate->0@ + ")"@,
            );
            let whole = scan_text(definition_views(definitions), relation);
            let read = "SELECT ARRAY["@ + joined(columns, ", "@) + "] FROM "@ + relation;
            &&& (forall|i: int|
                0 <= i < definitions.len() ==> (#[trigger] definitions[i]).predicate is None)
                ==> whole == read
            &&& (exists|i: int|
                0 <= i < definitions.len() && (#[trigger] definitions[i]).predicate is Some)
                ==> places.len() > 0 && whole == read + (" WHERE "@ + joined(conditions, " AND "@))
        }),
{
    let views = definition_views(definitions);
    let places = lemma_predicate_places(definitions);
    let columns = Seq::new(
        definitions.len(),
        |i: int| "("@ + definitions[i].expression@ + ")::text"@,
    );
    let conditions = Seq::new(
        places.len(),
        |k: int| "("@ + definitions[places[k]].predicate->0@ + ")"@,
    );
    assert(expression_parts(views) =~= columns);
    assert(predicate_parts(views) =~= conditions) by {
        assert forall|k: int| 0 <= k < places.len() implies predicate_parts(views)[k]
            == #[trigger] conditions[k] by {
            assert(0 <= places[k] < definitions.len());
        }
    }
    let read = "SELECT ARRAY["@ + joined(columns, ", "@) + "] FROM "@ + relation;
    if places.len() > 0 {
        assert(definitions[places[0]].predicate is Some);
    } else {
        assert forall|i: int| 0 <= i < definitions.len() implies (
        #[trigger] definitions[i]).predicate is None by {
            if definitions[i].predicate is Some {
                assert(places.contains(i));
            }
        }
        assert(scan_text(views, relation) =~= read);
    }
    places
}

/// A slot says NULL of a row where the row has no document or the slot no set, and
/// else whether the document is in the set; there is a verdict for each column that
/// is also a slot.
pub proof fn law_verdicts_tell_membership(
    row: Seq<Option<Seq<char>>>,
    matches: Seq<Option<FxHashSet<String>>>,
    i: int,
)
    requires
        0 <= i < matches.len(),
        i < row.len(),
    ensures
        verdicts(row, matches).len() <= matches.len(),
        verdicts(row, matches).len() <= row.len(),
        verdicts(row, matches).len() == matches.len() || verdicts(row, matches).len() == row.len(),
        verdicts(row, matches)[i] is None <==> row[i] is None || matches[i] is None,
        row[i] is Some && matches[i] is Some ==> verdicts(row, matches)[i] == Some(
            text_set(matches[i]->0).contains(row[i]->0),
        ),
{
}

/// A row has one part for each scored index: the score of its own document there, or
/// zero where it has none or the document has no score.
pub proof fn law_parts_are_the_scores_of_the_documents(
    row: Seq<Option<Seq<char>>>,
    scored: Seq<(usize, ScoreCorpus)>,
    g: int,
)
    requires
        0 <= g < scored.len(),
    ensures
        parts(row, scored).len() == scored.len(),
        row[scored[g].0 as int] is None ==> parts(row, scored)[g] == 0,
        row[scored[g].0 as int] matches Some(document) ==> {
            &&& !scored[g].1.scores().contains_key(document) ==> parts(row, scored)[g] == 0
            &&& scored[g].1.scores().contains_key(document) ==> parts(row, scored)[g]
                == scored[g].1.scores()[document]
        },
{
}

/// Of rows with the same documents the last one counts; a row that was not read has
/// no entry.
pub proof fn law_last_of_equal_rows_counts(
    rows: Seq<Seq<Option<Seq<char>>>>,
    scores: Seq<u32>,
    at: int,
    row: Seq<Option<Seq<char>>>,
)
    ensures
        !rows.contains(row) ==> !tabled(rows, scores).contains_key(row),
        0 <= at < rows.len() && rows[at] == row && (forall|k: int|
            at < k < rows.len() ==> #[trigger] rows[k] != row) ==> {
            &&& tabled(rows, scores).contains_key(row)
            &&& tabled(rows, scores)[row] == scores[at]
        },
    decreases rows.len(),
{
    if rows.len() > 0 {
        let front = rows.drop_last();
        let last = rows.len() - 1;
        law_last_of_equal_rows_counts(front, scores, at, row);
        assert forall|k: int| 0 <= k < front.len() implies #[trigger] front[k] == rows[k] by {}
        assert(rows[last] == rows.last());
        if front.contains(row) {
            let k = front.index_of(row);
            assert(rows[k] == row);
        }
        if rows.contains(row) && rows[last] != row {
            let k = rows.index_of(row);
            assert(front[k] == row);
        }
        if 0 <= at < last && (forall|k: int| at < k < rows.len() ==> #[trigger] rows[k] != row) {
            assert forall|k: int| at < k < front.len() implies #[trigger] front[k] != row by {
                assert(rows[k] != row);
            }
            assert(rows[last] != row);
        }
    }
}

/// The modes 2 and 3 are answered by the greatest score, all others by the score of
/// the row, which is zero where the table does not have it.
pub proof fn law_modes_have_their_answers(
    corpus: MultiCorpus,
    mode: i32,
    documents: Seq<Option<Seq<char>>>,
)
    ensures
        mode == 2 || mode == 3 ==> corpus.answer(mode, documents) == corpus.max,
        mode != 2 && mode != 3 && row_map(corpus.by_document).contains_key(documents)
            ==> corpus.answer(mode, documents) == row_map(corpus.by_document)[documents],
        mode != 2 && mode != 3 && !row_map(corpus.by_document).contains_key(documents)
            ==> corpus.answer(mode, documents) == 0,
{
}

/// A table is used again exactly when it was made for the same slots and the same
/// condition.
pub proof fn law_tables_are_reused_for_the_same_only(
    corpus: MultiCorpus,
    request: ScoreRequest,
    session: Session,
)
    ensures
        usable(Some(corpus), request, session) <==> slot_views(corpus.slots@)
            == request.slots(session) && corpus.condition@ == request.condition@,
        !usable(None, request, session),
{
}

/// A request is refused for its inputs exactly when their lists differ in length. A
/// failure leaves the table at hand as it was, and comes only where no table at hand
/// was made for the request; a score comes from a table for the request's own slots
/// and condition, which is then at hand.
pub proof fn law_outcomes_have_their_cause<
    T,
    Q,
    D,
    C: Fn(&CacheKey) -> ScoreCorpus,
    O: Fn(u32) -> T,
    P: Fn(&String, &T) -> Result<Q, String>,
    K: Fn(&String, &T) -> D,
    E: Fn(&Q, &D) -> Result<bool, String>,
    I: Fn(u32, u32) -> IndexDefinition,
    R: FnOnce(u32) -> String,
    S: FnOnce(&String) -> Result<Vec<Vec<Option<String>>>, String>,
    A: Fn(&Vec<u32>) -> u32,
>(
    engine: (C, O, P, K, E),
    host: (I, R, S, A),
    request: ScoreRequest,
    session: Session,
    before: Option<MultiCorpus>,
    after: Option<MultiCorpus>,
    outcome: Result<u32, ScoreError>,
)
    requires
        answered::<T, Q, D, C, O, P, K, E, I, R, S, A>(
            engine,
            host,
            request,
            session,
            before,
            after,
            outcome,
        ),
    ensures
        ({
            let even = request.documents@.len() == request.indexes@.len()
                && request.queries@.len() == request.indexes@.len();
            let at_hand = before is Some && slot_views(before->0.slots@) == request.slots(session)
                && before->0.condition@ == request.condition@;
            &&& !even <==> outcome is Err && outcome->Err_0 is MismatchedInputs
            &&& even && at_hand ==> outcome is Ok && after == before
            &&& outcome is Err ==> after == before
            &&& outcome is Ok ==> {
                &&& after is Some
                &&& slot_views(after->0.slots@) == request.slots(session)
                &&& after->0.condition@ == request.condition@
                &&& outcome->Ok_0 == (after->0).answer(
                    request.mode,
                    request.documents.deep_view(),
                )
                &&& at_hand || rebuilt::<T, Q, D, C, O, P, K, E, I, R, S, A>(
                    engine,
                    host,
                    request,
                    session,
                    after->0,
                )
            }
        }),
{
    if let Err(error) = outcome {
        if request.matched() {
            let slots = choose|slots: Vec<Slot>|
                {
                    &&& #[trigger] slot_views(slots@) == request.slots(session)
                    &&& match error {
                        ScoreError::Scan(message) => works_out::<T, Q, D, C, O, P, K, E>(slots@, engine)
                            && scan_failed(host, request, message),
                        _ => fields_failed::<T, Q, D, C, O, P, K, E>(slots@, error, engine),
                    }
                };
            if error is MismatchedInputs {
                assert(fields_failed::<T, Q, D, C, O, P, K, E>(slots@, error, engine));
                let (groups, at) = choose|groups: Seq<Group>, at: int|
                    {
                        &&& is_grouping(slots@, groups)
                        &&& 0 <= at < groups.len()
                        &&& #[trigger] group_failed::<T, Q, D, C, O, P, K, E>(
                            slots@,
                            groups[at],
                            error,
                            engine,
                        )
                        &&& forall|h: int|
                            0 <= h < at ==> works_through::<T, Q, D, C, O, P, K, E>(
                                slots@,
                                #[trigger] groups[h],
                                engine,
                            )
                    };
                assert(group_failed::<T, Q, D, C, O, P, K, E>(slots@, groups[at], error, engine));
                assert(false);
            }
        }
    }
}

/// A failed scan is that of a statement which the host could not run, and the
/// statement was written for the request's own table and indexes.
pub proof fn law_failed_scans_have_their_statement<
    I: Fn(u32, u32) -> IndexDefinition,
    R: FnOnce(u32) -> String,
    S: FnOnce(&String) -> Result<Vec<Vec<Option<String>>>, String>,
    A: Fn(&Vec<u32>) -> u32,
>(host: (I, R, S, A), request: ScoreRequest, message: String) -> (scan: Scan)
    requires
        scan_failed(host, request, message),
    ensures
        host.2.ensures((&scan.statement,), Err(message)),
        scan.definitions.len() == request.indexes@.len(),
        forall|i: int|
            0 <= i < request.indexes@.len() ==> host.0.ensures(
                (request.heap_oid as u32, request.indexes@[i] as u32),
                #[trigger] scan.definitions[i],
            ),
        host.1.ensures((request.heap_oid as u32,), scan.relation),
        scan.statement@ == scan_text(definition_views(scan.definitions), scan.relation@),
{
    choose|scan: Scan| #[trigger]
        scans(host, request, scan) && host.2.ensures((&scan.statement,), Err(message))
}

/// What a table is made from: the columns as they were worked through for its own
/// slots, and the rows that the host gave for the statement over the request's own
/// table and indexes. Each row has the sum of its parts, and the table holds these
/// rows with these scores, and the greatest of those that satisfy the condition.
pub proof fn law_tables_are_made_from_the_request<
    T,
    Q,
    D,
    C: Fn(&CacheKey) -> ScoreCorpus,
    O: Fn(u32) -> T,
    P: Fn(&String, &T) -> Result<Q, String>,
    K: Fn(&String, &T) -> D,
    E: Fn(&Q, &D) -> Result<bool, String>,
    I: Fn(u32, u32) -> IndexDefinition,
    R: FnOnce(u32) -> String,
    S: FnOnce(&String) -> Result<Vec<Vec<Option<String>>>, String>,
    A: Fn(&Vec<u32>) -> u32,
>(
    engine: (C, O, P, K, E),
    host: (I, R, S, A),
    request: ScoreRequest,
    corpus: MultiCorpus,
    source: Source,
)
    requires
        tables::<T, Q, D, C, O, P, K, E, I, R, S, A>(
            engine,
            host,
            request,
            corpus,
            source,
        ),
    ensures
        fields_built::<T, Q, D, C, O, P, K, E>(
            corpus.slots@,
            source.groups,
            source.fields,
            engine,
        ),
        source.scan.definitions.len() == request.indexes@.len(),
        forall|i: int|
            0 <= i < request.indexes@.len() ==> host.0.ensures(
                (request.heap_oid as u32, request.indexes@[i] as u32),
                #[trigger] source.scan.definitions[i],
            ),
        host.1.ensures((request.heap_oid as u32,), source.scan.relation),
        source.scan.statement@ == scan_text(
            definition_views(source.scan.definitions),
            source.scan.relation@,
        ),
        host.2.ensures((&source.scan.statement,), Ok(source.rows)),
        source.scores.len() == source.rows@.len(),
        forall|i: int|
            0 <= i < source.rows@.len() ==> summed(
                host.3,
                parts((#[trigger] source.rows@[i]).deep_view(), source.fields.scored@),
                source.scores[i],
            ),
        row_map(corpus.by_document) == tabled(source.rows.deep_view(), source.scores),
        corpus.max == greatest(
            source.rows.deep_view(),
            source.scores,
            corpus.condition@,
            source.fields.matches@,
        ),
{
}

/// A sum is what the host made of just these scores, in this order.
pub proof fn law_sums_are_of_the_scores<A: Fn(&Vec<u32>) -> u32>(
    sum: A,
    scores: Seq<u32>,
    total: u32,
)
    ensures
        summed(sum, scores, total) <==> exists|list: Vec<u32>|
            list@ == scores && #[trigger] sum.ensures((&list,), total),
{
}

/// Only rows that satisfy the condition count toward the greatest score, and each of
/// them does: with one row more, it is the greater of the greatest so far and the
/// row's score, or stays.
pub proof fn law_greatest_counts_qualifying_rows(
    rows: Seq<Seq<Option<Seq<char>>>>,
    row: Seq<Option<Seq<char>>>,
    scores: Seq<u32>,
    condition: Seq<i32>,
    matches: Seq<Option<FxHashSet<String>>>,
)
    ensures
        greatest(Seq::empty(), scores, condition, matches) == 0,
        !holds(condition, verdicts(row, matches)) ==> greatest(
            rows.push(row),
            scores,
            condition,
            matches,
        ) == greatest(rows, scores, condition, matches),
        holds(condition, verdicts(row, matches)) ==> greatest(
            rows.push(row),
            scores,
            condition,
            matches,
        ) == larger(greatest(rows, scores, condition, matches), scores[rows.len() as int]),
{
    assert(rows.push(row).drop_last() =~= rows);
    assert(rows.push(row).last() == row);
}

/// The scores of a column are those in its table, all of them.
pub proof fn law_scores_are_those_of_the_table(corpus: ScoreCorpus)
    ensures
        corpus.scores() == score_map(corpus.by_document),
{
}

/// What kept a table from being made: a failed scan where the error says so, and
/// else work on the request's own columns that stopped with just this error.
pub proof fn law_failures_are_told_apart<
    T,
    Q,
    D,
    C: Fn(&CacheKey) -> ScoreCorpus,
    O: Fn(u32) -> T,
    P: Fn(&String, &T) -> Result<Q, String>,
    K: Fn(&String, &T) -> D,
    E: Fn(&Q, &D) -> Result<bool, String>,
    I: Fn(u32, u32) -> IndexDefinition,
    R: FnOnce(u32) -> String,
    S: FnOnce(&String) -> Result<Vec<Vec<Option<String>>>, String>,
    A: Fn(&Vec<u32>) -> u32,
>(
    engine: (C, O, P, K, E),
    host: (I, R, S, A),
    request: ScoreRequest,
    session: Session,
    error: ScoreError,
) -> (slots: Vec<Slot>)
    requires
        rebuild_failed::<T, Q, D, C, O, P, K, E, I, R, S, A>(
            engine,
            host,
            request,
            session,
            error,
        ),
    ensures
        slot_views(slots@) == request.slots(session),
        error is Scan ==> scan_failed(host, request, error->Scan_0) && exists|
            groups: Seq<Group>,
            fields: FieldCorpora,
        | #[trigger]
            fields_built::<T, Q, D, C, O, P, K, E>(slots@, groups, fields, engine),
        !(error is Scan) ==> fields_failed::<T, Q, D, C, O, P, K, E>(slots@, error, engine),
{
    choose|slots: Vec<Slot>|
        {
            &&& #[trigger] slot_views(slots@) == request.slots(session)
            &&& match error {
                ScoreError::Scan(message) => works_out::<T, Q, D, C, O, P, K, E>(slots@, engine)
                    && scan_failed(host, request, message),
                _ => fields_failed::<T, Q, D, C, O, P, K, E>(slots@, error, engine),
            }
        }
}

/// A table answers two requests with a query only if they ask for the same score:
/// requests that differ in a parameter or in their terms never share a table.
pub proof fn law_tables_are_not_shared(
    cache: Option<MultiCorpus>,
    a: ScoreRequest,
    session: Session,
    b: ScoreRequest,
    other_session: Session,
    i: int,
)
    requires
        usable(cache, a, session),
        usable(cache, b, other_session),
        0 <= i < a.indexes@.len(),
        a.queries@[i] is Some,
    ensures
        a.condition@ == b.condition@,
        a.heap_oid as u32 == b.heap_oid as u32,
        (a.mode == 1 || a.mode == 3) == (b.mode == 1 || b.mode == 3),
        a.dense_ratio is Some && b.dense_ratio is Some ==> a.dense_ratio == b.dense_ratio,
        a.k1 == b.k1,
        a.b == b.b,
        a.term_add.deep_view() == b.term_add.deep_view(),
        a.term_replace.deep_view() == b.term_replace.deep_view(),
        session.transaction == other_session.transaction,
        session.command == other_session.command,
{
    law_other_requests_have_other_slots(a, session, b, other_session, i);
}

} // verus!
