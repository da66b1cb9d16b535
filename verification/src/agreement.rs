//! Scores that are asked for again: in another row, under another condition, with
//! the columns in another order, or with queries joined into one.

use rustc_hash::FxHashSet;
use vstd::prelude::*;

use crate::collections::{row_map, text_set};
use crate::corpus::{
    fields_built, group_key, group_settled, has_group, lemma_slots_of, slots_of, FieldCorpora,
    Group, ScoreCorpus,
};
use crate::keys::{
    is_max_mode, slot_views, CacheKey, CacheKeyView, ScoreError, ScoreRequest, Session, Slot,
    SCORE,
};
use crate::order::{lemma_reordered_injective, reordered, reorders};
use crate::repeats::{
    engine_repeats, group_queries, law_queries_of_one_index_are_alternatives,
    law_reordered_columns_come_to_the_same, law_same_queries_same_outcome, lemma_group_of_slot,
    lemma_same_indexes, lemma_single_query, reads_alternatives, same_matches, same_slots_in_order,
};
use crate::scoring::{
    answered, definition_views, greatest, law_every_row_has_its_score,
    law_greatest_is_attained_bound, law_matching_columns_contribute,
    law_reported_maximum_is_greatest_reported_score, lemma_one_sum, lemma_scores_are_consistent,
    parts, rebuilt, scan_text, scans, sum_repeats, summed, tabled, tables, usable, verdicts,
    IndexDefinition, MultiCorpus, Scan, Source,
};
use crate::single::{rank, ZERO};
use crate::truth::{holds, law_renumbered_programs_agree, renumbered};

verus! {

/// The same rows, in whatever order and however often.
pub open spec fn same_rows(
    a: Seq<Seq<Option<Seq<char>>>>,
    b: Seq<Seq<Option<Seq<char>>>>,
) -> bool {
    forall|row: Seq<Option<Seq<char>>>| #[trigger] a.contains(row) <==> b.contains(row)
}

/// The host gives the same whenever it is asked the same: one definition of an
/// index, one name of a table, the same rows for a statement, one sum.
pub open spec fn host_repeats<
    I: Fn(u32, u32) -> IndexDefinition,
    R: FnOnce(u32) -> String,
    S: FnOnce(&String) -> Result<Vec<Vec<Option<String>>>, String>,
    A: Fn(&Vec<u32>) -> u32,
>(host: (I, R, S, A)) -> bool {
    &&& forall|heap: u32, index: u32, x: IndexDefinition, y: IndexDefinition| #[trigger]
        host.0.ensures((heap, index), x) && #[trigger] host.0.ensures((heap, index), y) ==> x@ == y@
    &&& forall|heap: u32, x: String, y: String| #[trigger]
        host.1.ensures((heap,), x) && #[trigger] host.1.ensures((heap,), y) ==> x@ == y@
    &&& forall|
        first: String,
        second: String,
        x: Vec<Vec<Option<String>>>,
        y: Vec<Vec<Option<String>>>,
    |
        first@ == second@ && #[trigger] host.2.ensures((&first,), Ok(x))
            && #[trigger] host.2.ensures((&second,), Ok(y)) ==> same_rows(
            x.deep_view(),
            y.deep_view(),
        )
    &&& sum_repeats(host.3)
}

/// A table has exactly the rows that were read, each with the sum of its parts.
proof fn lemma_row_map<
    T,
    Q,
    D,
    C: Fn(&CacheKey) -> ScoreCorpus,
    O: Fn(u32) -> T,
    P: Fn(&String, &T) -> Result<Q, String>,
    K: Fn(&String, &T) -> D,
    E: Fn(&Q, &D) -> Result<bool, String>,
    I: Fn(u32, u32) -> IndexDefinition,
    R: FnOnce(u32) -> String,
    S: FnOnce(&String) -> Result<Vec<Vec<Option<String>>>, String>,
    A: Fn(&Vec<u32>) -> u32,
>(
    engine: (C, O, P, K, E),
    host: (I, R, S, A),
    request: ScoreRequest,
    corpus: MultiCorpus,
    source: Source,
    row: Seq<Option<Seq<char>>>,
)
    requires
        tables::<T, Q, D, C, O, P, K, E, I, R, S, A>(
            engine,
            host,
            request,
            corpus,
            source,
        ),
        sum_repeats(host.3),
    ensures
        row_map(corpus.by_document).contains_key(row) <==> source.rows.deep_view().contains(row),
        row_map(corpus.by_document).contains_key(row) ==> summed(
            host.3,
            parts(row, source.fields.scored@),
            row_map(corpus.by_document)[row],
        ),
{
    let rows = source.rows.deep_view();
    lemma_scores_are_consistent::<T, Q, D, C, O, P, K, E, I, R, S, A>(
        engine,
        host,
        request,
        corpus,
        source,
    );
    law_every_row_has_its_score(rows, source.scores);
    assert(tabled(rows, source.scores).contains_key(row) <==> rows.contains(row));
    if rows.contains(row) {
        let i = rows.index_of(row);
        assert(rows[i] == source.rows@[i].deep_view());
    }
}

/// Greatest scores over rows that stand for each other are the same.
proof fn lemma_greatest_agree(
    rows: Seq<Seq<Option<Seq<char>>>>,
    scores: Seq<u32>,
    condition: Seq<i32>,
    matches: Seq<Option<FxHashSet<String>>>,
    others: Seq<Seq<Option<Seq<char>>>>,
    other_scores: Seq<u32>,
    other_condition: Seq<i32>,
    other_matches: Seq<Option<FxHashSet<String>>>,
)
    requires
        scores.len() >= rows.len(),
        other_scores.len() >= others.len(),
        forall|i: int|
            0 <= i < rows.len() && holds(condition, verdicts(#[trigger] rows[i], matches))
                ==> exists|j: int|
                {
                    &&& 0 <= j < others.len()
                    &&& holds(other_condition, verdicts(#[trigger] others[j], other_matches))
                    &&& scores[i] == other_scores[j]
                },
        forall|j: int|
            0 <= j < others.len() && holds(
                other_condition,
                verdicts(#[trigger] others[j], other_matches),
            ) ==> exists|i: int|
                {
                    &&& 0 <= i < rows.len()
                    &&& holds(condition, verdicts(#[trigger] rows[i], matches))
                    &&& scores[i] == other_scores[j]
                },
    ensures
        greatest(rows, scores, condition, matches) == greatest(
            others,
            other_scores,
            other_condition,
            other_matches,
        ),
{
    let x = greatest(rows, scores, condition, matches);
    let y = greatest(others, other_scores, other_condition, other_matches);
    law_greatest_is_attained_bound(rows, scores, condition, matches);
    law_greatest_is_attained_bound(others, other_scores, other_condition, other_matches);
    assert(rank(x)->0 <= rank(y)->0) by {
        if x != ZERO {
            let i = choose|i: int|
                {
                    &&& 0 <= i < rows.len()
                    &&& holds(condition, verdicts(#[trigger] rows[i], matches))
                    &&& x == scores[i]
                };
            let j = choose|j: int|
                {
                    &&& 0 <= j < others.len()
                    &&& holds(other_condition, verdicts(#[trigger] others[j], other_matches))
                    &&& scores[i] == other_scores[j]
                };
            assert(rank(other_scores[j]) is Some);
        }
    }
    assert(rank(y)->0 <= rank(x)->0) by {
        if y != ZERO {
            let j = choose|j: int|
                {
                    &&& 0 <= j < others.len()
                    &&& holds(other_condition, verdicts(#[trigger] others[j], other_matches))
                    &&& y == other_scores[j]
                };
            let i = choose|i: int|
                {
                    &&& 0 <= i < rows.len()
                    &&& holds(condition, verdicts(#[trigger] rows[i], matches))
                    &&& scores[i] == other_scores[j]
                };
            assert(rank(scores[i]) is Some);
        }
    }
}

/// Two requests score the same columns of the same table.
pub open spec fn same_columns(
    request: ScoreRequest,
    session: Session,
    other_request: ScoreRequest,
    other_session: Session,
) -> bool {
    &&& request.heap_oid as u32 == other_request.heap_oid as u32
    &&& request.slots(session) == other_request.slots(other_session)
}

/// The same columns read in the same way give the same rows.
proof fn lemma_scan_repeats<
    I: Fn(u32, u32) -> IndexDefinition,
    R: FnOnce(u32) -> String,
    S: FnOnce(&String) -> Result<Vec<Vec<Option<String>>>, String>,
    A: Fn(&Vec<u32>) -> u32,
>(
    host: (I, R, S, A),
    request: ScoreRequest,
    session: Session,
    scan: Scan,
    rows: Vec<Vec<Option<String>>>,
    other_request: ScoreRequest,
    other_session: Session,
    other_scan: Scan,
    other_rows: Vec<Vec<Option<String>>>,
)
    requires
        host_repeats(host),
        same_columns(request, session, other_request, other_session),
        scans(host, request, scan),
        scans(host, other_request, other_scan),
        host.2.ensures((&scan.statement,), Ok(rows)),
        host.2.ensures((&other_scan.statement,), Ok(other_rows)),
    ensures
        same_rows(rows.deep_view(), other_rows.deep_view()),
{
    let slots = request.slots(session);
    let others = other_request.slots(other_session);
    assert(slots.len() == request.indexes@.len());
    assert(others.len() == other_request.indexes@.len());
    let x = definition_views(scan.definitions);
    let y = definition_views(other_scan.definitions);
    assert forall|i: int| 0 <= i < x.len() implies x[i] == y[i] by {
        assert(slots[i].index == request.indexes@[i] as u32);
        assert(others[i].index == other_request.indexes@[i] as u32);
        let heap = request.heap_oid as u32;
        let index = request.indexes@[i] as u32;
        assert(host.0.ensures((heap, index), scan.definitions[i]));
        assert(host.0.ensures((heap, index), other_scan.definitions[i]));
    }
    assert(x =~= y);
    assert(scan.relation@ == other_scan.relation@);
    assert(scan.statement@ == other_scan.statement@);
}

/// The same columns come to the same parts and the same verdicts of every row.
proof fn lemma_same_slots<
    T,
    Q,
    D,
    C: Fn(&CacheKey) -> ScoreCorpus,
    O: Fn(u32) -> T,
    P: Fn(&String, &T) -> Result<Q, String>,
    K: Fn(&String, &T) -> D,
    E: Fn(&Q, &D) -> Result<bool, String>,
>(
    engine: (C, O, P, K, E),
    a: Seq<Slot>,
    groups: Seq<Group>,
    fields: FieldCorpora,
    b: Seq<Slot>,
    others: Seq<Group>,
    other: FieldCorpora,
    row: Seq<Option<Seq<char>>>,
)
    requires
        a.len() <= usize::MAX,
        engine_repeats::<T, Q, D, C, O, P, K, E>(engine),
        fields_built::<T, Q, D, C, O, P, K, E>(a, groups, fields, engine),
        fields_built::<T, Q, D, C, O, P, K, E>(b, others, other, engine),
        slot_views(a) == slot_views(b),
    ensures
        parts(row, fields.scored@) == parts(row, other.scored@),
        verdicts(row, fields.matches@) == verdicts(row, other.matches@),
{
    let order = Seq::new(a.len(), |i: int| i);
    assert(slot_views(a).len() == a.len());
    assert forall|s: int| 0 <= s < a.len() implies #[trigger] order.contains(s) by {
        assert(order[s] == s);
    }
    assert(reordered(slot_views(a), order) =~= slot_views(b));
    law_reordered_columns_come_to_the_same::<T, Q, D, C, O, P, K, E>(
        engine,
        a,
        groups,
        fields,
        b,
        others,
        other,
        order,
    );
    assert forall|g: int| 0 <= g < fields.scored@.len() implies #[trigger] parts(
        row,
        fields.scored@,
    )[g] == parts(row, other.scored@)[g] by {
        assert(fields.scored@[g].0 == order[other.scored@[g].0 as int]);
    }
    assert(parts(row, fields.scored@) =~= parts(row, other.scored@));
    assert forall|i: int| 0 <= i < verdicts(row, fields.matches@).len() implies #[trigger] verdicts(
        row,
        fields.matches@,
    )[i] == verdicts(row, other.matches@)[i] by {
        assert(same_matches(fields.matches@[order[i]], other.matches@[i]));
    }
    assert(verdicts(row, fields.matches@) =~= verdicts(row, other.matches@));
}

/// The score of a row depends on the columns alone: tables over the same columns
/// have the same rows with the same scores, whatever their conditions are.
pub proof fn law_scores_ignore_the_condition<
    T,
    Q,
    D,
    C: Fn(&CacheKey) -> ScoreCorpus,
    O: Fn(u32) -> T,
    P: Fn(&String, &T) -> Result<Q, String>,
    K: Fn(&String, &T) -> D,
    E: Fn(&Q, &D) -> Result<bool, String>,
    I: Fn(u32, u32) -> IndexDefinition,
    R: FnOnce(u32) -> String,
    S: FnOnce(&String) -> Result<Vec<Vec<Option<String>>>, String>,
    A: Fn(&Vec<u32>) -> u32,
>(
    engine: (C, O, P, K, E),
    host: (I, R, S, A),
    request: ScoreRequest,
    session: Session,
    corpus: MultiCorpus,
    other_request: ScoreRequest,
    other_session: Session,
    other: MultiCorpus,
)
    requires
        engine_repeats::<T, Q, D, C, O, P, K, E>(engine),
        host_repeats(host),
        rebuilt::<T, Q, D, C, O, P, K, E, I, R, S, A>(
            engine,
            host,
            request,
            session,
            corpus,
        ),
        rebuilt::<T, Q, D, C, O, P, K, E, I, R, S, A>(
            engine,
            host,
            other_request,
            other_session,
            other,
        ),
        same_columns(request, session, other_request, other_session),
    ensures
        row_map(corpus.by_document) == row_map(other.by_document),
        forall|mode: i32, documents: Seq<Option<Seq<char>>>|
            !is_max_mode(mode) ==> #[trigger] corpus.answer(mode, documents) == other.answer(
                mode,
                documents,
            ),
{
    let source = choose|source: Source| #[trigger]
        tables::<T, Q, D, C, O, P, K, E, I, R, S, A>(
            engine,
            host,
            request,
            corpus,
            source,
        );
    let mate = choose|mate: Source| #[trigger]
        tables::<T, Q, D, C, O, P, K, E, I, R, S, A>(
            engine,
            host,
            other_request,
            other,
            mate,
        );
    lemma_scan_repeats(
        host,
        request,
        session,
        source.scan,
        source.rows,
        other_request,
        other_session,
        mate.scan,
        mate.rows,
    );
    let x = row_map(corpus.by_document);
    let y = row_map(other.by_document);
    assert(corpus.slots@.len() == corpus.slots.len());
    assert forall|row: Seq<Option<Seq<char>>>| #[trigger]
        x.contains_key(row) == y.contains_key(row) && (x.contains_key(row) ==> x[row] == y[row]) by {
        lemma_row_map::<T, Q, D, C, O, P, K, E, I, R, S, A>(
            engine,
            host,
            request,
            corpus,
            source,
            row,
        );
        lemma_row_map::<T, Q, D, C, O, P, K, E, I, R, S, A>(
            engine,
            host,
            other_request,
            other,
            mate,
            row,
        );
        assert(source.rows.deep_view().contains(row) <==> mate.rows.deep_view().contains(row));
        if x.contains_key(row) {
            lemma_same_slots::<T, Q, D, C, O, P, K, E>(
                engine,
                corpus.slots@,
                source.groups,
                source.fields,
                other.slots@,
                mate.groups,
                mate.fields,
                row,
            );
            lemma_one_sum(host.3, parts(row, source.fields.scored@), x[row], y[row]);
        }
    }
    assert(x =~= y);
}

/// A table is what its columns and its condition make it: tables over the same
/// columns and with the same condition have the same rows with the same scores
/// and the same greatest score, and give the same answers. What was scored before
/// or in between does not matter.
pub proof fn law_tables_repeat<
    T,
    Q,
    D,
    C: Fn(&CacheKey) -> ScoreCorpus,
    O: Fn(u32) -> T,
    P: Fn(&String, &T) -> Result<Q, String>,
    K: Fn(&String, &T) -> D,
    E: Fn(&Q, &D) -> Result<bool, String>,
    I: Fn(u32, u32) -> IndexDefinition,
    R: FnOnce(u32) -> String,
    S: FnOnce(&String) -> Result<Vec<Vec<Option<String>>>, String>,
    A: Fn(&Vec<u32>) -> u32,
>(
    engine: (C, O, P, K, E),
    host: (I, R, S, A),
    request: ScoreRequest,
    session: Session,
    corpus: MultiCorpus,
    other_request: ScoreRequest,
    other_session: Session,
    other: MultiCorpus,
)
    requires
        engine_repeats::<T, Q, D, C, O, P, K, E>(engine),
        host_repeats(host),
        rebuilt::<T, Q, D, C, O, P, K, E, I, R, S, A>(
            engine,
            host,
            request,
            session,
            corpus,
        ),
        rebuilt::<T, Q, D, C, O, P, K, E, I, R, S, A>(
            engine,
            host,
            other_request,
            other_session,
            other,
        ),
        same_columns(request, session, other_request, other_session),
        request.condition@ == other_request.condition@,
    ensures
        row_map(corpus.by_document) == row_map(other.by_document),
        corpus.max == other.max,
        forall|mode: i32, documents: Seq<Option<Seq<char>>>| #[trigger]
            corpus.answer(mode, documents) == other.answer(mode, documents),
{
    law_scores_ignore_the_condition::<T, Q, D, C, O, P, K, E, I, R, S, A>(
        engine,
        host,
        request,
        session,
        corpus,
        other_request,
        other_session,
        other,
    );
    let source = choose|source: Source| #[trigger]
        tables::<T, Q, D, C, O, P, K, E, I, R, S, A>(
            engine,
            host,
            request,
            corpus,
            source,
        );
    let mate = choose|mate: Source| #[trigger]
        tables::<T, Q, D, C, O, P, K, E, I, R, S, A>(
            engine,
            host,
            other_request,
            other,
            mate,
        );
    lemma_scan_repeats(
        host,
        request,
        session,
        source.scan,
        source.rows,
        other_request,
        other_session,
        mate.scan,
        mate.rows,
    );
    let rows = source.rows.deep_view();
    let others = mate.rows.deep_view();
    let condition = corpus.condition@;
    assert(corpus.slots@.len() == corpus.slots.len());
    assert forall|row: Seq<Option<Seq<char>>>| verdicts(row, source.fields.matches@) == #[trigger]
        verdicts(row, mate.fields.matches@) by {
        lemma_same_slots::<T, Q, D, C, O, P, K, E>(
            engine,
            corpus.slots@,
            source.groups,
            source.fields,
            other.slots@,
            mate.groups,
            mate.fields,
            row,
        );
    }
    lemma_scores_are_consistent::<T, Q, D, C, O, P, K, E, I, R, S, A>(
        engine,
        host,
        request,
        corpus,
        source,
    );
    lemma_scores_are_consistent::<T, Q, D, C, O, P, K, E, I, R, S, A>(
        engine,
        host,
        other_request,
        other,
        mate,
    );
    law_every_row_has_its_score(rows, source.scores);
    law_every_row_has_its_score(others, mate.scores);
    assert forall|i: int|
        0 <= i < rows.len() && holds(
            condition,
            verdicts(#[trigger] rows[i], source.fields.matches@),
        ) implies exists|j: int|
        {
            &&& 0 <= j < others.len()
            &&& holds(other.condition@, verdicts(#[trigger] others[j], mate.fields.matches@))
            &&& source.scores[i] == mate.scores[j]
        } by {
        assert(rows.contains(rows[i]));
        assert(others.contains(rows[i]));
        let j = others.index_of(rows[i]);
        assert(others[j] == rows[i]);
        assert(verdicts(rows[i], source.fields.matches@) == verdicts(
            others[j],
            mate.fields.matches@,
        ));
    }
    assert forall|j: int|
        0 <= j < others.len() && holds(
            other.condition@,
            verdicts(#[trigger] others[j], mate.fields.matches@),
        ) implies exists|i: int|
        {
            &&& 0 <= i < rows.len()
            &&& holds(condition, verdicts(#[trigger] rows[i], source.fields.matches@))
            &&& source.scores[i] == mate.scores[j]
        } by {
        assert(others.contains(others[j]));
        assert(rows.contains(others[j]));
        let i = rows.index_of(others[j]);
        assert(others[j] == rows[i]);
        assert(verdicts(rows[i], source.fields.matches@) == verdicts(
            others[j],
            mate.fields.matches@,
        ));
    }
    lemma_greatest_agree(
        rows,
        source.scores,
        condition,
        source.fields.matches@,
        others,
        mate.scores,
        other.condition@,
        mate.fields.matches@,
    );
}

/// `b` are the rows `a`, which have `width` columns, with their columns in
/// another order.
pub open spec fn same_rows_in_order(
    a: Seq<Seq<Option<Seq<char>>>>,
    b: Seq<Seq<Option<Seq<char>>>>,
    width: nat,
    order: Seq<int>,
) -> bool {
    &&& forall|i: int| 0 <= i < a.len() ==> (#[trigger] a[i]).len() == width
    &&& forall|row: Seq<Option<Seq<char>>>| #[trigger]
        a.contains(row) ==> b.contains(reordered(row, order))
    &&& forall|j: int|
        0 <= j < b.len() ==> exists|i: int|
            0 <= i < a.len() && #[trigger] b[j] == reordered(#[trigger] a[i], order)
}

/// The host told this of these indexes of a table: their definitions, the name of
/// the table, and with them the statement that reads the columns.
pub open spec fn told<
    I: Fn(u32, u32) -> IndexDefinition,
    R: FnOnce(u32) -> String,
    S: FnOnce(&String) -> Result<Vec<Vec<Option<String>>>, String>,
    A: Fn(&Vec<u32>) -> u32,
>(host: (I, R, S, A), heap: u32, indexes: Seq<u32>, scan: Scan) -> bool {
    &&& scan.definitions.len() == indexes.len()
    &&& forall|i: int|
        0 <= i < indexes.len() ==> host.0.ensures(
            (heap, indexes[i]),
            #[trigger] scan.definitions[i],
        )
    &&& host.1.ensures((heap,), scan.relation)
    &&& scan.statement@ == scan_text(definition_views(scan.definitions), scan.relation@)
}

/// The statement over some indexes of a table gives rows with one column for each
/// of them, and over the same indexes in another order the same rows in that
/// order.
pub open spec fn select_follows_columns<
    I: Fn(u32, u32) -> IndexDefinition,
    R: FnOnce(u32) -> String,
    S: FnOnce(&String) -> Result<Vec<Vec<Option<String>>>, String>,
    A: Fn(&Vec<u32>) -> u32,
>(host: (I, R, S, A)) -> bool {
    forall|
        heap: u32,
        indexes: Seq<u32>,
        order: Seq<int>,
        first: Scan,
        second: Scan,
        x: Vec<Vec<Option<String>>>,
        y: Vec<Vec<Option<String>>>,
    |
        {
            &&& reorders(order, indexes.len())
            &&& #[trigger] told(host, heap, indexes, first)
            &&& #[trigger] told(host, heap, reordered(indexes, order), second)
            &&& #[trigger] host.2.ensures((&first.statement,), Ok(x))
            &&& #[trigger] host.2.ensures((&second.statement,), Ok(y))
        } ==> same_rows_in_order(x.deep_view(), y.deep_view(), indexes.len(), order)
}

/// Reading the same columns in another order gives the same rows in that order.
proof fn lemma_scan_in_order<
    I: Fn(u32, u32) -> IndexDefinition,
    R: FnOnce(u32) -> String,
    S: FnOnce(&String) -> Result<Vec<Vec<Option<String>>>, String>,
    A: Fn(&Vec<u32>) -> u32,
>(
    host: (I, R, S, A),
    request: ScoreRequest,
    session: Session,
    scan: Scan,
    rows: Vec<Vec<Option<String>>>,
    other_request: ScoreRequest,
    other_session: Session,
    other_scan: Scan,
    other_rows: Vec<Vec<Option<String>>>,
    order: Seq<int>,
)
    requires
        select_follows_columns(host),
        request.heap_oid as u32 == other_request.heap_oid as u32,
        same_slots_in_order(
            request.slots(session),
            other_request.slots(other_session),
            order,
        ),
        scans(host, request, scan),
        scans(host, other_request, other_scan),
        host.2.ensures((&scan.statement,), Ok(rows)),
        host.2.ensures((&other_scan.statement,), Ok(other_rows)),
    ensures
        same_rows_in_order(
            rows.deep_view(),
            other_rows.deep_view(),
            request.indexes@.len(),
            order,
        ),
{
    let slots = request.slots(session);
    let others = other_request.slots(other_session);
    assert(slots.len() == request.indexes@.len());
    assert(others.len() == other_request.indexes@.len());
    let heap = request.heap_oid as u32;
    let indexes = Seq::new(request.indexes@.len(), |i: int| request.indexes@[i] as u32);
    assert(told(host, heap, indexes, scan));
    assert forall|i: int| 0 <= i < others.len() implies #[trigger] reordered(indexes, order)[i]
        == other_request.indexes@[i] as u32 by {
        assert(0 <= order[i] < slots.len());
        assert(others[i] == slots[order[i]]);
        assert(slots[order[i]].index == request.indexes@[order[i]] as u32);
        assert(others[i].index == other_request.indexes@[i] as u32);
    }
    assert(told(host, heap, reordered(indexes, order), other_scan));
}

/// A row in another order has the same parts and the same verdicts in that order.
proof fn lemma_reordered_row<
    T,
    Q,
    D,
    C: Fn(&CacheKey) -> ScoreCorpus,
    O: Fn(u32) -> T,
    P: Fn(&String, &T) -> Result<Q, String>,
    K: Fn(&String, &T) -> D,
    E: Fn(&Q, &D) -> Result<bool, String>,
>(
    engine: (C, O, P, K, E),
    a: Seq<Slot>,
    groups: Seq<Group>,
    fields: FieldCorpora,
    b: Seq<Slot>,
    others: Seq<Group>,
    other: FieldCorpora,
    order: Seq<int>,
    row: Seq<Option<Seq<char>>>,
)
    requires
        a.len() <= usize::MAX,
        engine_repeats::<T, Q, D, C, O, P, K, E>(engine),
        fields_built::<T, Q, D, C, O, P, K, E>(a, groups, fields, engine),
        fields_built::<T, Q, D, C, O, P, K, E>(b, others, other, engine),
        same_slots_in_order(slot_views(a), slot_views(b), order),
        row.len() == a.len(),
    ensures
        parts(reordered(row, order), other.scored@) == parts(row, fields.scored@),
        verdicts(reordered(row, order), other.matches@) == reordered(
            verdicts(row, fields.matches@),
            order,
        ),
{
    assert(slot_views(a).len() == a.len());
    assert(slot_views(b).len() == b.len());
    law_reordered_columns_come_to_the_same::<T, Q, D, C, O, P, K, E>(
        engine,
        a,
        groups,
        fields,
        b,
        others,
        other,
        order,
    );
    let turned = reordered(row, order);
    assert forall|g: int| 0 <= g < fields.scored@.len() implies #[trigger] parts(
        row,
        fields.scored@,
    )[g] == parts(turned, other.scored@)[g] by {
        let at = other.scored@[g].0 as int;
        assert(fields.scored@[g].0 == order[at]);
        assert(turned[at] == row[order[at]]);
    }
    assert(parts(turned, other.scored@) =~= parts(row, fields.scored@));
    let said = verdicts(row, fields.matches@);
    assert forall|i: int| 0 <= i < order.len() implies #[trigger] verdicts(turned, other.matches@)[i]
        == reordered(said, order)[i] by {
        assert(0 <= order[i] < a.len());
        assert(same_matches(fields.matches@[order[i]], other.matches@[i]));
        assert(turned[i] == row[order[i]]);
    }
    assert(verdicts(turned, other.matches@) =~= reordered(said, order));
}

/// The order of the columns does not matter: with documents, queries and indexes
/// in another order, and the slots of the condition renumbered after it, every
/// mode has the same answer. Columns of one index keep their order among
/// themselves; where all indexes differ, any order will do.
pub proof fn law_column_order_is_irrelevant<
    T,
    Q,
    D,
    C: Fn(&CacheKey) -> ScoreCorpus,
    O: Fn(u32) -> T,
    P: Fn(&String, &T) -> Result<Q, String>,
    K: Fn(&String, &T) -> D,
    E: Fn(&Q, &D) -> Result<bool, String>,
    I: Fn(u32, u32) -> IndexDefinition,
    R: FnOnce(u32) -> String,
    S: FnOnce(&String) -> Result<Vec<Vec<Option<String>>>, String>,
    A: Fn(&Vec<u32>) -> u32,
>(
    engine: (C, O, P, K, E),
    host: (I, R, S, A),
    request: ScoreRequest,
    session: Session,
    corpus: MultiCorpus,
    other_request: ScoreRequest,
    other_session: Session,
    other: MultiCorpus,
    order: Seq<int>,
    documents: Seq<Option<Seq<char>>>,
)
    requires
        engine_repeats::<T, Q, D, C, O, P, K, E>(engine),
        host_repeats(host),
        select_follows_columns(host),
        rebuilt::<T, Q, D, C, O, P, K, E, I, R, S, A>(
            engine,
            host,
            request,
            session,
            corpus,
        ),
        rebuilt::<T, Q, D, C, O, P, K, E, I, R, S, A>(
            engine,
            host,
            other_request,
            other_session,
            other,
        ),
        request.heap_oid as u32 == other_request.heap_oid as u32,
        same_slots_in_order(
            request.slots(session),
            other_request.slots(other_session),
            order,
        ),
        renumbered(request.condition@, other_request.condition@, order),
        documents.len() == request.indexes@.len(),
    ensures
        forall|mode: i32| #[trigger]
            other.answer(mode, reordered(documents, order)) == corpus.answer(mode, documents),
{
    let source = choose|source: Source| #[trigger]
        tables::<T, Q, D, C, O, P, K, E, I, R, S, A>(
            engine,
            host,
            request,
            corpus,
            source,
        );
    let mate = choose|mate: Source| #[trigger]
        tables::<T, Q, D, C, O, P, K, E, I, R, S, A>(
            engine,
            host,
            other_request,
            other,
            mate,
        );
    lemma_scan_in_order(
        host,
        request,
        session,
        source.scan,
        source.rows,
        other_request,
        other_session,
        mate.scan,
        mate.rows,
        order,
    );
    let rows = source.rows.deep_view();
    let others = mate.rows.deep_view();
    let x = row_map(corpus.by_document);
    let y = row_map(other.by_document);
    let turned = reordered(documents, order);
    assert(corpus.slots@.len() == corpus.slots.len());
    assert(slot_views(corpus.slots@).len() == corpus.slots@.len());
    assert(request.slots(session).len() == request.indexes@.len());
    assert forall|row: Seq<Option<Seq<char>>>|
        row.len() == corpus.slots@.len() implies {
        &&& parts(#[trigger] reordered(row, order), mate.fields.scored@) == parts(
            row,
            source.fields.scored@,
        )
        &&& holds(
            other.condition@,
            verdicts(reordered(row, order), mate.fields.matches@),
        ) == holds(corpus.condition@, verdicts(row, source.fields.matches@))
    } by {
        lemma_reordered_row::<T, Q, D, C, O, P, K, E>(
            engine,
            corpus.slots@,
            source.groups,
            source.fields,
            other.slots@,
            mate.groups,
            mate.fields,
            order,
            row,
        );
        law_renumbered_programs_agree(
            corpus.condition@,
            other.condition@,
            order,
            verdicts(row, source.fields.matches@),
            Seq::empty(),
        );
    }
    // The row's own score.
    lemma_row_map::<T, Q, D, C, O, P, K, E, I, R, S, A>(
        engine,
        host,
        request,
        corpus,
        source,
        documents,
    );
    lemma_row_map::<T, Q, D, C, O, P, K, E, I, R, S, A>(
        engine,
        host,
        other_request,
        other,
        mate,
        turned,
    );
    if others.contains(turned) {
        let j = others.index_of(turned);
        let i = choose|i: int|
            0 <= i < rows.len() && others[j] == reordered(#[trigger] rows[i], order);
        lemma_reordered_injective(documents, rows[i], order);
        assert(rows.contains(documents));
    }
    assert(rows.contains(documents) <==> others.contains(turned));
    if x.contains_key(documents) {
        lemma_one_sum(host.3, parts(documents, source.fields.scored@), x[documents], y[turned]);
    }
    // The greatest score.
    lemma_scores_are_consistent::<T, Q, D, C, O, P, K, E, I, R, S, A>(
        engine,
        host,
        request,
        corpus,
        source,
    );
    lemma_scores_are_consistent::<T, Q, D, C, O, P, K, E, I, R, S, A>(
        engine,
        host,
        other_request,
        other,
        mate,
    );
    assert forall|i: int, j: int|
        0 <= i < rows.len() && 0 <= j < others.len() && #[trigger] others[j] == reordered(
            #[trigger] rows[i],
            order,
        ) implies source.scores[i] == mate.scores[j] by {
        assert(rows[i] == source.rows@[i].deep_view());
        assert(others[j] == mate.rows@[j].deep_view());
        assert(rows[i].len() == corpus.slots@.len());
        lemma_one_sum(
            host.3,
            parts(rows[i], source.fields.scored@),
            source.scores[i],
            mate.scores[j],
        );
    }
    assert forall|i: int|
        0 <= i < rows.len() && holds(
            corpus.condition@,
            verdicts(#[trigger] rows[i], source.fields.matches@),
        ) implies exists|j: int|
        {
            &&& 0 <= j < others.len()
            &&& holds(other.condition@, verdicts(#[trigger] others[j], mate.fields.matches@))
            &&& source.scores[i] == mate.scores[j]
        } by {
        assert(rows.contains(rows[i]));
        let j = others.index_of(reordered(rows[i], order));
        assert(others[j] == reordered(rows[i], order));
        assert(rows[i].len() == corpus.slots@.len());
    }
    assert forall|j: int|
        0 <= j < others.len() && holds(
            other.condition@,
            verdicts(#[trigger] others[j], mate.fields.matches@),
        ) implies exists|i: int|
        {
            &&& 0 <= i < rows.len()
            &&& holds(corpus.condition@, verdicts(#[trigger] rows[i], source.fields.matches@))
            &&& source.scores[i] == mate.scores[j]
        } by {
        let i = choose|i: int|
            0 <= i < rows.len() && others[j] == reordered(#[trigger] rows[i], order);
        assert(rows[i].len() == corpus.slots@.len());
    }
    lemma_greatest_agree(
        rows,
        source.scores,
        corpus.condition@,
        source.fields.matches@,
        others,
        mate.scores,
        other.condition@,
        mate.fields.matches@,
    );
}

/// The key of the query that joins the queries of a group. A single query stays
/// as it is.
pub open spec fn merged_key(slots: Seq<Slot>, group: Seq<usize>) -> CacheKeyView {
    if group.len() == 1 {
        slots[group[0] as int].key->0@
    } else {
        group_key(slots, group)
    }
}

/// `b` has one slot for each index on which `a` has queries, with the query that
/// joins them by `OR`.
pub open spec fn merges(a: Seq<Slot>, b: Seq<Slot>) -> bool {
    &&& forall|t: int|
        0 <= t < b.len() && (#[trigger] b[t]).key is Some ==> {
            &&& slots_of(a, b[t].index).len() > 0
            &&& b[t].key->0@ == merged_key(a, slots_of(a, b[t].index))
        }
    &&& forall|s: int, t: int|
        0 <= s < t < b.len() && (#[trigger] b[s]).key is Some && (#[trigger] b[t]).key is Some
            ==> b[s].index != b[t].index
    &&& forall|s: int|
        0 <= s < a.len() && (#[trigger] a[s]).key is Some ==> has_slot(b, a[s].index)
}

/// Some slot with a query belongs to the index.
pub open spec fn has_slot(slots: Seq<Slot>, index: u32) -> bool {
    exists|t: int| 0 <= t < slots.len() && (#[trigger] slots[t]).key is Some && slots[t].index
        == index
}

/// The rows have the same document in the column of each index.
pub open spec fn aligned(
    a: Seq<Slot>,
    row: Seq<Option<Seq<char>>>,
    b: Seq<Slot>,
    merged: Seq<Option<Seq<char>>>,
) -> bool {
    forall|t: int|
        0 <= t < b.len() && (#[trigger] b[t]).key is Some ==> merged[t] == row[slots_of(
            a,
            b[t].index,
        )[0] as int]
}

/// Joining the queries of an index leaves the scores of the index as they are.
proof fn lemma_merged_group<
    T,
    Q,
    D,
    C: Fn(&CacheKey) -> ScoreCorpus,
    O: Fn(u32) -> T,
    P: Fn(&String, &T) -> Result<Q, String>,
    K: Fn(&String, &T) -> D,
    E: Fn(&Q, &D) -> Result<bool, String>,
>(
    engine: (C, O, P, K, E),
    a: Seq<Slot>,
    groups: Seq<Group>,
    fields: FieldCorpora,
    b: Seq<Slot>,
    others: Seq<Group>,
    other: FieldCorpora,
    g: int,
)
    requires
        a.len() <= usize::MAX,
        b.len() <= usize::MAX,
        engine_repeats::<T, Q, D, C, O, P, K, E>(engine),
        reads_alternatives::<T, Q, D, C, O, P, K, E>(engine),
        fields_built::<T, Q, D, C, O, P, K, E>(a, groups, fields, engine),
        fields_built::<T, Q, D, C, O, P, K, E>(b, others, other, engine),
        merges(a, b),
        groups.len() == others.len(),
        0 <= g < groups.len(),
        groups[g].index == others[g].index,
    ensures
        other.scored@[g].0 < b.len(),
        b[other.scored@[g].0 as int].key is Some,
        b[other.scored@[g].0 as int].index == groups[g].index,
        fields.scored@[g].0 == slots_of(a, groups[g].index)[0],
        fields.scored@[g].1.scores() == other.scored@[g].1.scores(),
{
    let group = groups[g];
    let mate = others[g];
    let index = group.index;
    assert(group.slots@ == slots_of(a, index));
    assert(mate.slots@ == slots_of(b, index));
    lemma_slots_of(a, index);
    lemma_slots_of(b, index);
    assert(mate.slots@.len() > 0);
    let t = mate.slots@[0] as int;
    assert(slots_of(b, index)[0] == mate.slots@[0]);
    assert(b[t].key is Some && b[t].index == index);
    if mate.slots@.len() > 1 {
        let s = mate.slots@[1] as int;
        assert(slots_of(b, index)[1] == mate.slots@[1]);
        assert(b[s].key is Some && b[s].index == index);
        assert(mate.slots@[0] < mate.slots@[1]);
        assert(false);
    }
    let sets = fields.group_sets(group.slots@);
    let mates = other.group_sets(mate.slots@);
    assert(group_settled::<T, Q, D, C, O, P, K, E>(a, group, sets, fields.scored@[g].1, engine));
    assert(group_settled::<T, Q, D, C, O, P, K, E>(b, mate, mates, other.scored@[g].1, engine));
    if group.slots@.len() == 1 {
        let key = b[t].key->0;
        let first = a[group.slots@[0] as int].key->0;
        assert(key@ == first@);
        lemma_single_query(a, group.slots@);
        lemma_single_query(b, mate.slots@);
        assert(key@.query == key.query@ && first@.query == first.query@);
        assert(group_queries(a, group.slots@) =~= group_queries(b, mate.slots@));
        law_same_queries_same_outcome::<T, Q, D, C, O, P, K, E>(
            engine,
            a,
            group,
            sets,
            fields.scored@[g].1,
            b,
            mate,
            mates,
            other.scored@[g].1,
        );
    } else {
        law_queries_of_one_index_are_alternatives::<T, Q, D, C, O, P, K, E>(
            engine,
            a,
            group,
            sets,
            fields.scored@[g].1,
            b,
            mate,
            mates,
            other.scored@[g].1,
        );
    }
}

/// Several queries on one index score once, as their alternatives: with the
/// queries of each index joined by `OR` into one, a row that was read has the
/// same score. The engine reads alternatives as such.
pub proof fn law_queries_of_one_index_score_once<
    T,
    Q,
    D,
    C: Fn(&CacheKey) -> ScoreCorpus,
    O: Fn(u32) -> T,
    P: Fn(&String, &T) -> Result<Q, String>,
    K: Fn(&String, &T) -> D,
    E: Fn(&Q, &D) -> Result<bool, String>,
    I: Fn(u32, u32) -> IndexDefinition,
    R: FnOnce(u32) -> String,
    S: FnOnce(&String) -> Result<Vec<Vec<Option<String>>>, String>,
    A: Fn(&Vec<u32>) -> u32,
>(
    engine: (C, O, P, K, E),
    host: (I, R, S, A),
    request: ScoreRequest,
    corpus: MultiCorpus,
    source: Source,
    row: Seq<Option<Seq<char>>>,
    other_request: ScoreRequest,
    other: MultiCorpus,
    mate: Source,
    merged: Seq<Option<Seq<char>>>,
)
    requires
        engine_repeats::<T, Q, D, C, O, P, K, E>(engine),
        reads_alternatives::<T, Q, D, C, O, P, K, E>(engine),
        sum_repeats(host.3),
        tables::<T, Q, D, C, O, P, K, E, I, R, S, A>(
            engine,
            host,
            request,
            corpus,
            source,
        ),
        tables::<T, Q, D, C, O, P, K, E, I, R, S, A>(
            engine,
            host,
            other_request,
            other,
            mate,
        ),
        merges(corpus.slots@, other.slots@),
        source.rows.deep_view().contains(row),
        mate.rows.deep_view().contains(merged),
        aligned(corpus.slots@, row, other.slots@, merged),
    ensures
        forall|mode: i32|
            !is_max_mode(mode) ==> #[trigger] other.answer(mode, merged) == corpus.answer(mode, row),
{
    let a = corpus.slots@;
    let b = other.slots@;
    assert(a.len() == corpus.slots.len());
    assert(b.len() == other.slots.len());
    assert forall|index: u32| #[trigger] has_group(source.groups, index) <==> has_group(
        mate.groups,
        index,
    ) by {
        lemma_group_of_slot(a, source.groups, index);
        lemma_group_of_slot(b, mate.groups, index);
        if has_group(source.groups, index) {
            let s = choose|s: int|
                0 <= s < a.len() && (#[trigger] a[s]).key is Some && a[s].index == index;
            assert(has_slot(b, a[s].index));
        }
        if has_group(mate.groups, index) {
            let t = choose|t: int|
                0 <= t < b.len() && (#[trigger] b[t]).key is Some && b[t].index == index;
            lemma_slots_of(a, index);
            assert(slots_of(a, index).len() > 0);
            let s = slots_of(a, index)[0] as int;
            assert(a[s].key is Some && a[s].index == index);
        }
    }
    lemma_same_indexes(a, source.groups, b, mate.groups);
    let x = parts(row, source.fields.scored@);
    let y = parts(merged, mate.fields.scored@);
    assert forall|g: int| 0 <= g < x.len() implies #[trigger] x[g] == y[g] by {
        assert(source.groups[g].index == mate.groups[g].index);
        lemma_merged_group::<T, Q, D, C, O, P, K, E>(
            engine,
            a,
            source.groups,
            source.fields,
            b,
            mate.groups,
            mate.fields,
            g,
        );
        let t = mate.fields.scored@[g].0 as int;
        assert(b[t].key is Some);
        assert(merged[t] == row[source.fields.scored@[g].0 as int]);
    }
    assert(x =~= y);
    lemma_row_map::<T, Q, D, C, O, P, K, E, I, R, S, A>(
        engine,
        host,
        request,
        corpus,
        source,
        row,
    );
    lemma_row_map::<T, Q, D, C, O, P, K, E, I, R, S, A>(
        engine,
        host,
        other_request,
        other,
        mate,
        merged,
    );
    lemma_one_sum(
        host.3,
        x,
        row_map(corpus.by_document)[row],
        row_map(other.by_document)[merged],
    );
}

/// What a row has in a column adds nothing to its score: it has no document there,
/// or one that no query of the column's index matches.
pub open spec fn adds_nothing(
    slots: Seq<Slot>,
    fields: FieldCorpora,
    column: int,
    document: Option<Seq<char>>,
) -> bool {
    document matches Some(text) ==> forall|s: int|
        0 <= s < slots.len() && slots[s].index == slots[column].index ==> {
            (#[trigger] fields.matches@[s]) matches Some(set) ==> !text_set(set).contains(text)
        }
}

/// A NULL document scores like one that does not match: rows that differ only in
/// columns that add nothing have the same score.
pub proof fn law_null_documents_add_nothing<
    T,
    Q,
    D,
    C: Fn(&CacheKey) -> ScoreCorpus,
    O: Fn(u32) -> T,
    P: Fn(&String, &T) -> Result<Q, String>,
    K: Fn(&String, &T) -> D,
    E: Fn(&Q, &D) -> Result<bool, String>,
    I: Fn(u32, u32) -> IndexDefinition,
    R: FnOnce(u32) -> String,
    S: FnOnce(&String) -> Result<Vec<Vec<Option<String>>>, String>,
    A: Fn(&Vec<u32>) -> u32,
>(
    engine: (C, O, P, K, E),
    host: (I, R, S, A),
    request: ScoreRequest,
    corpus: MultiCorpus,
    source: Source,
    row: Seq<Option<Seq<char>>>,
    other: Seq<Option<Seq<char>>>,
)
    requires
        sum_repeats(host.3),
        tables::<T, Q, D, C, O, P, K, E, I, R, S, A>(
            engine,
            host,
            request,
            corpus,
            source,
        ),
        source.rows.deep_view().contains(row),
        source.rows.deep_view().contains(other),
        forall|s: int|
            0 <= s < corpus.slots@.len() ==> #[trigger] row[s] == other[s] || {
                &&& adds_nothing(corpus.slots@, source.fields, s, row[s])
                &&& adds_nothing(corpus.slots@, source.fields, s, other[s])
            },
    ensures
        forall|mode: i32|
            #[trigger] corpus.answer(mode, row) == corpus.answer(mode, other),
{
    let slots = corpus.slots@;
    let x = parts(row, source.fields.scored@);
    let y = parts(other, source.fields.scored@);
    assert(slots.len() == corpus.slots.len());
    assert forall|g: int| 0 <= g < x.len() implies #[trigger] x[g] == y[g] by {
        let s = source.fields.scored@[g].0 as int;
        let group = source.groups[g];
        assert(group_settled::<T, Q, D, C, O, P, K, E>(
            slots,
            group,
            source.fields.group_sets(group.slots@),
            source.fields.scored@[g].1,
            engine,
        ));
        lemma_slots_of(slots, group.index);
        assert(group.slots@ == slots_of(slots, group.index));
        assert(slots_of(slots, group.index)[0] == group.slots@[0]);
        assert(slots[s].index == group.index);
        law_matching_columns_contribute::<T, Q, D, C, O, P, K, E>(
            slots,
            source.groups,
            source.fields,
            engine,
            row,
            g,
        );
        law_matching_columns_contribute::<T, Q, D, C, O, P, K, E>(
            slots,
            source.groups,
            source.fields,
            engine,
            other,
            g,
        );
        assert(row[s] == other[s] || adds_nothing(slots, source.fields, s, row[s]));
    }
    assert(x =~= y);
    lemma_row_map::<T, Q, D, C, O, P, K, E, I, R, S, A>(
        engine,
        host,
        request,
        corpus,
        source,
        row,
    );
    lemma_row_map::<T, Q, D, C, O, P, K, E, I, R, S, A>(
        engine,
        host,
        request,
        corpus,
        source,
        other,
    );
    lemma_one_sum(
        host.3,
        x,
        row_map(corpus.by_document)[row],
        row_map(corpus.by_document)[other],
    );
}

/// The table at hand was made from what this engine and this host told.
pub open spec fn made<
    T,
    Q,
    D,
    C: Fn(&CacheKey) -> ScoreCorpus,
    O: Fn(u32) -> T,
    P: Fn(&String, &T) -> Result<Q, String>,
    K: Fn(&String, &T) -> D,
    E: Fn(&Q, &D) -> Result<bool, String>,
    I: Fn(u32, u32) -> IndexDefinition,
    R: FnOnce(u32) -> String,
    S: FnOnce(&String) -> Result<Vec<Vec<Option<String>>>, String>,
    A: Fn(&Vec<u32>) -> u32,
>(engine: (C, O, P, K, E), host: (I, R, S, A), cache: Option<MultiCorpus>) -> bool {
    cache matches Some(corpus) ==> exists|request: ScoreRequest, session: Session| #[trigger]
        rebuilt::<T, Q, D, C, O, P, K, E, I, R, S, A>(
            engine,
            host,
            request,
            session,
            corpus,
        )
}

/// A request leaves a table that was made from what the engine and the host told.
pub proof fn law_calls_keep_the_table_made<
    T,
    Q,
    D,
    C: Fn(&CacheKey) -> ScoreCorpus,
    O: Fn(u32) -> T,
    P: Fn(&String, &T) -> Result<Q, String>,
    K: Fn(&String, &T) -> D,
    E: Fn(&Q, &D) -> Result<bool, String>,
    I: Fn(u32, u32) -> IndexDefinition,
    R: FnOnce(u32) -> String,
    S: FnOnce(&String) -> Result<Vec<Vec<Option<String>>>, String>,
    A: Fn(&Vec<u32>) -> u32,
>(
    engine: (C, O, P, K, E),
    host: (I, R, S, A),
    request: ScoreRequest,
    session: Session,
    before: Option<MultiCorpus>,
    after: Option<MultiCorpus>,
    outcome: Result<u32, ScoreError>,
)
    requires
        made::<T, Q, D, C, O, P, K, E, I, R, S, A>(engine, host, before),
        answered::<T, Q, D, C, O, P, K, E, I, R, S, A>(
            engine,
            host,
            request,
            session,
            before,
            after,
            outcome,
        ),
    ensures
        made::<T, Q, D, C, O, P, K, E, I, R, S, A>(engine, host, after),
{
    if let Ok(score) = outcome {
        if !usable(before, request, session) {
            assert(rebuilt::<T, Q, D, C, O, P, K, E, I, R, S, A>(
            engine,
            host,
            request,
            session,
            after->0,
        ));
        }
    }
}

/// The request has a query.
pub open spec fn has_query(request: ScoreRequest) -> bool {
    exists|s: int| 0 <= s < request.indexes@.len() && (#[trigger] request.queries@[s]) is Some
}

/// Requests for the same columns have queries alike.
proof fn lemma_same_columns_query(
    request: ScoreRequest,
    session: Session,
    other_request: ScoreRequest,
    other_session: Session,
)
    requires
        request.slots(session) == other_request.slots(other_session),
    ensures
        has_query(request) == has_query(other_request),
{
    let x = request.slots(session);
    let y = other_request.slots(other_session);
    assert(x.len() == request.indexes@.len());
    assert(y.len() == other_request.indexes@.len());
    assert forall|s: int| 0 <= s < x.len() implies (#[trigger] request.queries@[s] is Some
        <==> other_request.queries@[s] is Some) by {
        assert(x[s].key is Some <==> request.queries@[s] is Some);
        assert(y[s].key is Some <==> other_request.queries@[s] is Some);
    }
    if has_query(request) {
        let s = choose|s: int|
            0 <= s < request.indexes@.len() && (#[trigger] request.queries@[s]) is Some;
        assert(other_request.queries@[s] is Some);
    }
    if has_query(other_request) {
        let s = choose|s: int|
            0 <= s < other_request.indexes@.len() && (#[trigger] other_request.queries@[s]) is Some;
        assert(request.queries@[s] is Some);
    }
}

/// A list of zeros, be it empty, adds up to zero.
pub open spec fn zeros_add_up_to_zero<A: Fn(&Vec<u32>) -> u32>(sum: A) -> bool {
    forall|list: Vec<u32>, total: u32| #[trigger]
        sum.ensures((&list,), total) && (forall|i: int| 0 <= i < list@.len() ==> list@[i] == ZERO)
            ==> total == ZERO
}

/// Zeros add up to zero.
proof fn lemma_zero_sum<A: Fn(&Vec<u32>) -> u32>(sum: A, scores: Seq<u32>, total: u32)
    requires
        zeros_add_up_to_zero(sum),
        summed(sum, scores, total),
        forall|i: int| 0 <= i < scores.len() ==> scores[i] == ZERO,
    ensures
        total == ZERO,
{
    let list = choose|list: Vec<u32>| list@ == scores && #[trigger] sum.ensures((&list,), total);
    assert forall|i: int| 0 <= i < list@.len() implies list@[i] == ZERO by {
        assert(scores[i] == ZERO);
    }
}

/// A score in a table is that of a row that was read.
proof fn lemma_tabled_row(
    rows: Seq<Seq<Option<Seq<char>>>>,
    scores: Seq<u32>,
    row: Seq<Option<Seq<char>>>,
) -> (at: int)
    requires
        tabled(rows, scores).contains_key(row),
    ensures
        0 <= at < rows.len(),
        rows[at] == row,
        tabled(rows, scores)[row] == scores[at],
    decreases rows.len(),
{
    let last = rows.len() - 1;
    if rows.len() > 0 && rows[last] == row {
        last
    } else {
        let at = lemma_tabled_row(rows.drop_last(), scores, row);
        assert(rows[at] == rows.drop_last()[at]);
        at
    }
}

/// A row in which no document matches a query of its column's index has the score
/// zero, be it read or not.
pub proof fn law_rows_without_match_score_zero<
    T,
    Q,
    D,
    C: Fn(&CacheKey) -> ScoreCorpus,
    O: Fn(u32) -> T,
    P: Fn(&String, &T) -> Result<Q, String>,
    K: Fn(&String, &T) -> D,
    E: Fn(&Q, &D) -> Result<bool, String>,
    I: Fn(u32, u32) -> IndexDefinition,
    R: FnOnce(u32) -> String,
    S: FnOnce(&String) -> Result<Vec<Vec<Option<String>>>, String>,
    A: Fn(&Vec<u32>) -> u32,
>(
    engine: (C, O, P, K, E),
    host: (I, R, S, A),
    request: ScoreRequest,
    corpus: MultiCorpus,
    source: Source,
    row: Seq<Option<Seq<char>>>,
)
    requires
        zeros_add_up_to_zero(host.3),
        tables::<T, Q, D, C, O, P, K, E, I, R, S, A>(
            engine,
            host,
            request,
            corpus,
            source,
        ),
        forall|s: int|
            0 <= s < corpus.slots@.len() ==> adds_nothing(
                corpus.slots@,
                source.fields,
                s,
                #[trigger] row[s],
            ),
    ensures
        forall|mode: i32| !is_max_mode(mode) ==> #[trigger] corpus.answer(mode, row) == ZERO,
{
    let slots = corpus.slots@;
    let rows = source.rows.deep_view();
    let found = parts(row, source.fields.scored@);
    assert(slots.len() == corpus.slots.len());
    assert forall|g: int| 0 <= g < found.len() implies #[trigger] found[g] == ZERO by {
        let s = source.fields.scored@[g].0 as int;
        let group = source.groups[g];
        assert(group_settled::<T, Q, D, C, O, P, K, E>(
            slots,
            group,
            source.fields.group_sets(group.slots@),
            source.fields.scored@[g].1,
            engine,
        ));
        lemma_slots_of(slots, group.index);
        assert(group.slots@ == slots_of(slots, group.index));
        assert(slots_of(slots, group.index)[0] == group.slots@[0]);
        assert(slots[s].index == group.index);
        law_matching_columns_contribute::<T, Q, D, C, O, P, K, E>(
            slots,
            source.groups,
            source.fields,
            engine,
            row,
            g,
        );
        assert(adds_nothing(slots, source.fields, s, row[s]));
    }
    if row_map(corpus.by_document).contains_key(row) {
        let at = lemma_tabled_row(rows, source.scores, row);
        assert(rows[at] == source.rows@[at].deep_view());
        lemma_zero_sum(host.3, found, source.scores[at]);
    }
}

/// A table over columns without a query answers everything by zero.
proof fn lemma_no_query_table<
    T,
    Q,
    D,
    C: Fn(&CacheKey) -> ScoreCorpus,
    O: Fn(u32) -> T,
    P: Fn(&String, &T) -> Result<Q, String>,
    K: Fn(&String, &T) -> D,
    E: Fn(&Q, &D) -> Result<bool, String>,
    I: Fn(u32, u32) -> IndexDefinition,
    R: FnOnce(u32) -> String,
    S: FnOnce(&String) -> Result<Vec<Vec<Option<String>>>, String>,
    A: Fn(&Vec<u32>) -> u32,
>(
    engine: (C, O, P, K, E),
    host: (I, R, S, A),
    request: ScoreRequest,
    corpus: MultiCorpus,
    source: Source,
)
    requires
        zeros_add_up_to_zero(host.3),
        tables::<T, Q, D, C, O, P, K, E, I, R, S, A>(
            engine,
            host,
            request,
            corpus,
            source,
        ),
        forall|s: int| 0 <= s < corpus.slots@.len() ==> (#[trigger] corpus.slots@[s]).key is None,
    ensures
        forall|mode: i32, documents: Seq<Option<Seq<char>>>| #[trigger]
            corpus.answer(mode, documents) == ZERO,
{
    let rows = source.rows.deep_view();
    assert(corpus.slots@.len() == corpus.slots.len());
    assert(source.fields.scored@.len() == 0) by {
        if source.groups.len() > 0 {
            let index = source.groups[0].index;
            lemma_group_of_slot(corpus.slots@, source.groups, index);
            assert(has_group(source.groups, index));
        }
    }
    assert forall|i: int| 0 <= i < rows.len() implies #[trigger] source.scores[i] == ZERO by {
        assert(rows[i] == source.rows@[i].deep_view());
        lemma_zero_sum(host.3, parts(rows[i], source.fields.scored@), source.scores[i]);
    }
    assert forall|row: Seq<Option<Seq<char>>>| #[trigger]
        row_map(corpus.by_document).contains_key(row) implies row_map(corpus.by_document)[row]
        == ZERO by {
        let at = lemma_tabled_row(rows, source.scores, row);
        assert(source.scores[at] == ZERO);
    }
    law_greatest_is_attained_bound(
        rows,
        source.scores,
        corpus.condition@,
        source.fields.matches@,
    );
}

/// A table that was made for a request without a query has no slot with one.
proof fn lemma_no_query_slots(corpus: MultiCorpus, request: ScoreRequest, session: Session)
    requires
        slot_views(corpus.slots@) == request.slots(session),
        !has_query(request),
    ensures
        forall|s: int| 0 <= s < corpus.slots@.len() ==> (#[trigger] corpus.slots@[s]).key is None,
{
    assert(slot_views(corpus.slots@).len() == corpus.slots@.len());
    assert(request.slots(session).len() == request.indexes@.len());
    assert forall|s: int| 0 <= s < corpus.slots@.len() implies (
    #[trigger] corpus.slots@[s]).key is None by {
        assert(slot_views(corpus.slots@)[s] == corpus.slots@[s]@);
        assert(request.slots(session)[s].key is Some <==> request.queries@[s] is Some);
    }
}

/// A request in which every query is NULL is answered by zero in every mode,
/// whatever was scored before.
pub proof fn law_requests_without_query_score_zero<
    T,
    Q,
    D,
    C: Fn(&CacheKey) -> ScoreCorpus,
    O: Fn(u32) -> T,
    P: Fn(&String, &T) -> Result<Q, String>,
    K: Fn(&String, &T) -> D,
    E: Fn(&Q, &D) -> Result<bool, String>,
    I: Fn(u32, u32) -> IndexDefinition,
    R: FnOnce(u32) -> String,
    S: FnOnce(&String) -> Result<Vec<Vec<Option<String>>>, String>,
    A: Fn(&Vec<u32>) -> u32,
>(
    engine: (C, O, P, K, E),
    host: (I, R, S, A),
    request: ScoreRequest,
    session: Session,
    before: Option<MultiCorpus>,
    after: Option<MultiCorpus>,
    score: u32,
)
    requires
        zeros_add_up_to_zero(host.3),
        made::<T, Q, D, C, O, P, K, E, I, R, S, A>(engine, host, before),
        answered::<T, Q, D, C, O, P, K, E, I, R, S, A>(
            engine,
            host,
            request,
            session,
            before,
            after,
            Ok(score),
        ),
        !has_query(request),
    ensures
        score == ZERO,
{
    let corpus = after->0;
    law_calls_keep_the_table_made::<T, Q, D, C, O, P, K, E, I, R, S, A>(
        engine,
        host,
        request,
        session,
        before,
        after,
        Ok(score),
    );
    let (first, own) = choose|first: ScoreRequest, own: Session| #[trigger]
        rebuilt::<T, Q, D, C, O, P, K, E, I, R, S, A>(
            engine,
            host,
            first,
            own,
            corpus,
        );
    let source = choose|source: Source| #[trigger]
        tables::<T, Q, D, C, O, P, K, E, I, R, S, A>(
            engine,
            host,
            first,
            corpus,
            source,
        );
    lemma_no_query_slots(corpus, request, session);
    lemma_no_query_table::<T, Q, D, C, O, P, K, E, I, R, S, A>(
        engine,
        host,
        first,
        corpus,
        source,
    );
    assert(corpus.answer(request.mode, request.documents.deep_view()) == ZERO);
}

/// The table that answered a request was made for its columns and its condition.
proof fn lemma_table_of_answer<
    T,
    Q,
    D,
    C: Fn(&CacheKey) -> ScoreCorpus,
    O: Fn(u32) -> T,
    P: Fn(&String, &T) -> Result<Q, String>,
    K: Fn(&String, &T) -> D,
    E: Fn(&Q, &D) -> Result<bool, String>,
    I: Fn(u32, u32) -> IndexDefinition,
    R: FnOnce(u32) -> String,
    S: FnOnce(&String) -> Result<Vec<Vec<Option<String>>>, String>,
    A: Fn(&Vec<u32>) -> u32,
>(
    engine: (C, O, P, K, E),
    host: (I, R, S, A),
    request: ScoreRequest,
    session: Session,
    before: Option<MultiCorpus>,
    after: Option<MultiCorpus>,
    score: u32,
) -> (maker: (ScoreRequest, Session))
    requires
        made::<T, Q, D, C, O, P, K, E, I, R, S, A>(engine, host, before),
        answered::<T, Q, D, C, O, P, K, E, I, R, S, A>(
            engine,
            host,
            request,
            session,
            before,
            after,
            Ok(score),
        ),
        has_query(request),
    ensures
        after is Some,
        rebuilt::<T, Q, D, C, O, P, K, E, I, R, S, A>(
            engine,
            host,
            maker.0,
            maker.1,
            after->0,
        ),
        same_columns(maker.0, maker.1, request, session),
        maker.0.condition@ == request.condition@,
{
    let corpus = after->0;
    if usable(before, request, session) {
        let (first, own) = choose|first: ScoreRequest, own: Session| #[trigger]
            rebuilt::<T, Q, D, C, O, P, K, E, I, R, S, A>(
                engine,
                host,
                first,
                own,
                corpus,
            );
        let x = first.slots(own);
        let y = request.slots(session);
        assert(x == y);
        let s = choose|s: int|
            0 <= s < request.indexes@.len() && (#[trigger] request.queries@[s]) is Some;
        assert(y.len() == request.indexes@.len());
        assert(x.len() == first.indexes@.len());
        assert(x[s].key == y[s].key);
        assert(y[s].key->0.heap_oid == request.heap_oid as u32);
        assert(x[s].key->0.heap_oid == first.heap_oid as u32);
        (first, own)
    } else {
        (request, session)
    }
}

/// Two requests for the same columns agree, whatever was scored before either of
/// them: the greatest score depends on the condition and not on the documents,
/// and the score of a row on its documents and not on the condition. So a request
/// that is made again gets the same score, and it is the one that a first request
/// gets. Where no query is given, zeros have to add up to zero.
pub proof fn law_calls_agree<
    T,
    Q,
    D,
    C: Fn(&CacheKey) -> ScoreCorpus,
    O: Fn(u32) -> T,
    P: Fn(&String, &T) -> Result<Q, String>,
    K: Fn(&String, &T) -> D,
    E: Fn(&Q, &D) -> Result<bool, String>,
    I: Fn(u32, u32) -> IndexDefinition,
    R: FnOnce(u32) -> String,
    S: FnOnce(&String) -> Result<Vec<Vec<Option<String>>>, String>,
    A: Fn(&Vec<u32>) -> u32,
>(
    engine: (C, O, P, K, E),
    host: (I, R, S, A),
    request: ScoreRequest,
    session: Session,
    before: Option<MultiCorpus>,
    after: Option<MultiCorpus>,
    score: u32,
    other_request: ScoreRequest,
    other_session: Session,
    other_before: Option<MultiCorpus>,
    other_after: Option<MultiCorpus>,
    other_score: u32,
)
    requires
        engine_repeats::<T, Q, D, C, O, P, K, E>(engine),
        host_repeats(host),
        made::<T, Q, D, C, O, P, K, E, I, R, S, A>(engine, host, before),
        made::<T, Q, D, C, O, P, K, E, I, R, S, A>(engine, host, other_before),
        answered::<T, Q, D, C, O, P, K, E, I, R, S, A>(
            engine,
            host,
            request,
            session,
            before,
            after,
            Ok(score),
        ),
        answered::<T, Q, D, C, O, P, K, E, I, R, S, A>(
            engine,
            host,
            other_request,
            other_session,
            other_before,
            other_after,
            Ok(other_score),
        ),
        same_columns(request, session, other_request, other_session),
        has_query(request) || zeros_add_up_to_zero(host.3),
        is_max_mode(request.mode) == is_max_mode(other_request.mode),
        if is_max_mode(request.mode) {
            request.condition@ == other_request.condition@
        } else {
            request.documents.deep_view() == other_request.documents.deep_view()
        },
    ensures
        score == other_score,
{
    lemma_same_columns_query(request, session, other_request, other_session);
    if has_query(request) {
        let (first, own) = lemma_table_of_answer::<T, Q, D, C, O, P, K, E, I, R, S, A>(
            engine,
            host,
            request,
            session,
            before,
            after,
            score,
        );
        let (second, others_own) = lemma_table_of_answer::<T, Q, D, C, O, P, K, E, I, R, S, A>(
            engine,
            host,
            other_request,
            other_session,
            other_before,
            other_after,
            other_score,
        );
        let x = after->0;
        let y = other_after->0;
        let documents = request.documents.deep_view();
        if is_max_mode(request.mode) {
            law_tables_repeat::<T, Q, D, C, O, P, K, E, I, R, S, A>(
                engine,
                host,
                first,
                own,
                x,
                second,
                others_own,
                y,
            );
        } else {
            law_scores_ignore_the_condition::<T, Q, D, C, O, P, K, E, I, R, S, A>(
                engine,
                host,
                first,
                own,
                x,
                second,
                others_own,
                y,
            );
            assert(x.answer(request.mode, documents) == y.answer(request.mode, documents));
        }
    } else {
        law_requests_without_query_score_zero::<T, Q, D, C, O, P, K, E, I, R, S, A>(
            engine,
            host,
            request,
            session,
            before,
            after,
            score,
        );
        law_requests_without_query_score_zero::<T, Q, D, C, O, P, K, E, I, R, S, A>(
            engine,
            host,
            other_request,
            other_session,
            other_before,
            other_after,
            other_score,
        );
    }
}

/// The greatest score is the greatest of the scores of the rows that satisfy the
/// condition. Of a request for the greatest score and one for the score of a row,
/// over the same columns: the row's score is the one in the table that gave the
/// greatest score; where the row was read and satisfies the condition, it is not
/// greater; and unless the greatest score is zero, it is that of such a row. Where
/// no query is given, zeros have to add up to zero.
pub proof fn law_greatest_score_of_calls<
    T,
    Q,
    D,
    C: Fn(&CacheKey) -> ScoreCorpus,
    O: Fn(u32) -> T,
    P: Fn(&String, &T) -> Result<Q, String>,
    K: Fn(&String, &T) -> D,
    E: Fn(&Q, &D) -> Result<bool, String>,
    I: Fn(u32, u32) -> IndexDefinition,
    R: FnOnce(u32) -> String,
    S: FnOnce(&String) -> Result<Vec<Vec<Option<String>>>, String>,
    A: Fn(&Vec<u32>) -> u32,
>(
    engine: (C, O, P, K, E),
    host: (I, R, S, A),
    request: ScoreRequest,
    session: Session,
    before: Option<MultiCorpus>,
    after: Option<MultiCorpus>,
    max: u32,
    maker: ScoreRequest,
    source: Source,
    row_request: ScoreRequest,
    row_session: Session,
    row_before: Option<MultiCorpus>,
    row_after: Option<MultiCorpus>,
    score: u32,
)
    requires
        engine_repeats::<T, Q, D, C, O, P, K, E>(engine),
        host_repeats(host),
        made::<T, Q, D, C, O, P, K, E, I, R, S, A>(engine, host, before),
        made::<T, Q, D, C, O, P, K, E, I, R, S, A>(engine, host, row_before),
        answered::<T, Q, D, C, O, P, K, E, I, R, S, A>(
            engine,
            host,
            request,
            session,
            before,
            after,
            Ok(max),
        ),
        answered::<T, Q, D, C, O, P, K, E, I, R, S, A>(
            engine,
            host,
            row_request,
            row_session,
            row_before,
            row_after,
            Ok(score),
        ),
        is_max_mode(request.mode),
        !is_max_mode(row_request.mode),
        same_columns(request, session, row_request, row_session),
        has_query(request) || zeros_add_up_to_zero(host.3),
        tables::<T, Q, D, C, O, P, K, E, I, R, S, A>(
            engine,
            host,
            maker,
            after->0,
            source,
        ),
    ensures
        rank(max) is Some,
        rank(max)->0 >= 0,
        score == (after->0).answer(SCORE, row_request.documents.deep_view()),
        ({
            let row = row_request.documents.deep_view();
            source.rows.deep_view().contains(row) && holds(
                request.condition@,
                verdicts(row, source.fields.matches@),
            ) && rank(score) is Some ==> rank(score)->0 <= rank(max)->0
        }),
        max == ZERO || exists|i: int|
            {
                &&& 0 <= i < source.rows@.len()
                &&& holds(
                    request.condition@,
                    verdicts((#[trigger] source.rows@[i]).deep_view(), source.fields.matches@),
                )
                &&& max == (after->0).answer(SCORE, source.rows@[i].deep_view())
            },
{
    lemma_same_columns_query(request, session, row_request, row_session);
    if has_query(request) {
        let corpus = after->0;
        let row = row_request.documents.deep_view();
        let rows = source.rows.deep_view();
        let (first, own) = lemma_table_of_answer::<T, Q, D, C, O, P, K, E, I, R, S, A>(
            engine,
            host,
            request,
            session,
            before,
            after,
            max,
        );
        let (second, others_own) = lemma_table_of_answer::<T, Q, D, C, O, P, K, E, I, R, S, A>(
            engine,
            host,
            row_request,
            row_session,
            row_before,
            row_after,
            score,
        );
        law_scores_ignore_the_condition::<T, Q, D, C, O, P, K, E, I, R, S, A>(
            engine,
            host,
            first,
            own,
            corpus,
            second,
            others_own,
            row_after->0,
        );
        assert(corpus.answer(row_request.mode, row) == score);
        assert(corpus.answer(SCORE, row) == corpus.answer(row_request.mode, row));
        law_reported_maximum_is_greatest_reported_score::<T, Q, D, C, O, P, K, E, I, R, S, A>(
            engine,
            host,
            maker,
            corpus,
            source,
            row,
        );
        if rows.contains(row) {
            let i = rows.index_of(row);
            assert(rows[i] == source.rows@[i].deep_view());
        }
        if max != ZERO {
            let i = choose|i: int|
                {
                    &&& 0 <= i < source.rows@.len()
                    &&& holds(
                        corpus.condition@,
                        verdicts((#[trigger] source.rows@[i]).deep_view(), source.fields.matches@),
                    )
                    &&& corpus.max == corpus.answer(SCORE, source.rows@[i].deep_view())
                };
            assert(holds(
                request.condition@,
                verdicts(source.rows@[i].deep_view(), source.fields.matches@),
            ));
        }
    } else {
        law_requests_without_query_score_zero::<T, Q, D, C, O, P, K, E, I, R, S, A>(
            engine,
            host,
            request,
            session,
            before,
            after,
            max,
        );
        law_requests_without_query_score_zero::<T, Q, D, C, O, P, K, E, I, R, S, A>(
            engine,
            host,
            row_request,
            row_session,
            row_before,
            row_after,
            score,
        );
        lemma_no_query_slots(after->0, request, session);
        lemma_no_query_table::<T, Q, D, C, O, P, K, E, I, R, S, A>(
            engine,
            host,
            maker,
            after->0,
            source,
        );
        assert((after->0).answer(SCORE, row_request.documents.deep_view()) == ZERO);
    }
}

/// Requests with the columns in another order get the same score in every mode,
/// whatever was scored before: `law_column_order_is_irrelevant` for two requests.
/// Where no query is given, zeros have to add up to zero.
pub proof fn law_reordered_calls_agree<
    T,
    Q,
    D,
    C: Fn(&CacheKey) -> ScoreCorpus,
    O: Fn(u32) -> T,
    P: Fn(&String, &T) -> Result<Q, String>,
    K: Fn(&String, &T) -> D,
    E: Fn(&Q, &D) -> Result<bool, String>,
    I: Fn(u32, u32) -> IndexDefinition,
    R: FnOnce(u32) -> String,
    S: FnOnce(&String) -> Result<Vec<Vec<Option<String>>>, String>,
    A: Fn(&Vec<u32>) -> u32,
>(
    engine: (C, O, P, K, E),
    host: (I, R, S, A),
    request: ScoreRequest,
    session: Session,
    before: Option<MultiCorpus>,
    after: Option<MultiCorpus>,
    score: u32,
    other_request: ScoreRequest,
    other_session: Session,
    other_before: Option<MultiCorpus>,
    other_after: Option<MultiCorpus>,
    other_score: u32,
    order: Seq<int>,
)
    requires
        engine_repeats::<T, Q, D, C, O, P, K, E>(engine),
        host_repeats(host),
        select_follows_columns(host),
        made::<T, Q, D, C, O, P, K, E, I, R, S, A>(engine, host, before),
        made::<T, Q, D, C, O, P, K, E, I, R, S, A>(engine, host, other_before),
        answered::<T, Q, D, C, O, P, K, E, I, R, S, A>(
            engine,
            host,
            request,
            session,
            before,
            after,
            Ok(score),
        ),
        answered::<T, Q, D, C, O, P, K, E, I, R, S, A>(
            engine,
            host,
            other_request,
            other_session,
            other_before,
            other_after,
            Ok(other_score),
        ),
        has_query(request) || zeros_add_up_to_zero(host.3),
        request.heap_oid as u32 == other_request.heap_oid as u32,
        same_slots_in_order(
            request.slots(session),
            other_request.slots(other_session),
            order,
        ),
        renumbered(request.condition@, other_request.condition@, order),
        other_request.documents.deep_view() == reordered(request.documents.deep_view(), order),
        other_request.mode == request.mode,
    ensures
        score == other_score,
{
    let slots = request.slots(session);
    let others = other_request.slots(other_session);
    assert(slots.len() == request.indexes@.len());
    assert(others.len() == other_request.indexes@.len());
    assert forall|i: int| 0 <= i < others.len() implies (#[trigger] other_request.queries@[i] is Some
        <==> request.queries@[order[i]] is Some) by {
        assert(0 <= order[i] < slots.len());
        assert(others[i] == slots[order[i]]);
        assert(slots[order[i]].key is Some <==> request.queries@[order[i]] is Some);
        assert(others[i].key is Some <==> other_request.queries@[i] is Some);
    }
    if has_query(request) {
        let s = choose|s: int|
            0 <= s < request.indexes@.len() && (#[trigger] request.queries@[s]) is Some;
        assert(order.contains(s));
        let i = order.index_of(s);
        assert(other_request.queries@[i] is Some);
        assert(has_query(other_request));
        let (first, own) = lemma_table_of_answer::<T, Q, D, C, O, P, K, E, I, R, S, A>(
            engine,
            host,
            request,
            session,
            before,
            after,
            score,
        );
        let (second, others_own) = lemma_table_of_answer::<T, Q, D, C, O, P, K, E, I, R, S, A>(
            engine,
            host,
            other_request,
            other_session,
            other_before,
            other_after,
            other_score,
        );
        assert(first.slots(own).len() == first.indexes@.len());
        law_column_order_is_irrelevant::<T, Q, D, C, O, P, K, E, I, R, S, A>(
            engine,
            host,
            first,
            own,
            after->0,
            second,
            others_own,
            other_after->0,
            order,
            request.documents.deep_view(),
        );
        assert((other_after->0).answer(
            request.mode,
            reordered(request.documents.deep_view(), order),
        ) == (after->0).answer(request.mode, request.documents.deep_view()));
    } else {
        if has_query(other_request) {
            let i = choose|i: int|
                0 <= i < other_request.indexes@.len()
                    && (#[trigger] other_request.queries@[i]) is Some;
            assert(request.queries@[order[i]] is Some);
        }
        law_requests_without_query_score_zero::<T, Q, D, C, O, P, K, E, I, R, S, A>(
            engine,
            host,
            request,
            session,
            before,
            after,
            score,
        );
        law_requests_without_query_score_zero::<T, Q, D, C, O, P, K, E, I, R, S, A>(
            engine,
            host,
            other_request,
            other_session,
            other_before,
            other_after,
            other_score,
        );
    }
}

/// Requests whose queries on one index are joined by `OR` into one get the same
/// score of a row that was read for both: `law_queries_of_one_index_score_once`
/// for two requests. `source` and `mate` are what the tables were made from.
pub proof fn law_merged_calls_agree<
    T,
    Q,
    D,
    C: Fn(&CacheKey) -> ScoreCorpus,
    O: Fn(u32) -> T,
    P: Fn(&String, &T) -> Result<Q, String>,
    K: Fn(&String, &T) -> D,
    E: Fn(&Q, &D) -> Result<bool, String>,
    I: Fn(u32, u32) -> IndexDefinition,
    R: FnOnce(u32) -> String,
    S: FnOnce(&String) -> Result<Vec<Vec<Option<String>>>, String>,
    A: Fn(&Vec<u32>) -> u32,
>(
    engine: (C, O, P, K, E),
    host: (I, R, S, A),
    request: ScoreRequest,
    session: Session,
    before: Option<MultiCorpus>,
    after: Option<MultiCorpus>,
    score: u32,
    maker: ScoreRequest,
    source: Source,
    other_request: ScoreRequest,
    other_session: Session,
    other_before: Option<MultiCorpus>,
    other_after: Option<MultiCorpus>,
    other_score: u32,
    other_maker: ScoreRequest,
    mate: Source,
)
    requires
        engine_repeats::<T, Q, D, C, O, P, K, E>(engine),
        reads_alternatives::<T, Q, D, C, O, P, K, E>(engine),
        sum_repeats(host.3),
        answered::<T, Q, D, C, O, P, K, E, I, R, S, A>(
            engine,
            host,
            request,
            session,
            before,
            after,
            Ok(score),
        ),
        answered::<T, Q, D, C, O, P, K, E, I, R, S, A>(
            engine,
            host,
            other_request,
            other_session,
            other_before,
            other_after,
            Ok(other_score),
        ),
        tables::<T, Q, D, C, O, P, K, E, I, R, S, A>(
            engine,
            host,
            maker,
            after->0,
            source,
        ),
        tables::<T, Q, D, C, O, P, K, E, I, R, S, A>(
            engine,
            host,
            other_maker,
            other_after->0,
            mate,
        ),
        !is_max_mode(request.mode),
        other_request.mode == request.mode,
        merges((after->0).slots@, (other_after->0).slots@),
        source.rows.deep_view().contains(request.documents.deep_view()),
        mate.rows.deep_view().contains(other_request.documents.deep_view()),
        aligned(
            (after->0).slots@,
            request.documents.deep_view(),
            (other_after->0).slots@,
            other_request.documents.deep_view(),
        ),
    ensures
        score == other_score,
{
    law_queries_of_one_index_score_once::<T, Q, D, C, O, P, K, E, I, R, S, A>(
        engine,
        host,
        maker,
        after->0,
        source,
        request.documents.deep_view(),
        other_maker,
        other_after->0,
        mate,
        other_request.documents.deep_view(),
    );
    assert((other_after->0).answer(request.mode, other_request.documents.deep_view())
        == (after->0).answer(request.mode, request.documents.deep_view()));
}

} // verus!
