//! What the rewriting of a query promises to the functions that later read it.

use vstd::prelude::*;

use crate::catalog::{index_match, BOOLOID};
use crate::corpus::ScoreCorpus;
use crate::keys::{
    is_full_mode, is_max_mode, law_oid_round_trip, slot_views, CacheKey, ScoreRequest, Session,
    MAX_SCORE, SCORE,
};
use crate::operator::{
    bound_match, index_clause, law_bound_predicate_decides_as_operator, operator_result,
    predicate_result, reads_alike, stages_repeat, Bindable, ImplicitOp, IndexArgument,
    IndexMatchCall, MatchError, SearchNode,
};
use crate::quals::{meaning, well_formed, Field, NodeId, Qual, SearchMatch};
use crate::rewrite::{
    bound_call, constants, documents, indexes, law_bound_condition_decides_rows, queries,
    scoring_program, ArgumentView, FunctionCallView, Item, ScoreCall,
};
use crate::scoring::{
    host_ready, law_reported_maximum_is_greatest_reported_score, sum_repeats, tables, verdicts,
    IndexDefinition, MultiCorpus, Source,
};
use crate::single::{rank, ZERO};
use crate::truth::{holds, runs};

verus! {

/// The elements of an array argument.
pub open spec fn elements(arg: ArgumentView) -> Seq<Item> {
    match arg {
        ArgumentView::Array { items, .. } => items,
        _ => Seq::empty(),
    }
}

/// The request that a bound call makes when it is evaluated for a row: one
/// document and one query for each expression, and the constants as they are.
pub open spec fn receives(request: ScoreRequest, call: FunctionCallView) -> bool {
    &&& request.documents@.len() == elements(call.args[0]).len()
    &&& request.queries@.len() == elements(call.args[1]).len()
    &&& call.args[2] == ArgumentView::Int4(request.heap_oid)
    &&& elements(call.args[3]) == constants(request.indexes@)
    &&& call.args[4] == ArgumentView::Int4(request.mode)
    &&& elements(call.args[5]) == constants(request.condition@)
}

/// A rewritten call is never refused for its inputs and its condition always
/// runs; it names the table and the indexes of the query, asks for the greatest
/// score exactly where the query does, and goes over all terms exactly where the
/// query does.
pub proof fn law_bound_call_is_accepted(
    call: ScoreCall,
    heap: u32,
    fields: Seq<Field>,
    quals: Qual,
    full: bool,
    request: ScoreRequest,
)
    requires
        well_formed(quals),
        fields.len() <= i32::MAX,
        receives(request, bound_call(call, heap, fields, quals, full)),
    ensures
        request.matched(),
        request.condition@ == scoring_program(quals, fields),
        runs(request.condition@, request.indexes@.len()),
        request.heap_oid as u32 == heap,
        request.indexes@.len() == fields.len(),
        forall|i: int|
            0 <= i < fields.len() ==> #[trigger] request.indexes@[i] as u32 == fields[i].index,
        is_max_mode(request.mode) <==> call.is_max(),
        is_full_mode(request.mode) <==> call.is_full() || call.is_max() && full,
{
    let bound = bound_call(call, heap, fields, quals, full);
    assert(elements(bound.args[0]) == documents(fields));
    assert(elements(bound.args[1]) == queries(fields));
    assert(elements(bound.args[3]) == indexes(fields));
    assert(elements(bound.args[5]) == constants(scoring_program(quals, fields)));
    assert(bound.args[2] == ArgumentView::Int4(heap as i32));
    assert(bound.args[4] == ArgumentView::Int4(call.mode(full)));
    law_oid_round_trip(heap);
    let code = scoring_program(quals, fields);
    assert(constants(code).len() == constants(request.condition@).len());
    assert forall|i: int| 0 <= i < code.len() implies #[trigger] request.condition@[i]
        == code[i] by {
        assert(constants(request.condition@)[i] == Item::Int4(request.condition@[i]));
        assert(constants(code)[i] == Item::Int4(code[i]));
    }
    assert(request.condition@ =~= code);
    assert(constants(request.indexes@).len() == indexes(fields).len());
    assert forall|i: int| 0 <= i < fields.len() implies #[trigger] request.indexes@[i] as u32
        == fields[i].index by {
        assert(constants(request.indexes@)[i] == Item::Int4(request.indexes@[i]));
        assert(indexes(fields)[i] == Item::Int4(fields[i].index as i32));
        law_oid_round_trip(fields[i].index);
    }
    let none = Seq::new(fields.len(), |i: int| None::<bool>);
    law_bound_condition_decides_rows(quals, fields, none);
}

/// What a query's condition says of a row lets the row through: it accepts the
/// row, or it involves no searched column.
pub open spec fn lets_through(
    quals: Qual,
    fields: Seq<Field>,
    matches: Seq<Option<bool>>,
) -> bool {
    let said = meaning(quals, fields, matches);
    said is None || said == Some(Some(true))
}

/// The greatest score of a query over several columns is the greatest of the
/// combined scores of the rows that the query's own condition lets through, or
/// zero where that is more.
pub proof fn law_maximum_is_over_matching_rows<
    T,
    Q,
    D,
    C: Fn(&CacheKey) -> ScoreCorpus,
    O: Fn(u32) -> T,
    P: Fn(&String, &T) -> Result<Q, String>,
    K: Fn(&String, &T) -> D,
    E: Fn(&Q, &D) -> Result<bool, String>,
    I: Fn(u32, u32) -> IndexDefinition,
    R: FnOnce(u32) -> String,
    S: FnOnce(&String) -> Result<Vec<Vec<Option<String>>>, String>,
    A: Fn(&Vec<u32>) -> u32,
>(
    call: ScoreCall,
    heap: u32,
    fields: Seq<Field>,
    quals: Qual,
    full: bool,
    request: ScoreRequest,
    session: Session,
    engine: (C, O, P, K, E),
    host: (I, R, S, A),
    corpus: MultiCorpus,
    source: Source,
)
    requires
        well_formed(quals),
        fields.len() <= i32::MAX,
        receives(request, bound_call(call, heap, fields, quals, full)),
        corpus.is_for(request.slots(session), request.condition@),
        host_ready(host, request.indexes@.len()),
        tables::<T, Q, D, C, O, P, K, E, I, R, S, A>(
            engine,
            host,
            request,
            corpus,
            source,
        ),
        sum_repeats(host.3),
    ensures
        ({
            let matches = source.fields.matches@;
            let max = corpus.answer(MAX_SCORE, request.documents.deep_view());
            &&& rank(max) is Some
            &&& forall|i: int|
                0 <= i < source.rows@.len() && lets_through(
                    quals,
                    fields,
                    verdicts((#[trigger] source.rows@[i]).deep_view(), matches),
                ) ==> {
                    let score = rank(corpus.answer(SCORE, source.rows@[i].deep_view()));
                    score is Some ==> score->0 <= rank(max)->0
                }
            &&& max == ZERO || exists|i: int|
                {
                    &&& 0 <= i < source.rows@.len()
                    &&& lets_through(
                        quals,
                        fields,
                        verdicts((#[trigger] source.rows@[i]).deep_view(), matches),
                    )
                    &&& max == corpus.answer(SCORE, source.rows@[i].deep_view())
                }
        }),
{
    law_bound_call_is_accepted(call, heap, fields, quals, full, request);
    law_reported_maximum_is_greatest_reported_score::<T, Q, D, C, O, P, K, E, I, R, S, A>(
        engine,
        host,
        request,
        corpus,
        source,
        request.documents.deep_view(),
    );
    assert(slot_views(corpus.slots@).len() == request.slots(session).len());
    assert forall|i: int| 0 <= i < source.rows@.len() implies {
        let said = verdicts((#[trigger] source.rows@[i]).deep_view(), source.fields.matches@);
        holds(corpus.condition@, said) <==> lets_through(quals, fields, said)
    } by {
        let said = verdicts(source.rows@[i].deep_view(), source.fields.matches@);
        assert(source.rows@[i]@.len() >= request.indexes@.len());
        assert(said.len() == fields.len());
        law_bound_condition_decides_rows(quals, fields, said);
    }
    let max = corpus.max;
    if max != ZERO {
        let i = choose|i: int|
            {
                &&& 0 <= i < source.rows@.len()
                &&& holds(
                    corpus.condition@,
                    verdicts((#[trigger] source.rows@[i]).deep_view(), source.fields.matches@),
                )
                &&& max == corpus.answer(SCORE, source.rows@[i].deep_view())
            };
        assert(lets_through(
            quals,
            fields,
            verdicts(source.rows@[i].deep_view(), source.fields.matches@),
        ));
    }
}

/// The bound predicate in a query: a call of the function with this number, with
/// the expressions of the bound arguments and a constant behind them.
pub open spec fn shows_match(
    node: SearchNode,
    call: FunctionCallView,
    funcid: u32,
    constant: NodeId,
) -> bool {
    node matches SearchNode::Function { funcid: held, index_match, args } && {
        &&& held == funcid
        &&& index_match == funcid
        &&& call.args[0] == ArgumentView::Node(args@[0])
        &&& call.args[1] == ArgumentView::Node(args@[1])
        &&& args@ == seq![args@[0], args@[1], constant]
    }
}

/// Binding the operator to an index hides it from no one: the bound predicate is
/// read as the same search for the same document and query.
pub proof fn law_bound_predicate_is_still_a_search(
    call: Bindable,
    index: u32,
    node: SearchNode,
    funcid: u32,
    constant: NodeId,
)
    requires
        shows_match(node, bound_match(call, index), funcid, constant),
    ensures
        node.search() == Some(SearchMatch { document: call.document, query: call.query }),
{
    if let SearchNode::Function { args, .. } = node {
        assert(args@.len() == seq![args@[0], args@[1], constant].len());
    }
}

/// What a call of the bound predicate reports for a row. `text` gives the text of
/// each expression in the row, `access_method` and `tokenizer` tell of an index
/// how it is kept and how its tokenizer is loaded.
pub open spec fn call_result<
    'a,
    P,
    Q,
    D,
    L: FnOnce() -> P,
    R: FnOnce(&str, &P) -> Result<Q, String>,
    K: FnOnce(&str, &P) -> D,
    E: FnOnce(&Q, &D) -> Result<bool, String>,
>(
    call: FunctionCallView,
    text: spec_fn(NodeId) -> &'a str,
    access_method: spec_fn(u32) -> u32,
    tin_am: u32,
    tokenizer: spec_fn(u32) -> L,
    engine: (R, K, E),
    result: Result<bool, MatchError>,
) -> bool {
    match (call.args[0], call.args[1], call.args[2]) {
        (ArgumentView::Node(document), ArgumentView::Node(query), ArgumentView::Oid(index)) => {
            &&& call.function == index_match()
            &&& call.args.len() == 3
            &&& predicate_result::<P, Q, D, L, R, K, E>(
                text(document),
                text(query),
                access_method(index),
                tin_am,
                tokenizer(index),
                engine,
                result,
            )
        },
        _ => false,
    }
}

/// The call that takes the operator's place selects the same rows and fails on
/// the same queries: on an index with the tokenizer of the operator it reports for
/// every row what the operator reports. The stages repeat themselves and a query
/// is read in one step as it is in three.
pub proof fn law_replacement_decides_as_operator<
    'a,
    P,
    A,
    B,
    Q,
    D,
    F: FnOnce(&str, ImplicitOp) -> Result<A, String>,
    G: FnOnce(A, &P) -> Result<B, String>,
    H: FnOnce(&B) -> Result<Q, String>,
    K: FnOnce(&str, &P) -> D,
    E: FnOnce(&Q, &D) -> Result<bool, String>,
    L: FnOnce() -> P,
    R: FnOnce(&str, &P) -> Result<Q, String>,
>(
    call: Bindable,
    index: u32,
    text: spec_fn(NodeId) -> &'a str,
    access_method: spec_fn(u32) -> u32,
    tin_am: u32,
    tokenizer: spec_fn(u32) -> L,
    pipeline: P,
    engine: (F, G, H, K, E),
    read: R,
    operator: Result<bool, MatchError>,
    replaced: Result<bool, MatchError>,
)
    requires
        stages_repeat::<P, A, B, Q, D, F, G, H, K, E>(engine),
        reads_alike::<P, A, B, Q, F, G, H, R>(&pipeline, engine.0, engine.1, engine.2, read),
        access_method(index) == tin_am,
        forall|own: P| #[trigger] tokenizer(index).ensures((), own) ==> own == pipeline,
        operator_result::<P, A, B, Q, D, F, G, H, K, E>(
            text(call.document),
            text(call.query),
            &pipeline,
            engine,
            operator,
        ),
        call_result::<P, Q, D, L, R, K, E>(
            bound_match(call, index),
            text,
            access_method,
            tin_am,
            tokenizer,
            (read, engine.3, engine.4),
            replaced,
        ),
    ensures
        replaced == operator,
{
    law_bound_predicate_decides_as_operator::<P, A, B, Q, D, F, G, H, K, E, L, R>(
        text(call.document),
        text(call.query),
        pipeline,
        engine,
        tin_am,
        tokenizer(index),
        read,
        operator,
        replaced,
    );
}

/// The bound predicate as a support function sees it.
pub open spec fn shows_index_call(node: IndexMatchCall, call: FunctionCallView) -> bool {
    &&& call.args[0] == ArgumentView::Node(node.args@[0])
    &&& call.args[1] == ArgumentView::Node(node.args@[1])
    &&& call.args[2] matches ArgumentView::Oid(index) && node.index == (IndexArgument::Const {
        is_null: false,
        value: index as u64,
    })
    &&& node.input_collation == call.input_collation
}

/// The bound predicate offers an index condition to the index it is bound to and
/// to no other. The condition searches the same document for the same query, and
/// the rows that it finds are checked again with the bound predicate.
pub proof fn law_bound_predicate_uses_its_index(
    call: Bindable,
    index: u32,
    node: IndexMatchCall,
    index_oid: u32,
    operator: u32,
)
    requires
        shows_index_call(node, bound_match(call, index)),
    ensures
        node.is_bound_to(index_oid) <==> index_oid == index,
        index_clause(node, operator).left == call.document,
        index_clause(node, operator).right == call.query,
        index_clause(node, operator).input_collation == call.input_collation,
        index_clause(node, operator).result_type == BOOLOID,
        index_clause(node, operator).lossy,
{
    let value = index as u64;
    assert(value as u32 == index);
}

} // verus!
