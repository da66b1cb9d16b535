//! The search operator `==>`: what it says of a text, how it is recognized in a
//! query, and how it is bound to an index.

use vstd::prelude::*;
use vstd::string::StringSliceAdditionalSpecFns;

use crate::catalog::{
    index_match, is_named, law_catalog_names_and_numbers, lookup_index_match, BOOLOID, INVALID_OID,
    TEXTOID,
};
use crate::quals::{NodeId, SearchMatch};
use crate::rewrite::{argument_views, Argument, ArgumentView, FunctionCall, FunctionCallView};
use crate::text::prefixed;

verus! {

/// Why a search predicate has no truth value.
#[derive(PartialEq, Eq, Debug)]
pub enum MatchError {
    /// The index is of another kind.
    NotTinIndex,
    /// The query cannot be read or evaluated.
    InvalidQuery(String),
}

impl MatchError {
    /// The text that is reported.
    pub open spec fn text(self) -> Seq<char> {
        match self {
            MatchError::NotTinIndex => "text_matches_index requires a tin index"@,
            MatchError::InvalidQuery(error) => "invalid ==> query: "@ + error@,
        }
    }

    /// Writes the text that is reported.
    pub fn message(&self) -> (message: String)
        ensures
            message@ == self.text(),
    {
        match self {
            MatchError::NotTinIndex => "text_matches_index requires a tin index".to_owned(),
            MatchError::InvalidQuery(error) => prefixed("invalid ==> query: ", error.as_str()),
        }
    }
}

/// How words that stand side by side in a query are joined.
#[derive(Clone, Copy, PartialEq, Eq, Structural, Debug)]
pub enum ImplicitOp {
    /// All of them must match.
    And,
    /// One of them must match.
    Or,
}

/// The stages that turn a written query into one that can be evaluated: it is
/// parsed, with words side by side joined by `AND`, its words are cut as the
/// documents are, and it is lowered.
pub open spec fn reads<
    P,
    A,
    B,
    Q,
    F: FnOnce(&str, ImplicitOp) -> Result<A, String>,
    G: FnOnce(A, &P) -> Result<B, String>,
    H: FnOnce(&B) -> Result<Q, String>,
>(query_text: &str, pipeline: &P, parse: F, sub_tokenize: G, lower: H, query: Q) -> bool {
    exists|parsed: A, analyzed: B|
        {
            &&& #[trigger] parse.ensures((query_text, ImplicitOp::And), Ok(parsed))
            &&& #[trigger] sub_tokenize.ensures((parsed, pipeline), Ok(analyzed))
            &&& lower.ensures((&analyzed,), Ok(query))
        }
}

/// One of these stages refused the query, and no stage before it did.
pub open spec fn refuses<
    P,
    A,
    B,
    Q,
    F: FnOnce(&str, ImplicitOp) -> Result<A, String>,
    G: FnOnce(A, &P) -> Result<B, String>,
    H: FnOnce(&B) -> Result<Q, String>,
>(query_text: &str, pipeline: &P, parse: F, sub_tokenize: G, lower: H, error: String) -> bool {
    ||| parse.ensures((query_text, ImplicitOp::And), Err(error))
    ||| exists|parsed: A|
        {
            &&& #[trigger] parse.ensures((query_text, ImplicitOp::And), Ok(parsed))
            &&& sub_tokenize.ensures((parsed, pipeline), Err(error))
        }
    ||| exists|parsed: A, analyzed: B|
        {
            &&& #[trigger] parse.ensures((query_text, ImplicitOp::And), Ok(parsed))
            &&& #[trigger] sub_tokenize.ensures((parsed, pipeline), Ok(analyzed))
            &&& lower.ensures((&analyzed,), Err(error))
        }
}

/// Evaluating a query on the tokens of a document came to this.
pub open spec fn concludes<
    P,
    Q,
    D,
    K: FnOnce(&str, &P) -> D,
    E: FnOnce(&Q, &D) -> Result<bool, String>,
>(
    document: &str,
    pipeline: &P,
    query: Q,
    tokenize_doc: K,
    evaluate: E,
    outcome: Result<bool, String>,
) -> bool {
    exists|tokens: D|
        {
            &&& #[trigger] tokenize_doc.ensures((document, pipeline), tokens)
            &&& evaluate.ensures((&query, &tokens), outcome)
        }
}

/// What a search predicate comes to: the verdict of a query that was read on the
/// tokens of the document, or the error of the first stage that failed.
pub open spec fn evaluates<
    P,
    A,
    B,
    Q,
    D,
    F: FnOnce(&str, ImplicitOp) -> Result<A, String>,
    G: FnOnce(A, &P) -> Result<B, String>,
    H: FnOnce(&B) -> Result<Q, String>,
    K: FnOnce(&str, &P) -> D,
    E: FnOnce(&Q, &D) -> Result<bool, String>,
>(
    document: &str,
    query_text: &str,
    pipeline: &P,
    engine: (F, G, H, K, E),
    outcome: Result<bool, String>,
) -> bool {
    ||| outcome matches Err(error) && refuses::<P, A, B, Q, F, G, H>(
        query_text,
        pipeline,
        engine.0,
        engine.1,
        engine.2,
        error,
    )
    ||| exists|query: Q|
        {
            &&& #[trigger] reads::<P, A, B, Q, F, G, H>(
                query_text,
                pipeline,
                engine.0,
                engine.1,
                engine.2,
                query,
            )
            &&& concludes::<P, Q, D, K, E>(
                document,
                pipeline,
                query,
                engine.3,
                engine.4,
                outcome,
            )
        }
}

/// The stages can be asked for anything.
pub open spec fn stages_ready<
    P,
    A,
    B,
    Q,
    D,
    F: FnOnce(&str, ImplicitOp) -> Result<A, String>,
    G: FnOnce(A, &P) -> Result<B, String>,
    H: FnOnce(&B) -> Result<Q, String>,
    K: FnOnce(&str, &P) -> D,
    E: FnOnce(&Q, &D) -> Result<bool, String>,
>(engine: (F, G, H, K, E)) -> bool {
    &&& forall|text: &str, op: ImplicitOp| engine.0.requires((text, op))
    &&& forall|parsed: A, pipeline: &P| engine.1.requires((parsed, pipeline))
    &&& forall|analyzed: &B| engine.2.requires((analyzed,))
    &&& forall|text: &str, pipeline: &P| engine.3.requires((text, pipeline))
    &&& forall|query: &Q, tokens: &D| engine.4.requires((query, tokens))
}

/// Evaluates a query on a text. The engine parses the query, in which words side
/// by side must all match, cuts its words, lowers it, cuts the text, and
/// evaluates, in this order; the first failure ends the work.
pub fn evaluate_text<
    P,
    A,
    B,
    Q,
    D,
    F: FnOnce(&str, ImplicitOp) -> Result<A, String>,
    G: FnOnce(A, &P) -> Result<B, String>,
    H: FnOnce(&B) -> Result<Q, String>,
    K: FnOnce(&str, &P) -> D,
    E: FnOnce(&Q, &D) -> Result<bool, String>,
>(document: &str, query_text: &str, pipeline: &P, engine: (F, G, H, K, E)) -> (outcome: Result<
    bool,
    String,
>)
    requires
        stages_ready::<P, A, B, Q, D, F, G, H, K, E>(engine),
    ensures
        evaluates::<P, A, B, Q, D, F, G, H, K, E>(document, query_text, pipeline, engine, outcome),
{
    let ghost whole = engine;
    let (parse, sub_tokenize, lower, tokenize_doc, evaluate) = engine;
    let parsed = match parse(query_text, ImplicitOp::And) {
        Ok(parsed) => parsed,
        Err(error) => return Err(error),
    };
    let analyzed = match sub_tokenize(parsed, pipeline) {
        Ok(analyzed) => analyzed,
        Err(error) => return Err(error),
    };
    let query = match lower(&analyzed) {
        Ok(query) => query,
        Err(error) => return Err(error),
    };
    assert(reads::<P, A, B, Q, F, G, H>(
        query_text,
        pipeline,
        whole.0,
        whole.1,
        whole.2,
        query,
    ));
    let tokens = tokenize_doc(document, pipeline);
    let outcome = evaluate(&query, &tokens);
    assert(concludes::<P, Q, D, K, E>(document, pipeline, query, whole.3, whole.4, outcome));
    outcome
}

/// What is reported of an outcome: a verdict as it is, an error as an invalid
/// query.
pub open spec fn reported(outcome: Result<bool, String>) -> Result<bool, MatchError> {
    match outcome {
        Ok(matched) => Ok(matched),
        Err(error) => Err(MatchError::InvalidQuery(error)),
    }
}

/// Reports a verdict as it is, and an error as an invalid query.
pub fn report(outcome: Result<bool, String>) -> (result: Result<bool, MatchError>)
    ensures
        result == reported(outcome),
{
    match outcome {
        Ok(matched) => Ok(matched),
        Err(error) => Err(MatchError::InvalidQuery(error)),
    }
}

/// What the operator `==>` reports of two texts.
pub open spec fn operator_result<
    P,
    A,
    B,
    Q,
    D,
    F: FnOnce(&str, ImplicitOp) -> Result<A, String>,
    G: FnOnce(A, &P) -> Result<B, String>,
    H: FnOnce(&B) -> Result<Q, String>,
    K: FnOnce(&str, &P) -> D,
    E: FnOnce(&Q, &D) -> Result<bool, String>,
>(
    document: &str,
    query: &str,
    pipeline: &P,
    engine: (F, G, H, K, E),
    result: Result<bool, MatchError>,
) -> bool {
    exists|outcome: Result<bool, String>|
        {
            &&& #[trigger] evaluates::<P, A, B, Q, D, F, G, H, K, E>(
                document,
                query,
                pipeline,
                engine,
                outcome,
            )
            &&& result == reported(outcome)
        }
}

/// The operator `==>` on two texts.
pub fn tin_text_cmpfunc<
    P,
    A,
    B,
    Q,
    D,
    F: FnOnce(&str, ImplicitOp) -> Result<A, String>,
    G: FnOnce(A, &P) -> Result<B, String>,
    H: FnOnce(&B) -> Result<Q, String>,
    K: FnOnce(&str, &P) -> D,
    E: FnOnce(&Q, &D) -> Result<bool, String>,
>(document: &str, query: &str, pipeline: &P, engine: (F, G, H, K, E)) -> (result: Result<
    bool,
    MatchError,
>)
    requires
        stages_ready::<P, A, B, Q, D, F, G, H, K, E>(engine),
    ensures
        operator_result::<P, A, B, Q, D, F, G, H, K, E>(document, query, pipeline, engine, result),
{
    let outcome = evaluate_text::<P, A, B, Q, D, F, G, H, K, E>(document, query, pipeline, engine);
    report(outcome)
}

/// What the predicate of an index comes to: the verdict of the query, read and
/// evaluated with the tokenizer of the index, or the error of the first of these.
pub open spec fn searches<
    P,
    Q,
    D,
    F: FnOnce(&str, &P) -> Result<Q, String>,
    K: FnOnce(&str, &P) -> D,
    E: FnOnce(&Q, &D) -> Result<bool, String>,
>(
    document: &str,
    query_text: &str,
    pipeline: P,
    engine: (F, K, E),
    outcome: Result<bool, String>,
) -> bool {
    ||| outcome matches Err(error) && engine.0.ensures((query_text, &pipeline), Err(error))
    ||| exists|query: Q|
        {
            &&& #[trigger] engine.0.ensures((query_text, &pipeline), Ok(query))
            &&& concludes::<P, Q, D, K, E>(
                document,
                &pipeline,
                query,
                engine.1,
                engine.2,
                outcome,
            )
        }
}

/// What the search predicate bound to an index reports of two texts: that the
/// index is of another kind exactly where its access method is another, else what
/// the search with the tokenizer of the index comes to.
pub open spec fn predicate_result<
    P,
    Q,
    D,
    L: FnOnce() -> P,
    F: FnOnce(&str, &P) -> Result<Q, String>,
    K: FnOnce(&str, &P) -> D,
    E: FnOnce(&Q, &D) -> Result<bool, String>,
>(
    document: &str,
    query: &str,
    index_am: u32,
    tin_am: u32,
    load: L,
    engine: (F, K, E),
    result: Result<bool, MatchError>,
) -> bool {
    if index_am != tin_am {
        result == Err::<bool, MatchError>(MatchError::NotTinIndex)
    } else {
        exists|pipeline: P, outcome: Result<bool, String>|
            {
                &&& load.ensures((), pipeline)
                &&& #[trigger] searches::<P, Q, D, F, K, E>(
                    document,
                    query,
                    pipeline,
                    engine,
                    outcome,
                )
                &&& result == reported(outcome)
            }
    }
}

/// The search predicate bound to an index, with the tokenizer of the index.
/// `index_am` is the access method of the index and `tin_am` that of `tin`
/// indexes; the tokenizer is loaded only where they are the same.
pub fn text_matches_index<
    P,
    Q,
    D,
    L: FnOnce() -> P,
    F: FnOnce(&str, &P) -> Result<Q, String>,
    K: FnOnce(&str, &P) -> D,
    E: FnOnce(&Q, &D) -> Result<bool, String>,
>(
    document: &str,
    query: &str,
    index_am: u32,
    tin_am: u32,
    load: L,
    engine: (F, K, E),
) -> (result: Result<bool, MatchError>)
    requires
        load.requires(()),
        forall|text: &str, pipeline: &P| engine.0.requires((text, pipeline)),
        forall|text: &str, pipeline: &P| engine.1.requires((text, pipeline)),
        forall|parsed: &Q, tokens: &D| engine.2.requires((parsed, tokens)),
    ensures
        predicate_result::<P, Q, D, L, F, K, E>(
            document,
            query,
            index_am,
            tin_am,
            load,
            engine,
            result,
        ),
{
    if index_am != tin_am {
        return Err(MatchError::NotTinIndex);
    }
    let ghost whole = engine;
    let (parse, tokenize_doc, evaluate) = engine;
    let pipeline = load();
    let outcome = match parse(query, &pipeline) {
        Ok(parsed) => {
            let tokens = tokenize_doc(document, &pipeline);
            let outcome = evaluate(&parsed, &tokens);
            assert(concludes::<P, Q, D, K, E>(
                document,
                &pipeline,
                parsed,
                whole.1,
                whole.2,
                outcome,
            ));
            outcome
        },
        Err(error) => Err(error),
    };
    assert(searches::<P, Q, D, F, K, E>(document, query, pipeline, whole, outcome));
    report(outcome)
}

/// An expression of the query, as far as a search predicate is recognized by it.
/// The numbers of its arguments are not compared, only handed back.
#[derive(Debug)]
pub enum SearchNode {
    /// No expression.
    Absent,
    /// An operator: its name, where the catalog has one, and its operands.
    Operator { name: Option<Vec<u8>>, args: Vec<NodeId> },
    /// A function call: its number, the number of the bound predicate, and its
    /// arguments.
    Function { funcid: u32, index_match: u32, args: Vec<NodeId> },
    /// Any other expression.
    Other,
}

impl SearchNode {
    /// The operands of `==>`, or the arguments of the bound predicate.
    pub open spec fn operands(self) -> Option<Seq<NodeId>> {
        match self {
            SearchNode::Operator { name, args } => if name matches Some(bytes) && bytes@
                == "==>".spec_bytes() {
                Some(args@)
            } else {
                None
            },
            SearchNode::Function { funcid, index_match, args } => if funcid == index_match {
                Some(args@)
            } else {
                None
            },
            _ => None,
        }
    }

    /// The search predicate that the expression is.
    pub open spec fn search(self) -> Option<SearchMatch> {
        match self.operands() {
            Some(args) => if args.len() >= 2 {
                Some(SearchMatch { document: args[0], query: args[1] })
            } else {
                None
            },
            None => None,
        }
    }
}

/// Reads the document and the query of a search predicate, whether it is the
/// operator or the bound predicate in its place.
pub fn search_arguments(node: &SearchNode) -> (found: Option<SearchMatch>)
    ensures
        found == node.search(),
{
    let args = match node {
        SearchNode::Operator { name, args } => match name {
            Some(bytes) => {
                if !is_named(bytes, "==>") {
                    return None;
                }
                args
            },
            None => return None,
        },
        SearchNode::Function { funcid, index_match, args } => {
            if *funcid != *index_match {
                return None;
            }
            args
        },
        _ => return None,
    };
    if args.len() < 2 {
        return None;
    }
    Some(SearchMatch { document: args[0], query: args[1] })
}

/// An entry of the range table.
#[derive(Clone, Copy, Debug)]
pub struct RangeEntry {
    pub is_relation: bool,
    pub relid: u32,
}

/// The operator call that the planner offers to simplify.
#[derive(Debug)]
pub struct SimplifyCall {
    pub args: Vec<NodeId>,
    /// The relations that the first operand refers to, each once.
    pub relations: Vec<i32>,
    pub input_collation: u32,
}

/// The index condition that the planner offers to derive.
#[derive(Debug)]
pub struct IndexConditionRequest {
    pub indexarg: i32,
    pub indexcol: i32,
    /// The call that the condition comes from, where it is one.
    pub call: Option<IndexMatchCall>,
    pub index_oid: u32,
}

/// A call of the bound predicate.
#[derive(Debug)]
pub struct IndexMatchCall {
    pub args: Vec<NodeId>,
    /// The third argument, which names the index.
    pub index: IndexArgument,
    pub input_collation: u32,
}

/// The argument that names an index.
#[derive(Clone, Copy, PartialEq, Eq, Structural, Debug)]
pub enum IndexArgument {
    /// A constant, with the value that the server holds for it.
    Const { is_null: bool, value: u64 },
    /// Any other expression.
    Other,
}

/// What the planner asks of a support function.
#[derive(Debug)]
pub enum SupportRequest {
    /// No request.
    Absent,
    /// To simplify a call: the range table of the query and the call, as far as
    /// they are given.
    Simplify { range_table: Option<Vec<RangeEntry>>, call: Option<SimplifyCall> },
    /// To derive an index condition.
    IndexCondition(IndexConditionRequest),
    /// Anything else.
    Other,
}

/// A call to simplify whose document belongs to exactly one table of the query.
pub struct Bindable {
    pub document: NodeId,
    pub query: NodeId,
    pub relid: u32,
    pub varno: i32,
    pub input_collation: u32,
}

impl SupportRequest {
    /// The call to simplify and the table its document belongs to.
    pub open spec fn bindable(self) -> Option<Bindable> {
        match self {
            SupportRequest::Simplify { range_table: Some(table), call: Some(call) } => {
                let varno = call.relations@[0];
                if call.relations@.len() == 1 && 0 < varno <= table@.len() && table@[varno
                    - 1].is_relation {
                    Some(
                        Bindable {
                            document: call.args@[0],
                            query: call.args@[1],
                            relid: table@[varno - 1].relid,
                            varno,
                            input_collation: call.input_collation,
                        },
                    )
                } else {
                    None
                }
            },
            _ => None,
        }
    }

    /// A call to simplify has the two operands of the operator.
    pub open spec fn has_operands(self) -> bool {
        self matches SupportRequest::Simplify { range_table: Some(table), call: Some(call) }
            ==> call.args@.len() >= 2
    }
}

/// The bound predicate in place of the operator.
pub open spec fn bound_match(call: Bindable, index: u32) -> FunctionCallView {
    FunctionCallView {
        function: index_match(),
        result_type: BOOLOID,
        args: seq![
            ArgumentView::Node(call.document),
            ArgumentView::Node(call.query),
            ArgumentView::Oid(index),
        ],
        collation: INVALID_OID,
        input_collation: call.input_collation,
    }
}

/// The operator was bound to the index that was found for its table and document.
pub open spec fn bound_to_found<F: FnOnce(u32, i32, NodeId) -> Option<u32>>(
    call: Bindable,
    find_index: F,
    bound: FunctionCall,
) -> bool {
    exists|index: u32|
        {
            &&& find_index.ensures((call.relid, call.varno, call.document), Some(index))
            &&& bound@ == #[trigger] bound_match(call, index)
        }
}

/// What the request to simplify comes to: a call that can be bound is replaced where
/// an index is found for it, and nothing else is.
pub open spec fn binds<F: FnOnce(u32, i32, NodeId) -> Option<u32>>(
    request: SupportRequest,
    find_index: F,
    replacement: Option<FunctionCall>,
) -> bool {
    match (request.bindable(), replacement) {
        (Some(call), Some(bound)) => bound_to_found(call, find_index, bound),
        (Some(call), None) => find_index.ensures((call.relid, call.varno, call.document), None),
        (None, None) => true,
        (None, Some(_)) => false,
    }
}

/// Binds the operator to the index that answers it. `find_index` looks for an
/// index on a table, given the table, its number in the query and the document.
/// Nothing means that the request is not handled.
pub fn match_support<F: FnOnce(u32, i32, NodeId) -> Option<u32>>(
    request: &SupportRequest,
    find_index: F,
) -> (replacement: Option<FunctionCall>)
    requires
        request.has_operands(),
        forall|relid: u32, varno: i32, document: NodeId|
            find_index.requires((relid, varno, document)),
    ensures
        binds(*request, find_index, replacement),
{
    let (table, call) = match request {
        SupportRequest::Simplify { range_table: Some(table), call: Some(call) } => (table, call),
        _ => return None,
    };
    if call.relations.len() != 1 {
        return None;
    }
    let varno: i32 = call.relations[0];
    if varno <= 0 || varno as usize > table.len() {
        return None;
    }
    let entry = table[varno as usize - 1];
    if !entry.is_relation {
        return None;
    }
    let index = match find_index(entry.relid, varno, call.args[0]) {
        Some(index) => index,
        None => return None,
    };
    let mut args: Vec<Argument> = Vec::new();
    args.push(Argument::Node(call.args[0]));
    args.push(Argument::Node(call.args[1]));
    args.push(Argument::Oid(index));
    proof {
        let bindable = request.bindable()->0;
        assert(argument_views(args@) =~= bound_match(bindable, index).args);
    }
    Some(
        FunctionCall {
            function: lookup_index_match(),
            result_type: BOOLOID,
            args,
            collation: INVALID_OID,
            input_collation: call.input_collation,
        },
    )
}

/// The strategy of the search operator in its operator family.
pub const SEARCH_STRATEGY: i16 = 1;

/// An index condition: an operator on the document and the query. A lossy
/// condition is checked again on every row.
#[derive(Clone, Copy, PartialEq, Eq, Structural, Debug)]
pub struct IndexClause {
    pub operator: u32,
    pub result_type: u32,
    pub returns_set: bool,
    pub left: NodeId,
    pub right: NodeId,
    pub collation: u32,
    pub input_collation: u32,
    pub lossy: bool,
}

impl IndexMatchCall {
    /// The call is bound to this index.
    pub open spec fn is_bound_to(self, index_oid: u32) -> bool {
        self.index matches IndexArgument::Const { is_null, value } && !is_null && value as u32
            == index_oid
    }
}

impl SupportRequest {
    /// The call from which an index condition can be derived: it restricts the
    /// first column of the index that it is bound to.
    pub open spec fn derivable(self) -> Option<IndexMatchCall> {
        match self {
            SupportRequest::IndexCondition(request) => match request.call {
                Some(call) => if request.indexarg == 0 && request.indexcol == 0
                    && call.is_bound_to(request.index_oid) {
                    Some(call)
                } else {
                    None
                },
                None => None,
            },
            _ => None,
        }
    }

    /// A call on the first column has the three arguments of the bound predicate.
    pub open spec fn has_arguments(self) -> bool {
        match self {
            SupportRequest::IndexCondition(request) => match request.call {
                Some(call) => request.indexarg == 0 && request.indexcol == 0 ==> call.args@.len()
                    >= 3,
                None => true,
            },
            _ => true,
        }
    }
}

/// The index condition of a call under an operator.
pub open spec fn index_clause(call: IndexMatchCall, operator: u32) -> IndexClause {
    IndexClause {
        operator,
        result_type: BOOLOID,
        returns_set: false,
        left: call.args@[0],
        right: call.args@[1],
        collation: INVALID_OID,
        input_collation: call.input_collation,
        lossy: true,
    }
}

/// What the request for an index condition comes to: it is derived from a call on
/// the index that it is bound to, where the query is constant and the operator
/// family has a search operator, and not otherwise.
pub open spec fn derives<F: FnOnce(NodeId) -> bool, G: FnOnce(u32, u32, i16) -> u32>(
    request: SupportRequest,
    is_constant: F,
    find_operator: G,
    clause: Option<IndexClause>,
) -> bool {
    match (request.derivable(), clause) {
        (Some(call), Some(derived)) => {
            &&& is_constant.ensures((call.args@[1],), true)
            &&& derived.operator != INVALID_OID
            &&& find_operator.ensures((TEXTOID, TEXTOID, SEARCH_STRATEGY), derived.operator)
            &&& derived == index_clause(call, derived.operator)
        },
        (Some(call), None) => {
            ||| is_constant.ensures((call.args@[1],), false)
            ||| is_constant.ensures((call.args@[1],), true) && find_operator.ensures(
                (TEXTOID, TEXTOID, SEARCH_STRATEGY),
                INVALID_OID,
            )
        },
        (None, None) => true,
        (None, Some(_)) => false,
    }
}

/// Derives the index condition of the bound predicate. `is_constant` tells
/// whether an expression is constant during a scan of the index, `find_operator`
/// looks up the operator of two types and a strategy in the operator family of
/// the index. Nothing means that the request is not handled.
pub fn index_match_support<F: FnOnce(NodeId) -> bool, G: FnOnce(u32, u32, i16) -> u32>(
    request: &SupportRequest,
    is_constant: F,
    find_operator: G,
) -> (clause: Option<IndexClause>)
    requires
        request.has_arguments(),
        forall|node: NodeId| is_constant.requires((node,)),
        forall|left: u32, right: u32, strategy: i16|
            find_operator.requires((left, right, strategy)),
    ensures
        derives(*request, is_constant, find_operator, clause),
{
    let (call, index_oid) = match request {
        SupportRequest::IndexCondition(request) => {
            if request.indexarg != 0 || request.indexcol != 0 {
                return None;
            }
            match &request.call {
                Some(call) => (call, request.index_oid),
                None => return None,
            }
        },
        _ => return None,
    };
    match call.index {
        IndexArgument::Const { is_null, value } => {
            if is_null || value as u32 != index_oid {
                return None;
            }
        },
        IndexArgument::Other => return None,
    }
    if !is_constant(call.args[1]) {
        return None;
    }
    let operator = find_operator(TEXTOID, TEXTOID, SEARCH_STRATEGY);
    if operator == INVALID_OID {
        return None;
    }
    Some(
        IndexClause {
            operator,
            result_type: BOOLOID,
            returns_set: false,
            left: call.args[0],
            right: call.args[1],
            collation: INVALID_OID,
            input_collation: call.input_collation,
            lossy: true,
        },
    )
}

/// Each stage gives the same result whenever it is asked the same.
pub open spec fn stages_repeat<
    P,
    A,
    B,
    Q,
    D,
    F: FnOnce(&str, ImplicitOp) -> Result<A, String>,
    G: FnOnce(A, &P) -> Result<B, String>,
    H: FnOnce(&B) -> Result<Q, String>,
    K: FnOnce(&str, &P) -> D,
    E: FnOnce(&Q, &D) -> Result<bool, String>,
>(engine: (F, G, H, K, E)) -> bool {
    &&& forall|text: &str, op: ImplicitOp, x: Result<A, String>, y: Result<A, String>| #[trigger]
        engine.0.ensures((text, op), x) && #[trigger] engine.0.ensures((text, op), y) ==> x == y
    &&& forall|parsed: A, pipeline: &P, x: Result<B, String>, y: Result<B, String>| #[trigger]
        engine.1.ensures((parsed, pipeline), x) && #[trigger] engine.1.ensures(
            (parsed, pipeline),
            y,
        ) ==> x == y
    &&& forall|analyzed: &B, x: Result<Q, String>, y: Result<Q, String>| #[trigger]
        engine.2.ensures((analyzed,), x) && #[trigger] engine.2.ensures((analyzed,), y) ==> x == y
    &&& forall|text: &str, pipeline: &P, x: D, y: D| #[trigger]
        engine.3.ensures((text, pipeline), x) && #[trigger] engine.3.ensures((text, pipeline), y)
            ==> x == y
    &&& forall|query: &Q, tokens: &D, x: Result<bool, String>, y: Result<bool, String>| #[trigger]
        engine.4.ensures((query, tokens), x) && #[trigger] engine.4.ensures((query, tokens), y)
            ==> x == y
}

/// The operator is immutable: with stages that repeat themselves, a document and
/// a query have one outcome.
pub proof fn law_operator_is_immutable<
    P,
    A,
    B,
    Q,
    D,
    F: FnOnce(&str, ImplicitOp) -> Result<A, String>,
    G: FnOnce(A, &P) -> Result<B, String>,
    H: FnOnce(&B) -> Result<Q, String>,
    K: FnOnce(&str, &P) -> D,
    E: FnOnce(&Q, &D) -> Result<bool, String>,
>(
    document: &str,
    query_text: &str,
    pipeline: &P,
    engine: (F, G, H, K, E),
    first: Result<bool, String>,
    second: Result<bool, String>,
)
    requires
        stages_repeat::<P, A, B, Q, D, F, G, H, K, E>(engine),
        evaluates::<P, A, B, Q, D, F, G, H, K, E>(document, query_text, pipeline, engine, first),
        evaluates::<P, A, B, Q, D, F, G, H, K, E>(document, query_text, pipeline, engine, second),
    ensures
        first == second,
{
}

/// The operator reports what evaluating its query comes to: the verdict as it is,
/// and an error under the heading of an invalid query, never as a verdict. With
/// stages that repeat themselves, a document and a query have one report.
pub proof fn law_operator_reports_the_evaluation<
    P,
    A,
    B,
    Q,
    D,
    F: FnOnce(&str, ImplicitOp) -> Result<A, String>,
    G: FnOnce(A, &P) -> Result<B, String>,
    H: FnOnce(&B) -> Result<Q, String>,
    K: FnOnce(&str, &P) -> D,
    E: FnOnce(&Q, &D) -> Result<bool, String>,
>(
    document: &str,
    query: &str,
    pipeline: &P,
    engine: (F, G, H, K, E),
    outcome: Result<bool, String>,
    result: Result<bool, MatchError>,
)
    requires
        stages_repeat::<P, A, B, Q, D, F, G, H, K, E>(engine),
        evaluates::<P, A, B, Q, D, F, G, H, K, E>(document, query, pipeline, engine, outcome),
        operator_result::<P, A, B, Q, D, F, G, H, K, E>(document, query, pipeline, engine, result),
    ensures
        match outcome {
            Ok(matched) => result == Ok::<bool, MatchError>(matched),
            Err(error) => result matches Err(reason) && reason.text() == "invalid ==> query: "@
                + error@,
        },
{
    let own = choose|own: Result<bool, String>|
        {
            &&& #[trigger] evaluates::<P, A, B, Q, D, F, G, H, K, E>(
                document,
                query,
                pipeline,
                engine,
                own,
            )
            &&& result == reported(own)
        };
    law_operator_is_immutable::<P, A, B, Q, D, F, G, H, K, E>(
        document,
        query,
        pipeline,
        engine,
        outcome,
        own,
    );
}

/// Reading a query in one step gives what the three stages give with this
/// tokenizer: the same queries and the same errors.
pub open spec fn reads_alike<
    P,
    A,
    B,
    Q,
    F: FnOnce(&str, ImplicitOp) -> Result<A, String>,
    G: FnOnce(A, &P) -> Result<B, String>,
    H: FnOnce(&B) -> Result<Q, String>,
    R: FnOnce(&str, &P) -> Result<Q, String>,
>(pipeline: &P, parse: F, sub_tokenize: G, lower: H, read: R) -> bool {
    &&& forall|text: &str, query: Q| #[trigger]
        read.ensures((text, pipeline), Ok(query)) <==> reads::<P, A, B, Q, F, G, H>(
            text,
            pipeline,
            parse,
            sub_tokenize,
            lower,
            query,
        )
    &&& forall|text: &str, error: String| #[trigger]
        read.ensures((text, pipeline), Err(error)) <==> refuses::<P, A, B, Q, F, G, H>(
            text,
            pipeline,
            parse,
            sub_tokenize,
            lower,
            error,
        )
}

/// Where a query is read in one step as it is in three, a search with a tokenizer
/// comes to what the operator comes to with it.
pub proof fn law_searches_evaluate<
    P,
    A,
    B,
    Q,
    D,
    F: FnOnce(&str, ImplicitOp) -> Result<A, String>,
    G: FnOnce(A, &P) -> Result<B, String>,
    H: FnOnce(&B) -> Result<Q, String>,
    K: FnOnce(&str, &P) -> D,
    E: FnOnce(&Q, &D) -> Result<bool, String>,
    R: FnOnce(&str, &P) -> Result<Q, String>,
>(
    document: &str,
    query: &str,
    pipeline: P,
    engine: (F, G, H, K, E),
    read: R,
    outcome: Result<bool, String>,
)
    requires
        reads_alike::<P, A, B, Q, F, G, H, R>(&pipeline, engine.0, engine.1, engine.2, read),
    ensures
        searches::<P, Q, D, R, K, E>(document, query, pipeline, (read, engine.3, engine.4), outcome)
            <==> evaluates::<P, A, B, Q, D, F, G, H, K, E>(
            document,
            query,
            &pipeline,
            engine,
            outcome,
        ),
{
    let bound = (read, engine.3, engine.4);
    if searches::<P, Q, D, R, K, E>(document, query, pipeline, bound, outcome) {
        if !(outcome matches Err(error) && read.ensures((query, &pipeline), Err(error))) {
            let parsed = choose|parsed: Q|
                {
                    &&& #[trigger] bound.0.ensures((query, &pipeline), Ok(parsed))
                    &&& concludes::<P, Q, D, K, E>(
                        document,
                        &pipeline,
                        parsed,
                        bound.1,
                        bound.2,
                        outcome,
                    )
                };
            assert(reads::<P, A, B, Q, F, G, H>(
                query,
                &pipeline,
                engine.0,
                engine.1,
                engine.2,
                parsed,
            ));
        }
    }
    if evaluates::<P, A, B, Q, D, F, G, H, K, E>(document, query, &pipeline, engine, outcome) {
        if !(outcome matches Err(error) && refuses::<P, A, B, Q, F, G, H>(
            query,
            &pipeline,
            engine.0,
            engine.1,
            engine.2,
            error,
        )) {
            let parsed = choose|parsed: Q|
                {
                    &&& #[trigger] reads::<P, A, B, Q, F, G, H>(
                        query,
                        &pipeline,
                        engine.0,
                        engine.1,
                        engine.2,
                        parsed,
                    )
                    &&& concludes::<P, Q, D, K, E>(
                        document,
                        &pipeline,
                        parsed,
                        engine.3,
                        engine.4,
                        outcome,
                    )
                };
            assert(bound.0.ensures((query, &pipeline), Ok(parsed)));
        }
    }
}

/// On an index with the tokenizer of the operator, the bound predicate reports
/// what the operator reports: the same verdict, or the same error. The stages
/// repeat themselves and a query is read in one step as it is in three.
pub proof fn law_bound_predicate_decides_as_operator<
    P,
    A,
    B,
    Q,
    D,
    F: FnOnce(&str, ImplicitOp) -> Result<A, String>,
    G: FnOnce(A, &P) -> Result<B, String>,
    H: FnOnce(&B) -> Result<Q, String>,
    K: FnOnce(&str, &P) -> D,
    E: FnOnce(&Q, &D) -> Result<bool, String>,
    L: FnOnce() -> P,
    R: FnOnce(&str, &P) -> Result<Q, String>,
>(
    document: &str,
    query: &str,
    pipeline: P,
    engine: (F, G, H, K, E),
    tin_am: u32,
    load: L,
    read: R,
    operator: Result<bool, MatchError>,
    predicate: Result<bool, MatchError>,
)
    requires
        stages_repeat::<P, A, B, Q, D, F, G, H, K, E>(engine),
        reads_alike::<P, A, B, Q, F, G, H, R>(&pipeline, engine.0, engine.1, engine.2, read),
        forall|own: P| #[trigger] load.ensures((), own) ==> own == pipeline,
        operator_result::<P, A, B, Q, D, F, G, H, K, E>(
            document,
            query,
            &pipeline,
            engine,
            operator,
        ),
        predicate_result::<P, Q, D, L, R, K, E>(
            document,
            query,
            tin_am,
            tin_am,
            load,
            (read, engine.3, engine.4),
            predicate,
        ),
    ensures
        predicate == operator,
{
    let bound = (read, engine.3, engine.4);
    let first = choose|outcome: Result<bool, String>|
        {
            &&& #[trigger] evaluates::<P, A, B, Q, D, F, G, H, K, E>(
                document,
                query,
                &pipeline,
                engine,
                outcome,
            )
            &&& operator == reported(outcome)
        };
    let (own, second) = choose|own: P, outcome: Result<bool, String>|
        {
            &&& load.ensures((), own)
            &&& #[trigger] searches::<P, Q, D, R, K, E>(document, query, own, bound, outcome)
            &&& predicate == reported(outcome)
        };
    law_searches_evaluate::<P, A, B, Q, D, F, G, H, K, E, R>(
        document,
        query,
        pipeline,
        engine,
        read,
        second,
    );
    law_operator_is_immutable::<P, A, B, Q, D, F, G, H, K, E>(
        document,
        query,
        &pipeline,
        engine,
        first,
        second,
    );
}

/// A verdict comes from all five stages, each of which was given what the stage
/// before it gave: the query is parsed with words side by side joined by `AND`, cut
/// and lowered, the document is cut by the same tokenizer, and the query evaluated
/// on its tokens. An error is that of the first stage that failed.
pub proof fn law_evaluation_follows_the_stages<
    P,
    A,
    B,
    Q,
    D,
    F: FnOnce(&str, ImplicitOp) -> Result<A, String>,
    G: FnOnce(A, &P) -> Result<B, String>,
    H: FnOnce(&B) -> Result<Q, String>,
    K: FnOnce(&str, &P) -> D,
    E: FnOnce(&Q, &D) -> Result<bool, String>,
>(
    document: &str,
    query_text: &str,
    pipeline: &P,
    engine: (F, G, H, K, E),
    outcome: Result<bool, String>,
)
    ensures
        evaluates::<P, A, B, Q, D, F, G, H, K, E>(document, query_text, pipeline, engine, outcome)
            <==> {
            ||| outcome is Err && engine.0.ensures(
                (query_text, ImplicitOp::And),
                Err(outcome->Err_0),
            )
            ||| outcome is Err && exists|parsed: A|
                {
                    &&& #[trigger] engine.0.ensures((query_text, ImplicitOp::And), Ok(parsed))
                    &&& engine.1.ensures((parsed, pipeline), Err(outcome->Err_0))
                }
            ||| outcome is Err && exists|parsed: A, analyzed: B|
                {
                    &&& #[trigger] engine.0.ensures((query_text, ImplicitOp::And), Ok(parsed))
                    &&& #[trigger] engine.1.ensures((parsed, pipeline), Ok(analyzed))
                    &&& engine.2.ensures((&analyzed,), Err(outcome->Err_0))
                }
            ||| exists|parsed: A, analyzed: B, query: Q, tokens: D|
                {
                    &&& #[trigger] engine.0.ensures((query_text, ImplicitOp::And), Ok(parsed))
                    &&& #[trigger] engine.1.ensures((parsed, pipeline), Ok(analyzed))
                    &&& #[trigger] engine.2.ensures((&analyzed,), Ok(query))
                    &&& #[trigger] engine.3.ensures((document, pipeline), tokens)
                    &&& engine.4.ensures((&query, &tokens), outcome)
                }
        },
{
    if evaluates::<P, A, B, Q, D, F, G, H, K, E>(document, query_text, pipeline, engine, outcome) {
        if !(outcome matches Err(error) && refuses::<P, A, B, Q, F, G, H>(
            query_text,
            pipeline,
            engine.0,
            engine.1,
            engine.2,
            error,
        )) {
            let query = choose|query: Q|
                {
                    &&& #[trigger] reads::<P, A, B, Q, F, G, H>(
                        query_text,
                        pipeline,
                        engine.0,
                        engine.1,
                        engine.2,
                        query,
                    )
                    &&& concludes::<P, Q, D, K, E>(
                        document,
                        pipeline,
                        query,
                        engine.3,
                        engine.4,
                        outcome,
                    )
                };
            let (parsed, analyzed) = choose|parsed: A, analyzed: B|
                {
                    &&& #[trigger] engine.0.ensures((query_text, ImplicitOp::And), Ok(parsed))
                    &&& #[trigger] engine.1.ensures((parsed, pipeline), Ok(analyzed))
                    &&& engine.2.ensures((&analyzed,), Ok(query))
                };
            let tokens = choose|tokens: D|
                {
                    &&& #[trigger] engine.3.ensures((document, pipeline), tokens)
                    &&& engine.4.ensures((&query, &tokens), outcome)
                };
            assert(engine.2.ensures((&analyzed,), Ok(query)));
        }
    }
    if exists|parsed: A, analyzed: B, query: Q, tokens: D|
        {
            &&& #[trigger] engine.0.ensures((query_text, ImplicitOp::And), Ok(parsed))
            &&& #[trigger] engine.1.ensures((parsed, pipeline), Ok(analyzed))
            &&& #[trigger] engine.2.ensures((&analyzed,), Ok(query))
            &&& #[trigger] engine.3.ensures((document, pipeline), tokens)
            &&& engine.4.ensures((&query, &tokens), outcome)
        } {
        let (parsed, analyzed, query, tokens) = choose|
            parsed: A,
            analyzed: B,
            query: Q,
            tokens: D,
        |
            {
                &&& #[trigger] engine.0.ensures((query_text, ImplicitOp::And), Ok(parsed))
                &&& #[trigger] engine.1.ensures((parsed, pipeline), Ok(analyzed))
                &&& #[trigger] engine.2.ensures((&analyzed,), Ok(query))
                &&& #[trigger] engine.3.ensures((document, pipeline), tokens)
                &&& engine.4.ensures((&query, &tokens), outcome)
            };
        assert(reads::<P, A, B, Q, F, G, H>(
            query_text,
            pipeline,
            engine.0,
            engine.1,
            engine.2,
            query,
        ));
        assert(concludes::<P, Q, D, K, E>(
            document,
            pipeline,
            query,
            engine.3,
            engine.4,
            outcome,
        ));
    }
}

/// The operator reports a verdict as it is, and an error as an invalid query; and
/// it reports nothing that its stages do not come to.
pub proof fn law_operator_reports_an_outcome<
    P,
    A,
    B,
    Q,
    D,
    F: FnOnce(&str, ImplicitOp) -> Result<A, String>,
    G: FnOnce(A, &P) -> Result<B, String>,
    H: FnOnce(&B) -> Result<Q, String>,
    K: FnOnce(&str, &P) -> D,
    E: FnOnce(&Q, &D) -> Result<bool, String>,
>(
    document: &str,
    query: &str,
    pipeline: &P,
    engine: (F, G, H, K, E),
    result: Result<bool, MatchError>,
)
    requires
        operator_result::<P, A, B, Q, D, F, G, H, K, E>(document, query, pipeline, engine, result),
    ensures
        match result {
            Ok(matched) => evaluates::<P, A, B, Q, D, F, G, H, K, E>(
                document,
                query,
                pipeline,
                engine,
                Ok(matched),
            ),
            Err(MatchError::InvalidQuery(error)) => evaluates::<P, A, B, Q, D, F, G, H, K, E>(
                document,
                query,
                pipeline,
                engine,
                Err(error),
            ),
            Err(MatchError::NotTinIndex) => false,
        },
{
}

/// The bound predicate refuses an index exactly when it is of another kind. On an
/// index of its kind it loads one tokenizer and uses it on both sides: a verdict
/// comes from the query as that tokenizer reads it, evaluated on the document as it
/// cuts it, and an invalid query from the reading or the evaluation.
pub proof fn law_predicate_uses_one_tokenizer<
    P,
    Q,
    D,
    L: FnOnce() -> P,
    F: FnOnce(&str, &P) -> Result<Q, String>,
    K: FnOnce(&str, &P) -> D,
    E: FnOnce(&Q, &D) -> Result<bool, String>,
>(
    document: &str,
    query: &str,
    index_am: u32,
    tin_am: u32,
    load: L,
    engine: (F, K, E),
    result: Result<bool, MatchError>,
)
    requires
        predicate_result::<P, Q, D, L, F, K, E>(
            document,
            query,
            index_am,
            tin_am,
            load,
            engine,
            result,
        ),
    ensures
        index_am != tin_am <==> result == Err::<bool, MatchError>(MatchError::NotTinIndex),
        result is Ok ==> exists|pipeline: P, parsed: Q, tokens: D|
            {
                &&& load.ensures((), pipeline)
                &&& #[trigger] engine.0.ensures((query, &pipeline), Ok(parsed))
                &&& #[trigger] engine.1.ensures((document, &pipeline), tokens)
                &&& engine.2.ensures((&parsed, &tokens), Ok(result->Ok_0))
            },
        result is Err && result->Err_0 is InvalidQuery ==> {
            ||| exists|pipeline: P|
                {
                    &&& load.ensures((), pipeline)
                    &&& #[trigger] engine.0.ensures(
                        (query, &pipeline),
                        Err(result->Err_0->InvalidQuery_0),
                    )
                }
            ||| exists|pipeline: P, parsed: Q, tokens: D|
                {
                    &&& load.ensures((), pipeline)
                    &&& #[trigger] engine.0.ensures((query, &pipeline), Ok(parsed))
                    &&& #[trigger] engine.1.ensures((document, &pipeline), tokens)
                    &&& engine.2.ensures(
                        (&parsed, &tokens),
                        Err(result->Err_0->InvalidQuery_0),
                    )
                }
        },
{
    if index_am == tin_am {
        let (pipeline, outcome) = choose|pipeline: P, outcome: Result<bool, String>|
            {
                &&& load.ensures((), pipeline)
                &&& #[trigger] searches::<P, Q, D, F, K, E>(
                    document,
                    query,
                    pipeline,
                    engine,
                    outcome,
                )
                &&& result == reported(outcome)
            };
        if let Err(error) = outcome {
            assert(result->Err_0->InvalidQuery_0 == error);
            if engine.0.ensures((query, &pipeline), Err(error)) {
                assert(engine.0.ensures(
                    (query, &pipeline),
                    Err(result->Err_0->InvalidQuery_0),
                ));
            }
        }
        if !(outcome matches Err(error) && engine.0.ensures((query, &pipeline), Err(error))) {
            let parsed = choose|parsed: Q|
                {
                    &&& #[trigger] engine.0.ensures((query, &pipeline), Ok(parsed))
                    &&& concludes::<P, Q, D, K, E>(
                        document,
                        &pipeline,
                        parsed,
                        engine.1,
                        engine.2,
                        outcome,
                    )
                };
            let tokens = choose|tokens: D|
                {
                    &&& #[trigger] engine.1.ensures((document, &pipeline), tokens)
                    &&& engine.2.ensures((&parsed, &tokens), outcome)
                };
            assert(engine.0.ensures((query, &pipeline), Ok(parsed)));
            assert(engine.1.ensures((document, &pipeline), tokens));
            if outcome is Err {
                assert(engine.2.ensures(
                    (&parsed, &tokens),
                    Err(result->Err_0->InvalidQuery_0),
                ));
            }
        }
    }
}

/// The texts under which the errors of a search are reported.
pub proof fn law_match_errors_are_told_apart(message: String)
    ensures
        MatchError::NotTinIndex.text() == "text_matches_index requires a tin index"@,
        MatchError::InvalidQuery(message).text() == "invalid ==> query: "@ + message@,
{
}

/// An expression is a search exactly when it is the operator by its name or the
/// bound predicate by its number, with at least two arguments; the first of these is
/// the document and the second the query.
pub proof fn law_searches_are_read_from_their_arguments(
    name: Option<Vec<u8>>,
    funcid: u32,
    index_match: u32,
    args: Vec<NodeId>,
)
    ensures
        SearchNode::Absent.search() is None,
        SearchNode::Other.search() is None,
        (SearchNode::Operator { name, args }).search() is Some <==> name is Some && name->0@
            == "==>".spec_bytes() && args@.len() >= 2,
        (SearchNode::Function { funcid, index_match, args }).search() is Some <==> funcid
            == index_match && args@.len() >= 2,
        (SearchNode::Operator { name, args }).search() matches Some(found) ==> found.document
            == args@[0] && found.query == args@[1],
        (SearchNode::Function { funcid, index_match, args }).search() matches Some(found)
            ==> found.document == args@[0] && found.query == args@[1],
{
}

/// A call is bound exactly when its document refers to one entry of the range table
/// and that entry is a table. It is then bound to an index of that very table, for
/// the document and the query of the call, whatever other entries there are.
pub proof fn law_calls_are_bound_to_their_table(
    range_table: Vec<RangeEntry>,
    call: SimplifyCall,
    other_table: Vec<RangeEntry>,
)
    ensures
        ({
            let request = SupportRequest::Simplify {
                range_table: Some(range_table),
                call: Some(call),
            };
            let number = call.relations@[0];
            &&& request.bindable() is Some <==> call.relations@.len() == 1 && 1 <= number
                && number <= range_table@.len() && range_table@[number - 1].is_relation
            &&& request.bindable() matches Some(bound) ==> {
                &&& bound.document == call.args@[0]
                &&& bound.query == call.args@[1]
                &&& bound.varno == number
                &&& bound.relid == range_table@[number - 1].relid
                &&& bound.input_collation == call.input_collation
            }
            &&& call.relations@.len() == 1 && 1 <= number && number <= range_table@.len() && number
                <= other_table@.len() && range_table@[number - 1] == other_table@[number - 1]
                ==> request.bindable() == (SupportRequest::Simplify {
                range_table: Some(other_table),
                call: Some(call),
            }).bindable()
        }),
        (SupportRequest::Simplify { range_table: None, call: Some(call) }).bindable() is None,
        (SupportRequest::Simplify { range_table: Some(range_table), call: None }).bindable() is None,
        (SupportRequest::Simplify { range_table: None, call: None }).bindable() is None,
        SupportRequest::Absent.bindable() is None,
        SupportRequest::Other.bindable() is None,
{
}

/// A request of another kind binds no call.
pub proof fn law_index_conditions_bind_no_call(request: IndexConditionRequest)
    ensures
        SupportRequest::IndexCondition(request).bindable() is None,
{
}

/// The call in the operator's place is the bound predicate on the operator's own
/// document and query and on the index that was found, with its collation.
pub proof fn law_replacement_searches_the_same(call: Bindable, index: u32, bound: FunctionCall)
    requires
        bound@ == bound_match(call, index),
    ensures
        bound.function.name@ == "tin.text_matches_index"@,
        bound.function.argument_types@ == seq![25u32, 25, 26],
        bound.result_type == 16,
        bound.args@.len() == 3,
        bound.args@[0] == Argument::Node(call.document),
        bound.args@[1] == Argument::Node(call.query),
        bound.args@[2] == Argument::Oid(index),
        bound.collation == 0,
        bound.input_collation == call.input_collation,
{
    law_catalog_names_and_numbers(bound.function);
    let views = argument_views(bound.args@);
    assert(views.len() == bound.args@.len());
    assert(views[0] == bound.args@[0]@);
    assert(views[1] == bound.args@[1]@);
    assert(views[2] == bound.args@[2]@);
}

/// An index condition is derived exactly from a call on the first column of the
/// index, whose third argument is a constant, not NULL, that names this very index.
pub proof fn law_index_conditions_need_their_index(request: IndexConditionRequest)
    ensures
        SupportRequest::IndexCondition(request).derivable() is Some <==> {
            &&& request.indexarg == 0
            &&& request.indexcol == 0
            &&& request.call matches Some(call)
                && call.index matches IndexArgument::Const { is_null, value } && !is_null
                && value as u32 == request.index_oid
        },
        SupportRequest::IndexCondition(request).derivable() matches Some(call) ==> request.call
            == Some(call),
        SupportRequest::Absent.derivable() is None,
        SupportRequest::Other.derivable() is None,
{
}

/// The condition is the found operator on the document and the query of the call,
/// in this order, and the rows that it finds are checked again.
pub proof fn law_index_conditions_search_the_same(call: IndexMatchCall, operator: u32)
    ensures
        index_clause(call, operator).operator == operator,
        index_clause(call, operator).result_type == 16,
        !index_clause(call, operator).returns_set,
        index_clause(call, operator).left == call.args@[0],
        index_clause(call, operator).right == call.args@[1],
        index_clause(call, operator).collation == 0,
        index_clause(call, operator).input_collation == call.input_collation,
        index_clause(call, operator).lossy,
        SEARCH_STRATEGY == 1,
        TEXTOID == 25,
{
}

/// A call whose document refers to entry `number` of the range table alone, which is
/// a table, is replaced exactly by way of the index that is found on that entry's
/// own table, and is left alone where none is found.
pub proof fn law_index_is_looked_up_on_the_documents_table<
    F: FnOnce(u32, i32, NodeId) -> Option<u32>,
>(
    range_table: Vec<RangeEntry>,
    call: SimplifyCall,
    number: i32,
    find_index: F,
    replacement: Option<FunctionCall>,
)
    requires
        call.relations@ == seq![number],
        1 <= number <= range_table@.len(),
        range_table@[number - 1].is_relation,
        binds(
            SupportRequest::Simplify { range_table: Some(range_table), call: Some(call) },
            find_index,
            replacement,
        ),
    ensures
        replacement is None ==> find_index.ensures(
            (range_table@[number - 1].relid, number, call.args@[0]),
            None,
        ),
        replacement is Some ==> exists|index: u32|
            {
                &&& #[trigger] find_index.ensures(
                    (range_table@[number - 1].relid, number, call.args@[0]),
                    Some(index),
                )
                &&& replacement->0.args@ == seq![
                    Argument::Node(call.args@[0]),
                    Argument::Node(call.args@[1]),
                    Argument::Oid(index),
                ]
            },
{
    let request = SupportRequest::Simplify { range_table: Some(range_table), call: Some(call) };
    law_calls_are_bound_to_their_table(range_table, call, range_table);
    let bindable = request.bindable()->0;
    assert(request.bindable() is Some);
    if let Some(bound) = replacement {
        assert(bound_to_found(bindable, find_index, bound));
        let index = choose|index: u32|
            {
                &&& find_index.ensures(
                    (bindable.relid, bindable.varno, bindable.document),
                    Some(index),
                )
                &&& bound@ == #[trigger] bound_match(bindable, index)
            };
        law_replacement_searches_the_same(bindable, index, bound);
        assert(bound.args@ =~= seq![
            Argument::Node(call.args@[0]),
            Argument::Node(call.args@[1]),
            Argument::Oid(index),
        ]);
        assert(find_index.ensures(
            (range_table@[number - 1].relid, number, call.args@[0]),
            Some(index),
        ));
    }
}

/// A call whose document refers to no table of the query, to several, or to
/// something that is no table is left alone.
pub proof fn law_calls_without_their_table_are_left_alone<
    F: FnOnce(u32, i32, NodeId) -> Option<u32>,
>(
    range_table: Vec<RangeEntry>,
    call: SimplifyCall,
    find_index: F,
    replacement: Option<FunctionCall>,
)
    requires
        binds(
            SupportRequest::Simplify { range_table: Some(range_table), call: Some(call) },
            find_index,
            replacement,
        ),
        call.relations@.len() != 1 || call.relations@[0] < 1 || call.relations@[0]
            > range_table@.len() || !range_table@[call.relations@[0] - 1].is_relation,
    ensures
        replacement is None,
{
    law_calls_are_bound_to_their_table(range_table, call, range_table);
}

/// An index condition comes only from a constant query and an operator for two texts
/// under the first strategy, on the first column of the very index that the call
/// names; and then it does come.
pub proof fn law_index_conditions_come_from_bound_calls<
    F: FnOnce(NodeId) -> bool,
    G: FnOnce(u32, u32, i16) -> u32,
>(
    request: IndexConditionRequest,
    is_constant: F,
    find_operator: G,
    clause: Option<IndexClause>,
)
    requires
        derives(SupportRequest::IndexCondition(request), is_constant, find_operator, clause),
    ensures
        clause matches Some(derived) ==> {
            &&& request.indexarg == 0 && request.indexcol == 0
            &&& request.call matches Some(call) && {
                &&& call.index matches IndexArgument::Const { is_null, value } && !is_null
                    && value as u32 == request.index_oid
                &&& is_constant.ensures((call.args@[1],), true)
                &&& derived.left == call.args@[0]
                &&& derived.right == call.args@[1]
            }
            &&& derived.operator != 0
            &&& find_operator.ensures((25, 25, 1), derived.operator)
            &&& derived.lossy
        },
        clause is None ==> {
            ||| request.indexarg != 0
            ||| request.indexcol != 0
            ||| request.call is None
            ||| request.call matches Some(call) && match call.index {
                IndexArgument::Const { is_null, value } => is_null || value as u32
                    != request.index_oid,
                IndexArgument::Other => true,
            }
            ||| request.call matches Some(call) && is_constant.ensures((call.args@[1],), false)
            ||| find_operator.ensures((25, 25, 1), 0)
        },
{
    law_index_conditions_need_their_index(request);
}

} // verus!
