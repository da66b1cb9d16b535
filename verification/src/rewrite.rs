//! Scoring calls over one column, rewritten to a call over all searched columns.

use vstd::prelude::*;
use vstd::string::StringSliceAdditionalSpecFns;

use crate::catalog::{
    is_named, law_catalog_names_and_numbers, lookup, score_many, Signature, SignatureView,
    FLOAT4OID, INT4ARRAYOID, INT4OID, INVALID_OID, OIDOID, TEXTARRAYOID, TEXTOID,
};
use crate::fields::{
    bind_fields, bound_fields, law_bound_fields_are_the_answered_predicates,
    law_bound_fields_span_indexes, Candidate,
};
use crate::keys::{FULL_SCORE, MAX_FULL_SCORE, MAX_SCORE, SCORE};
use crate::quals::{
    condition, law_program_computes_meaning, meaning, program, well_formed, Field, NodeId, Qual,
};
use crate::truth::{holds, run, runs, TRUE};

verus! {

/// An element of an array in a bound call.
#[derive(Clone, Copy, PartialEq, Eq, Structural, Debug)]
pub enum Item {
    /// A copy of an expression of the query.
    Node(NodeId),
    /// An integer constant.
    Int4(i32),
}

/// An argument of a bound call.
#[derive(PartialEq, Eq, Debug)]
pub enum Argument {
    /// An array of elements.
    Array { items: Vec<Item>, element_type: u32, array_type: u32 },
    /// A copy of an expression of the query.
    Node(NodeId),
    /// An integer constant.
    Int4(i32),
    /// A constant that names a catalog object.
    Oid(u32),
    /// A NULL of a type.
    Null { type_oid: u32 },
    /// A copy of that argument of the call that is replaced.
    Copied(usize),
}

/// What an argument holds.
pub enum ArgumentView {
    Array { items: Seq<Item>, element_type: u32, array_type: u32 },
    Node(NodeId),
    Int4(i32),
    Oid(u32),
    Null { type_oid: u32 },
    Copied(usize),
}

impl View for Argument {
    type V = ArgumentView;

    open spec fn view(&self) -> ArgumentView {
        match *self {
            Argument::Array { items, element_type, array_type } => ArgumentView::Array {
                items: items@,
                element_type,
                array_type,
            },
            Argument::Node(node) => ArgumentView::Node(node),
            Argument::Int4(value) => ArgumentView::Int4(value),
            Argument::Oid(value) => ArgumentView::Oid(value),
            Argument::Null { type_oid } => ArgumentView::Null { type_oid },
            Argument::Copied(at) => ArgumentView::Copied(at),
        }
    }
}

/// A function call that takes the place of another expression.
#[derive(PartialEq, Eq, Debug)]
pub struct FunctionCall {
    pub function: Signature,
    pub result_type: u32,
    pub args: Vec<Argument>,
    pub collation: u32,
    pub input_collation: u32,
}

/// What a function call holds.
pub struct FunctionCallView {
    pub function: SignatureView,
    pub result_type: u32,
    pub args: Seq<ArgumentView>,
    pub collation: u32,
    pub input_collation: u32,
}

/// The arguments of a call.
pub open spec fn argument_views(args: Seq<Argument>) -> Seq<ArgumentView> {
    args.map_values(|arg: Argument| arg@)
}

impl View for FunctionCall {
    type V = FunctionCallView;

    open spec fn view(&self) -> FunctionCallView {
        FunctionCallView {
            function: self.function@,
            result_type: self.result_type,
            args: argument_views(self.args@),
            collation: self.collation,
            input_collation: self.input_collation,
        }
    }
}

/// The scoring call that is rewritten.
#[derive(Debug)]
pub struct ScoreCall {
    /// The name of the scoring function, without its schema.
    pub name: Vec<u8>,
    pub argument_count: usize,
}

impl ScoreCall {
    /// The call asks for the score over all terms.
    pub open spec fn is_full(self) -> bool {
        self.name@ == "full_score".spec_bytes()
    }

    /// The call asks for the greatest score.
    pub open spec fn is_max(self) -> bool {
        !self.is_full() && self.name@ == "max_score".spec_bytes()
    }

    /// The mode of the bound call. The greatest score follows the policy of the
    /// scores in the same query: `full` says whether one goes over all terms.
    pub open spec fn mode(self, full: bool) -> i32 {
        if self.is_full() {
            FULL_SCORE
        } else if self.is_max() {
            if full {
                MAX_FULL_SCORE
            } else {
                MAX_SCORE
            }
        } else {
            SCORE
        }
    }
}

/// The condition on the rows, as a program over the fields. A query whose
/// condition involves no field accepts every row.
pub open spec fn scoring_program(quals: Qual, fields: Seq<Field>) -> Seq<i32> {
    match program(quals, fields) {
        Some(code) => code,
        None => seq![TRUE],
    }
}

/// Copies of the searched documents.
pub open spec fn documents(fields: Seq<Field>) -> Seq<Item> {
    fields.map_values(|field: Field| Item::Node(field.document))
}

/// Copies of the queries.
pub open spec fn queries(fields: Seq<Field>) -> Seq<Item> {
    fields.map_values(|field: Field| Item::Node(field.query))
}

/// The indexes as signed integers.
pub open spec fn indexes(fields: Seq<Field>) -> Seq<Item> {
    fields.map_values(|field: Field| Item::Int4(field.index as i32))
}

/// A list of integers as constants.
pub open spec fn constants(values: Seq<i32>) -> Seq<Item> {
    values.map_values(|value: i32| Item::Int4(value))
}

/// The parameters of the score, from those of the rewritten call: a plain score
/// keeps all five; a score over all terms keeps its two numbers where it has
/// them; the greatest score has none.
pub open spec fn parameters(mode: i32, argument_count: usize) -> Seq<ArgumentView> {
    if mode == SCORE {
        Seq::new(5, |i: int| ArgumentView::Copied((i + 1) as usize))
    } else {
        let number = |at: usize|
            if mode == FULL_SCORE && argument_count == 3 {
                ArgumentView::Copied(at)
            } else {
                ArgumentView::Null { type_oid: FLOAT4OID }
            };
        seq![
            ArgumentView::Null { type_oid: FLOAT4OID },
            number(1),
            number(2),
            ArgumentView::Null { type_oid: TEXTARRAYOID },
            ArgumentView::Null { type_oid: TEXTARRAYOID },
        ]
    }
}

/// The arguments of the call over all fields.
pub open spec fn bound_arguments(
    heap: u32,
    fields: Seq<Field>,
    code: Seq<i32>,
    mode: i32,
    argument_count: usize,
) -> Seq<ArgumentView> {
    seq![
        ArgumentView::Array {
            items: documents(fields),
            element_type: TEXTOID,
            array_type: TEXTARRAYOID,
        },
        ArgumentView::Array {
            items: queries(fields),
            element_type: TEXTOID,
            array_type: TEXTARRAYOID,
        },
        ArgumentView::Int4(heap as i32),
        ArgumentView::Array {
            items: indexes(fields),
            element_type: INT4OID,
            array_type: INT4ARRAYOID,
        },
        ArgumentView::Int4(mode),
        ArgumentView::Array {
            items: constants(code),
            element_type: INT4OID,
            array_type: INT4ARRAYOID,
        },
    ] + parameters(mode, argument_count)
}

/// The call over all fields.
pub open spec fn bound_call(
    call: ScoreCall,
    heap: u32,
    fields: Seq<Field>,
    quals: Qual,
    full: bool,
) -> FunctionCallView {
    FunctionCallView {
        function: score_many(),
        result_type: FLOAT4OID,
        args: bound_arguments(
            heap,
            fields,
            scoring_program(quals, fields),
            call.mode(full),
            call.argument_count,
        ),
        collation: INVALID_OID,
        input_collation: INVALID_OID,
    }
}

/// An array argument.
pub fn array(items: Vec<Item>, element_type: u32, array_type: u32) -> (argument: Argument)
    ensures
        argument@ == (ArgumentView::Array { items: items@, element_type, array_type }),
{
    Argument::Array { items, element_type, array_type }
}

/// Copies of the documents of the fields, in order.
fn document_items(fields: &[Field]) -> (items: Vec<Item>)
    ensures
        items@ == documents(fields@),
{
    let mut items: Vec<Item> = Vec::new();
    let mut at: usize = 0;
    while at < fields.len()
        invariant
            at <= fields@.len(),
            items@ == documents(fields@.take(at as int)),
        decreases fields@.len() - at,
    {
        items.push(Item::Node(fields[at].document));
        assert(documents(fields@.take(at + 1)) =~= documents(fields@.take(at as int)).push(
            Item::Node(fields@[at as int].document),
        ));
        at = at + 1;
    }
    assert(fields@.take(at as int) =~= fields@);
    items
}

/// Copies of the queries of the fields, in order.
fn query_items(fields: &[Field]) -> (items: Vec<Item>)
    ensures
        items@ == queries(fields@),
{
    let mut items: Vec<Item> = Vec::new();
    let mut at: usize = 0;
    while at < fields.len()
        invariant
            at <= fields@.len(),
            items@ == queries(fields@.take(at as int)),
        decreases fields@.len() - at,
    {
        items.push(Item::Node(fields[at].query));
        assert(queries(fields@.take(at + 1)) =~= queries(fields@.take(at as int)).push(
            Item::Node(fields@[at as int].query),
        ));
        at = at + 1;
    }
    assert(fields@.take(at as int) =~= fields@);
    items
}

/// The indexes of the fields, in order.
fn index_items(fields: &[Field]) -> (items: Vec<Item>)
    ensures
        items@ == indexes(fields@),
{
    let mut items: Vec<Item> = Vec::new();
    let mut at: usize = 0;
    while at < fields.len()
        invariant
            at <= fields@.len(),
            items@ == indexes(fields@.take(at as int)),
        decreases fields@.len() - at,
    {
        items.push(Item::Int4(fields[at].index as i32));
        assert(indexes(fields@.take(at + 1)) =~= indexes(fields@.take(at as int)).push(
            Item::Int4(fields@[at as int].index as i32),
        ));
        at = at + 1;
    }
    assert(fields@.take(at as int) =~= fields@);
    items
}

/// A program as constants.
fn program_items(code: &Vec<i32>) -> (items: Vec<Item>)
    ensures
        items@ == constants(code@),
{
    let mut items: Vec<Item> = Vec::new();
    let mut at: usize = 0;
    while at < code.len()
        invariant
            at <= code@.len(),
            items@ == constants(code@.take(at as int)),
        decreases code@.len() - at,
    {
        items.push(Item::Int4(code[at]));
        assert(constants(code@.take(at + 1)) =~= constants(code@.take(at as int)).push(
            Item::Int4(code@[at as int]),
        ));
        at = at + 1;
    }
    assert(code@.take(at as int) =~= code@);
    items
}

/// Builds the call over the chosen fields. `full` says whether the query scores
/// these columns over all terms, which only the greatest score asks about.
pub fn bind_call(
    call: &ScoreCall,
    heap: u32,
    fields: &[Field],
    quals: &Qual,
    full: bool,
) -> (bound: FunctionCall)
    requires
        fields@.len() <= i32::MAX,
        call.mode(full) == SCORE ==> call.argument_count >= 6,
    ensures
        bound@ == bound_call(*call, heap, fields@, *quals, full),
{
    let mut code: Vec<i32> = Vec::new();
    if !condition(quals, fields, &mut code) {
        code.push(TRUE);
    }
    assert(code@ =~= scoring_program(*quals, fields@));
    let mode: i32 = if is_named(&call.name, "full_score") {
        FULL_SCORE
    } else if is_named(&call.name, "max_score") {
        if full {
            MAX_FULL_SCORE
        } else {
            MAX_SCORE
        }
    } else {
        SCORE
    };
    let mut args: Vec<Argument> = Vec::new();
    args.push(array(document_items(fields), TEXTOID, TEXTARRAYOID));
    args.push(array(query_items(fields), TEXTOID, TEXTARRAYOID));
    args.push(Argument::Int4(heap as i32));
    args.push(array(index_items(fields), INT4OID, INT4ARRAYOID));
    args.push(Argument::Int4(mode));
    args.push(array(program_items(&code), INT4OID, INT4ARRAYOID));
    if mode == SCORE {
        args.push(Argument::Copied(1));
        args.push(Argument::Copied(2));
        args.push(Argument::Copied(3));
        args.push(Argument::Copied(4));
        args.push(Argument::Copied(5));
    } else {
        args.push(Argument::Null { type_oid: FLOAT4OID });
        if mode == FULL_SCORE && call.argument_count == 3 {
            args.push(Argument::Copied(1));
            args.push(Argument::Copied(2));
        } else {
            args.push(Argument::Null { type_oid: FLOAT4OID });
            args.push(Argument::Null { type_oid: FLOAT4OID });
        }
        args.push(Argument::Null { type_oid: TEXTARRAYOID });
        args.push(Argument::Null { type_oid: TEXTARRAYOID });
    }
    assert(argument_views(args@) =~= bound_arguments(
        heap,
        fields@,
        code@,
        mode,
        call.argument_count,
    ));
    FunctionCall {
        function: lookup(),
        result_type: FLOAT4OID,
        args,
        collation: INVALID_OID,
        input_collation: INVALID_OID,
    }
}

/// The call over all fields follows the policy of the query's own scores.
pub open spec fn follows_policy<F: FnOnce(NodeId) -> bool>(
    call: ScoreCall,
    heap: u32,
    fields: Seq<Field>,
    quals: Qual,
    has_full_score: F,
    result: FunctionCall,
) -> bool {
    exists|full: bool|
        {
            &&& call.is_max() ==> has_full_score.ensures((fields[0].document,), full)
            &&& result@ == #[trigger] bound_call(call, heap, fields, quals, full)
        }
}

/// What a scoring call comes to: one over all fields where there are fields to be
/// scored together, and else nothing.
pub open spec fn rewrites<F: FnOnce(NodeId) -> bool>(
    call: ScoreCall,
    heap: u32,
    matches: Seq<Candidate>,
    quals: Qual,
    has_full_score: F,
    bound: Option<FunctionCall>,
) -> bool {
    match (bound_fields(matches), bound) {
        (None, None) => true,
        (Some(fields), Some(result)) => follows_policy(
            call,
            heap,
            fields,
            quals,
            has_full_score,
            result,
        ),
        _ => false,
    }
}

/// Rewrites a scoring call to one over all searched columns, where the query
/// searches more than one index. `has_full_score` tells whether the query scores
/// a document over all terms; it is asked of the first field, and only for the
/// greatest score.
pub fn rewrite<F: FnOnce(NodeId) -> bool>(
    call: &ScoreCall,
    heap: u32,
    matches: &[Candidate],
    quals: &Qual,
    has_full_score: F,
) -> (bound: Option<FunctionCall>)
    requires
        matches@.len() <= i32::MAX,
        forall|document: NodeId| has_full_score.requires((document,)),
        bound_fields(matches@) is Some && !call.is_full() && !call.is_max() ==> call.argument_count
            >= 6,
    ensures
        rewrites(*call, heap, matches@, *quals, has_full_score, bound),
{
    let fields = match bind_fields(matches) {
        Some(fields) => fields,
        None => return None,
    };
    proof {
        law_bound_fields_span_indexes(matches@);
    }
    let full = if !is_named(&call.name, "full_score") && is_named(&call.name, "max_score") {
        has_full_score(fields[0].document)
    } else {
        false
    };
    Some(bind_call(call, heap, fields.as_slice(), quals, full))
}

/// An argument of a call in the query, as far as a bound call is recognized by it.
#[derive(Debug)]
pub enum ArgNode {
    /// A constant, with the value that the server holds for it.
    Const { value: u64 },
    /// An array expression over its elements.
    Array { elements: Vec<NodeId> },
    /// Any other expression.
    Other,
}

/// A function call in the query.
#[derive(Debug)]
pub struct CallNode {
    pub funcid: u32,
    pub args: Vec<ArgNode>,
}

impl CallNode {
    /// The call is a bound score over all terms, and `document` is among the
    /// documents that it scores.
    pub open spec fn scores_fully(self, score_many: u32, document: NodeId) -> bool {
        &&& self.funcid == score_many
        &&& self.args@[4] matches ArgNode::Const { value } && value == FULL_SCORE
        &&& self.args@[0] matches ArgNode::Array { elements } && elements@.contains(document)
    }
}

/// Recognizes a bound score over all terms that covers a document. `score_many`
/// is the number of the function that `lookup` names.
pub fn is_full_score(function: &CallNode, score_many: u32, document: NodeId) -> (recognized: bool)
    requires
        function.funcid == score_many ==> function.args@.len() > 4,
    ensures
        recognized == function.scores_fully(score_many, document),
{
    if function.funcid != score_many {
        return false;
    }
    match (&function.args[4], &function.args[0]) {
        (ArgNode::Const { value }, ArgNode::Array { elements }) => {
            *value == FULL_SCORE as u64 && contains_node(elements, document)
        },
        _ => false,
    }
}

/// Looks for an expression among others.
fn contains_node(elements: &Vec<NodeId>, node: NodeId) -> (found: bool)
    ensures
        found == elements@.contains(node),
{
    let mut at: usize = 0;
    while at < elements.len()
        invariant
            at <= elements@.len(),
            forall|i: int| 0 <= i < at ==> elements@[i] != node,
        decreases elements@.len() - at,
    {
        if elements[at] == node {
            return true;
        }
        at = at + 1;
    }
    false
}

/// The node shows this argument: a constant shows its value, an array shows its
/// expressions. Nothing is said of what `is_full_score` does not read.
pub open spec fn shows_argument(node: ArgNode, arg: ArgumentView) -> bool {
    match arg {
        ArgumentView::Int4(value) => node matches ArgNode::Const { value: held } && (value >= 0
            ==> held == value),
        ArgumentView::Array { items, .. } => node matches ArgNode::Array { elements }
            && elements@.len() == items.len() && forall|i: int|
            0 <= i < items.len() && items[i] is Node ==> items[i] == Item::Node(
                #[trigger] elements@[i],
            ),
        _ => true,
    }
}

/// The node shows this call under the number `funcid`.
pub open spec fn shows(node: CallNode, call: FunctionCallView, funcid: u32) -> bool {
    &&& node.funcid == funcid
    &&& node.args@.len() == call.args.len()
    &&& forall|i: int|
        0 <= i < call.args.len() ==> shows_argument(#[trigger] node.args@[i], call.args[i])
}

/// A rewritten call is recognized again: exactly the scores over all terms are,
/// and for exactly the documents of their fields.
pub proof fn law_full_scores_are_recognized(
    call: ScoreCall,
    heap: u32,
    fields: Seq<Field>,
    quals: Qual,
    full: bool,
    node: CallNode,
    funcid: u32,
    document: NodeId,
)
    requires
        shows(node, bound_call(call, heap, fields, quals, full), funcid),
    ensures
        node.args@.len() > 4,
        node.scores_fully(funcid, document) <==> call.is_full() && exists|i: int|
            0 <= i < fields.len() && (#[trigger] fields[i]).document == document,
{
    let bound = bound_call(call, heap, fields, quals, full);
    assert(shows_argument(node.args@[4], bound.args[4]));
    assert(shows_argument(node.args@[0], bound.args[0]));
    assert(bound.args[4] == ArgumentView::Int4(call.mode(full)));
    if let ArgNode::Array { elements } = node.args@[0] {
        assert(elements@.len() == fields.len());
        assert forall|i: int| 0 <= i < fields.len() implies #[trigger] elements@[i]
            == fields[i].document by {
            assert(documents(fields)[i] == Item::Node(fields[i].document));
        }
        if elements@.contains(document) {
            let k = elements@.index_of(document);
            assert(fields[k].document == document);
        }
        if exists|i: int| 0 <= i < fields.len() && (#[trigger] fields[i]).document == document {
            let k = choose|i: int|
                0 <= i < fields.len() && (#[trigger] fields[i]).document == document;
            assert(elements@[k] == document);
        }
    }
}

/// The type of an argument, given the types of the call that is replaced.
pub open spec fn type_of(arg: ArgumentView, source_types: Seq<u32>) -> Option<u32> {
    match arg {
        ArgumentView::Array { array_type, .. } => Some(array_type),
        ArgumentView::Node(_) => None,
        ArgumentView::Int4(_) => Some(INT4OID),
        ArgumentView::Oid(_) => Some(OIDOID),
        ArgumentView::Null { type_oid } => Some(type_oid),
        ArgumentView::Copied(at) => if at < source_types.len() {
            Some(source_types[at as int])
        } else {
            None
        },
    }
}

/// The scoring functions take a row first, then their parameters: a plain score
/// three numbers and two lists of terms, a score over all terms two numbers.
pub open spec fn is_scoring_type(mode: i32, source_types: Seq<u32>) -> bool {
    if mode == SCORE {
        source_types.len() == 6 && source_types.skip(1) == seq![
            FLOAT4OID,
            FLOAT4OID,
            FLOAT4OID,
            TEXTARRAYOID,
            TEXTARRAYOID,
        ]
    } else if mode == FULL_SCORE && source_types.len() == 3 {
        source_types.skip(1) == seq![FLOAT4OID, FLOAT4OID]
    } else {
        true
    }
}

/// A bound call has the arguments that the function over several columns takes.
pub proof fn law_bound_call_fits_signature(
    call: ScoreCall,
    heap: u32,
    fields: Seq<Field>,
    quals: Qual,
    full: bool,
    source_types: Seq<u32>,
)
    requires
        source_types.len() == call.argument_count,
        is_scoring_type(call.mode(full), source_types),
    ensures
        bound_call(call, heap, fields, quals, full).args.len()
            == score_many().argument_types.len(),
        forall|i: int|
            0 <= i < score_many().argument_types.len() ==> type_of(
                #[trigger] bound_call(call, heap, fields, quals, full).args[i],
                source_types,
            ) == Some(score_many().argument_types[i]),
{
    let mode = call.mode(full);
    if mode == SCORE || mode == FULL_SCORE && source_types.len() == 3 {
        assert forall|i: int| 1 <= i < source_types.len() implies source_types[i]
            == #[trigger] source_types.skip(1)[i - 1] by {}
        assert(source_types[1] == source_types.skip(1)[0]);
        assert(source_types[2] == source_types.skip(1)[1]);
        if mode == SCORE {
            assert(source_types[3] == source_types.skip(1)[2]);
            assert(source_types[4] == source_types.skip(1)[3]);
            assert(source_types[5] == source_types.skip(1)[4]);
        }
    }
}

/// The condition handed to the bound call can be run over the verdicts of its
/// fields, and accepts a row exactly when the query's condition accepts it or
/// says nothing of any field.
pub proof fn law_bound_condition_decides_rows(
    quals: Qual,
    fields: Seq<Field>,
    matches: Seq<Option<bool>>,
)
    requires
        well_formed(quals),
        fields.len() <= i32::MAX,
        matches.len() == fields.len(),
    ensures
        runs(scoring_program(quals, fields), fields.len()),
        holds(scoring_program(quals, fields), matches) <==> {
            let said = meaning(quals, fields, matches);
            said is None || said == Some(Some(true))
        },
{
    law_program_computes_meaning(quals, fields, matches);
    if program(quals, fields) is None {
        let code = seq![TRUE];
        assert(code.drop_last() =~= Seq::<i32>::empty());
        reveal_with_fuel(runs, 2);
        reveal_with_fuel(run, 2);
    }
}

/// The call asks for a score over all terms, for the greatest score, or for a plain
/// score, by its name; the greatest score is over all terms where the query has
/// such a score.
pub proof fn law_modes_follow_the_name(call: ScoreCall, full: bool)
    ensures
        call.name@ == "full_score".spec_bytes() ==> call.mode(full) == 1,
        call.name@ != "full_score".spec_bytes() && call.name@ == "max_score".spec_bytes()
            ==> call.mode(true) == 3 && call.mode(false) == 2,
        call.name@ != "full_score".spec_bytes() && call.name@ != "max_score".spec_bytes()
            ==> call.mode(full) == 0,
        call.is_full() <==> call.name@ == "full_score".spec_bytes(),
        call.is_max() <==> call.name@ != "full_score".spec_bytes() && call.name@
            == "max_score".spec_bytes(),
{
}

/// The bound call hands over the documents, the queries and the indexes of all
/// fields, each in its place, with the table, the mode and the condition.
pub proof fn law_bound_call_names_every_field(
    call: ScoreCall,
    heap: u32,
    fields: Seq<Field>,
    quals: Qual,
    full: bool,
    bound: FunctionCall,
)
    requires
        bound@ == bound_call(call, heap, fields, quals, full),
    ensures
        bound.function.name@ == "tin.score_many_bound"@,
        bound.result_type == 700,
        bound.collation == 0,
        bound.input_collation == 0,
        bound.args@.len() == 11,
        bound.args@[0] matches Argument::Array { items, element_type, array_type } && {
            &&& element_type == 25 && array_type == 1009
            &&& items@.len() == fields.len()
            &&& forall|i: int|
                0 <= i < fields.len() ==> #[trigger] items@[i] == Item::Node(fields[i].document)
        },
        bound.args@[1] matches Argument::Array { items, element_type, array_type } && {
            &&& element_type == 25 && array_type == 1009
            &&& items@.len() == fields.len()
            &&& forall|i: int|
                0 <= i < fields.len() ==> #[trigger] items@[i] == Item::Node(fields[i].query)
        },
        bound.args@[2] == Argument::Int4(heap as i32),
        bound.args@[3] matches Argument::Array { items, element_type, array_type } && {
            &&& element_type == 23 && array_type == 1007
            &&& items@.len() == fields.len()
            &&& forall|i: int|
                0 <= i < fields.len() ==> #[trigger] items@[i] == Item::Int4(
                    fields[i].index as i32,
                )
        },
        bound.args@[4] == Argument::Int4(call.mode(full)),
        bound.args@[5] matches Argument::Array { items, element_type, array_type } && {
            let code = match program(quals, fields) {
                Some(code) => code,
                None => seq![-4i32],
            };
            &&& element_type == 23 && array_type == 1007
            &&& items@.len() == code.len()
            &&& forall|i: int| 0 <= i < code.len() ==> #[trigger] items@[i] == Item::Int4(code[i])
        },
{
    law_catalog_names_and_numbers(bound.function);
    let views = argument_views(bound.args@);
    assert(views == bound_arguments(
        heap,
        fields,
        scoring_program(quals, fields),
        call.mode(full),
        call.argument_count,
    ));
    assert(views.len() == bound.args@.len());
    assert forall|i: int| 0 <= i < views.len() implies views[i] == #[trigger] bound.args@[i]@ by {}
    assert(views[0] == bound.args@[0]@);
    assert(views[1] == bound.args@[1]@);
    assert(views[2] == bound.args@[2]@);
    assert(views[3] == bound.args@[3]@);
    assert(views[4] == bound.args@[4]@);
    assert(views[5] == bound.args@[5]@);
    if let Argument::Array { items, .. } = bound.args@[0] {
        assert(items@ == documents(fields));
    }
    if let Argument::Array { items, .. } = bound.args@[1] {
        assert(items@ == queries(fields));
    }
    if let Argument::Array { items, .. } = bound.args@[3] {
        assert(items@ == indexes(fields));
    }
    if let Argument::Array { items, .. } = bound.args@[5] {
        assert(items@ == constants(scoring_program(quals, fields)));
    }
}

/// The parameters of a call come through in their places: all five of a plain score;
/// the two numbers of a score over all terms, where it has them, as the second and
/// the third; and nothing else. What is not given is a NULL of its type.
pub proof fn law_parameters_come_through(
    call: ScoreCall,
    heap: u32,
    fields: Seq<Field>,
    quals: Qual,
    full: bool,
    bound: FunctionCall,
)
    requires
        bound@ == bound_call(call, heap, fields, quals, full),
    ensures
        bound.args@.len() == 11,
        call.mode(full) == 0 ==> forall|i: int|
            1 <= i <= 5 ==> #[trigger] bound.args@[i + 5] == Argument::Copied(i as usize),
        call.mode(full) != 0 ==> {
            &&& bound.args@[6] == (Argument::Null { type_oid: 700 })
            &&& bound.args@[9] == (Argument::Null { type_oid: 1009 })
            &&& bound.args@[10] == (Argument::Null { type_oid: 1009 })
        },
        call.mode(full) == 1 && call.argument_count == 3 ==> {
            &&& bound.args@[7] == Argument::Copied(1)
            &&& bound.args@[8] == Argument::Copied(2)
        },
        call.mode(full) != 0 && !(call.mode(full) == 1 && call.argument_count == 3) ==> {
            &&& bound.args@[7] == (Argument::Null { type_oid: 700 })
            &&& bound.args@[8] == (Argument::Null { type_oid: 700 })
        },
{
    let views = argument_views(bound.args@);
    assert(views == bound_arguments(
        heap,
        fields,
        scoring_program(quals, fields),
        call.mode(full),
        call.argument_count,
    ));
    assert(views.len() == bound.args@.len());
    assert forall|i: int| 0 <= i < views.len() implies views[i] == #[trigger] bound.args@[i]@ by {}
    let given = parameters(call.mode(full), call.argument_count);
    assert(views[6] == given[0]);
    assert(views[7] == given[1]);
    assert(views[8] == given[2]);
    assert(views[9] == given[3]);
    assert(views[10] == given[4]);
    assert(bound.args@[6]@ == views[6]);
    assert(bound.args@[7]@ == views[7]);
    assert(bound.args@[8]@ == views[8]);
    assert(bound.args@[9]@ == views[9]);
    assert(bound.args@[10]@ == views[10]);
    if call.mode(full) == 0 {
        assert forall|i: int| 1 <= i <= 5 implies #[trigger] bound.args@[i + 5] == Argument::Copied(
            i as usize,
        ) by {
            assert(i == 1 || i == 2 || i == 3 || i == 4 || i == 5);
        }
    }
}

/// A call is a bound score over all terms for a document exactly when it calls that
/// function, its fifth argument is the constant 1, and its first is an array that
/// has the document somewhere.
pub proof fn law_full_scores_are_told_by_three_things(
    node: CallNode,
    score_many: u32,
    document: NodeId,
)
    ensures
        node.scores_fully(score_many, document) <==> {
            &&& node.funcid == score_many
            &&& node.args@[4] matches ArgNode::Const { value } && value == 1
            &&& node.args@[0] matches ArgNode::Array { elements } && exists|i: int|
                0 <= i < elements@.len() && #[trigger] elements@[i] == document
        },
{
    if let ArgNode::Array { elements } = node.args@[0] {
        if elements@.contains(document) {
            let i = elements@.index_of(document);
            assert(elements@[i] == document);
        }
        if exists|i: int| 0 <= i < elements@.len() && #[trigger] elements@[i] == document {
            let i = choose|i: int| 0 <= i < elements@.len() && #[trigger] elements@[i] == document;
            assert(elements@.contains(document));
        }
    }
}

/// A call is rewritten exactly where two predicates are answered by different
/// indexes. The greatest score goes over all terms exactly where the query has such
/// a score of the first field's document, and no other score asks.
pub proof fn law_calls_are_rewritten_across_indexes<F: FnOnce(NodeId) -> bool>(
    call: ScoreCall,
    heap: u32,
    matches: Seq<Candidate>,
    quals: Qual,
    has_full_score: F,
    bound: Option<FunctionCall>,
)
    requires
        rewrites(call, heap, matches, quals, has_full_score, bound),
    ensures
        bound is Some <==> exists|i: int, j: int|
            {
                &&& 0 <= i < matches.len() && 0 <= j < matches.len()
                &&& (#[trigger] matches[i]).index is Some
                &&& (#[trigger] matches[j]).index is Some
                &&& matches[i].index != matches[j].index
            },
        bound matches Some(result) ==> {
            let fields = bound_fields(matches)->0;
            &&& call.name@ == "full_score".spec_bytes() ==> result@ == bound_call(
                call,
                heap,
                fields,
                quals,
                false,
            ) && result.args@[4] == Argument::Int4(1)
            &&& call.name@ != "full_score".spec_bytes() && call.name@ == "max_score".spec_bytes()
                ==> {
                ||| result.args@[4] == Argument::Int4(3) && has_full_score.ensures(
                    (fields[0].document,),
                    true,
                ) && result@ == bound_call(call, heap, fields, quals, true)
                ||| result.args@[4] == Argument::Int4(2) && has_full_score.ensures(
                    (fields[0].document,),
                    false,
                ) && result@ == bound_call(call, heap, fields, quals, false)
            }
            &&& call.name@ != "full_score".spec_bytes() && call.name@ != "max_score".spec_bytes()
                ==> result@ == bound_call(call, heap, fields, quals, false) && result.args@[4]
                == Argument::Int4(0)
        },
{
    let _ = law_bound_fields_are_the_answered_predicates(matches);
    if let Some(result) = bound {
        let fields = bound_fields(matches)->0;
        assert(follows_policy(call, heap, fields, quals, has_full_score, result));
        let full = choose|full: bool|
            {
                &&& call.is_max() ==> has_full_score.ensures((fields[0].document,), full)
                &&& result@ == #[trigger] bound_call(call, heap, fields, quals, full)
            };
        law_bound_call_names_every_field(call, heap, fields, quals, full, result);
        law_modes_follow_the_name(call, full);
        if !call.is_max() {
            assert(call.mode(full) == call.mode(false));
            assert(bound_call(call, heap, fields, quals, full) == bound_call(
                call,
                heap,
                fields,
                quals,
                false,
            ));
        }
    }
}

} // verus!
