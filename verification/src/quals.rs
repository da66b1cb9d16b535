//! The `WHERE` clause of a scored query, as a program over its search predicates.

use vstd::prelude::*;

use crate::truth::{
    depth, holds, law_and_accepts, lemma_depth_concat, lemma_run_concat, lemma_runs_concat, run,
    runs, sql_and, sql_not, sql_or, AND, NOT, OR,
};

verus! {

/// An expression of the query. Two expressions have the same number exactly
/// when the server's node equality holds of them.
pub type NodeId = u64;

/// A search predicate `document ==> query` found in a clause.
#[derive(Clone, Copy, PartialEq, Eq, Structural, Debug)]
pub struct SearchMatch {
    pub document: NodeId,
    pub query: NodeId,
}

/// A search predicate together with the index that answers it.
#[derive(Clone, Copy, PartialEq, Eq, Structural, Debug)]
pub struct Field {
    pub document: NodeId,
    pub query: NodeId,
    pub index: u32,
}

/// The connective of a Boolean expression.
#[derive(Clone, Copy, PartialEq, Eq, Structural, Debug)]
pub enum BoolOp {
    And,
    Or,
    Not,
}

/// A condition of the query.
#[derive(Debug)]
pub enum Qual {
    /// No condition.
    Absent,
    /// A Boolean expression over its arguments.
    Bool { op: BoolOp, args: Vec<Qual> },
    /// A list of conditions that must all hold.
    List { args: Vec<Qual> },
    /// Any other expression, with the search predicates found inside it.
    Clause { found: Vec<SearchMatch> },
}

/// The operation of a connective.
pub open spec fn op_code(op: BoolOp) -> i32 {
    match op {
        BoolOp::And => AND,
        BoolOp::Or => OR,
        BoolOp::Not => NOT,
    }
}

/// The field stands for this search predicate.
pub open spec fn answers(field: Field, found: SearchMatch) -> bool {
    field.document == found.document && field.query == found.query
}

/// The first field that stands for a search predicate.
pub open spec fn slot_of(fields: Seq<Field>, found: SearchMatch) -> Option<int>
    decreases fields.len(),
{
    if fields.len() == 0 {
        None
    } else {
        match slot_of(fields.drop_last(), found) {
            Some(slot) => Some(slot),
            None => if answers(fields.last(), found) {
                Some(fields.len() - 1)
            } else {
                None
            },
        }
    }
}

/// The field that a clause stands for. A clause with more than one search
/// predicate, or with none, stands for no field.
pub open spec fn clause_slot(found: Seq<SearchMatch>, fields: Seq<Field>) -> Option<int> {
    if found.len() == 1 {
        slot_of(fields, found[0])
    } else {
        None
    }
}

/// The program of a condition, or nothing where no field takes part in it.
pub open spec fn program(node: Qual, fields: Seq<Field>) -> Option<Seq<i32>>
    decreases node,
{
    match node {
        Qual::Absent => None,
        Qual::Bool { op, args } => args_program(args@, op_code(op), fields),
        Qual::List { args } => args_program(args@, AND, fields),
        Qual::Clause { found } => match clause_slot(found@, fields) {
            Some(slot) => Some(seq![slot as i32]),
            None => None,
        },
    }
}

/// The program of a connective: those of the arguments that take part, each but
/// the first followed by the connective. A negation follows every argument.
pub open spec fn args_program(args: Seq<Qual>, op: i32, fields: Seq<Field>) -> Option<Seq<i32>>
    decreases args,
{
    if args.len() == 0 {
        None
    } else {
        match (args_program(args.drop_last(), op, fields), program(args.last(), fields)) {
            (before, None) => before,
            (None, Some(code)) => if op == NOT {
                Some(code.push(NOT))
            } else {
                Some(code)
            },
            (Some(before), Some(code)) => Some(before + code.push(op)),
        }
    }
}

/// Finds the first field that stands for a search predicate.
fn position(fields: &[Field], found: SearchMatch) -> (slot: Option<usize>)
    ensures
        match slot {
            Some(at) => at < fields@.len() && slot_of(fields@, found) == Some(at as int),
            None => slot_of(fields@, found) is None,
        },
{
    let mut at: usize = 0;
    while at < fields.len()
        invariant
            at <= fields@.len(),
            slot_of(fields@.take(at as int), found) is None,
        decreases fields@.len() - at,
    {
        proof {
            assert(fields@.take(at + 1).drop_last() =~= fields@.take(at as int));
            assert(fields@.take(at + 1).last() == fields@[at as int]);
        }
        if fields[at].document == found.document && fields[at].query == found.query {
            proof {
                lemma_slot_in_prefix(fields@, found, at + 1);
            }
            return Some(at);
        }
        at = at + 1;
    }
    proof {
        assert(fields@.take(at as int) =~= fields@);
    }
    None
}

/// Appends the program of a condition to `out` and says whether any field takes
/// part in it. Conditions without a field append nothing.
pub fn condition(node: &Qual, fields: &[Field], out: &mut Vec<i32>) -> (contributes: bool)
    requires
        fields@.len() <= i32::MAX,
    ensures
        match program(*node, fields@) {
            Some(code) => contributes && final(out)@ == old(out)@ + code,
            None => !contributes && final(out)@ == old(out)@,
        },
    decreases node, 1int,
{
    match node {
        Qual::Absent => false,
        Qual::Bool { op, args } => {
            let code: i32 = match op {
                BoolOp::And => AND,
                BoolOp::Or => OR,
                BoolOp::Not => NOT,
            };
            connective(node, args, code, fields, out)
        },
        Qual::List { args } => connective(node, args, AND, fields, out),
        Qual::Clause { found } => {
            if found.len() == 1 {
                match position(fields, found[0]) {
                    Some(slot) => {
                        out.push(slot as i32);
                        assert(out@ =~= old(out)@ + seq![slot as i32]);
                        true
                    },
                    None => false,
                }
            } else {
                false
            }
        },
    }
}

/// Appends the programs of a connective's arguments, joined by its operation.
fn connective(
    node: &Qual,
    args: &Vec<Qual>,
    op: i32,
    fields: &[Field],
    out: &mut Vec<i32>,
) -> (contributes: bool)
    requires
        fields@.len() <= i32::MAX,
        match *node {
            Qual::Bool { op: _, args: inner } => inner == *args,
            Qual::List { args: inner } => inner == *args,
            _ => false,
        },
    ensures
        match args_program(args@, op, fields@) {
            Some(code) => contributes && final(out)@ == old(out)@ + code,
            None => !contributes && final(out)@ == old(out)@,
        },
    decreases node, 0int,
{
    let mut contributes = false;
    let mut at: usize = 0;
    let ghost start = out@;
    while at < args.len()
        invariant
            at <= args@.len(),
            fields@.len() <= i32::MAX,
            match *node {
                Qual::Bool { op: _, args: inner } => inner == *args,
                Qual::List { args: inner } => inner == *args,
                _ => false,
            },
            match args_program(args@.take(at as int), op, fields@) {
                Some(code) => contributes && out@ == start + code,
                None => !contributes && out@ == start,
            },
        decreases args@.len() - at,
    {
        let ghost before = out@;
        proof {
            assert(args@.take(at + 1).drop_last() =~= args@.take(at as int));
            assert(args@.take(at + 1).last() == args@[at as int]);
            assert(decreases_to!(*node => args@[at as int]));
        }
        if condition(&args[at], fields, out) {
            proof {
                let code = program(args@[at as int], fields@)->0;
                assert((before + code).push(op) =~= before + code.push(op));
                if contributes {
                    let front = args_program(args@.take(at as int), op, fields@)->0;
                    assert(start + front + code.push(op) =~= start + (front + code.push(op)));
                }
            }
            if contributes || op == NOT {
                out.push(op);
            }
            contributes = true;
        }
        at = at + 1;
    }
    proof {
        assert(args@.take(at as int) =~= args@);
    }
    contributes
}

/// The first field found in a prefix is the first field of all.
proof fn lemma_slot_in_prefix(fields: Seq<Field>, found: SearchMatch, count: int)
    requires
        0 <= count <= fields.len(),
        slot_of(fields.take(count), found) is Some,
    ensures
        slot_of(fields, found) == slot_of(fields.take(count), found),
    decreases fields.len() - count,
{
    if count < fields.len() {
        assert(fields.take(count + 1).drop_last() =~= fields.take(count));
        lemma_slot_in_prefix(fields, found, count + 1);
    } else {
        assert(fields.take(count) =~= fields);
    }
}

/// A negation has exactly one argument, as the server builds it.
pub open spec fn well_formed(node: Qual) -> bool
    decreases node,
{
    match node {
        Qual::Absent => true,
        Qual::Bool { op, args } => (op == BoolOp::Not ==> args@.len() == 1) && all_well_formed(
            args@,
        ),
        Qual::List { args } => all_well_formed(args@),
        Qual::Clause { found } => true,
    }
}

/// Every condition of a list is well-formed.
pub open spec fn all_well_formed(args: Seq<Qual>) -> bool
    decreases args,
{
    args.len() == 0 || all_well_formed(args.drop_last()) && well_formed(args.last())
}

/// What a condition says of a row, given the verdict on each field: nothing
/// where no field takes part, else an SQL truth value.
pub open spec fn meaning(node: Qual, fields: Seq<Field>, matches: Seq<Option<bool>>) -> Option<
    Option<bool>,
>
    decreases node,
{
    match node {
        Qual::Absent => None,
        Qual::Bool { op, args } => args_meaning(args@, op, fields, matches),
        Qual::List { args } => args_meaning(args@, BoolOp::And, fields, matches),
        Qual::Clause { found } => match clause_slot(found@, fields) {
            Some(slot) => Some(matches[slot]),
            None => None,
        },
    }
}

/// What a connective says of a row: its arguments joined as SQL joins them,
/// without those in which no field takes part.
pub open spec fn args_meaning(
    args: Seq<Qual>,
    op: BoolOp,
    fields: Seq<Field>,
    matches: Seq<Option<bool>>,
) -> Option<Option<bool>>
    decreases args,
{
    if args.len() == 0 {
        None
    } else {
        match (
            args_meaning(args.drop_last(), op, fields, matches),
            meaning(args.last(), fields, matches),
        ) {
            (before, None) => before,
            (None, Some(value)) => if op == BoolOp::Not {
                Some(sql_not(value))
            } else {
                Some(value)
            },
            (Some(before), Some(value)) => match op {
                BoolOp::And => Some(sql_and(before, value)),
                BoolOp::Or => Some(sql_or(before, value)),
                BoolOp::Not => Some(sql_not(value)),
            },
        }
    }
}

/// The program of a condition computes what the condition means: it runs over
/// the verdicts of the fields, leaves exactly one verdict, and that verdict is
/// the SQL truth value of the condition. Where the condition has no program, no
/// field takes part in it.
pub proof fn law_program_computes_meaning(
    node: Qual,
    fields: Seq<Field>,
    matches: Seq<Option<bool>>,
)
    requires
        well_formed(node),
        fields.len() <= i32::MAX,
        matches.len() == fields.len(),
    ensures
        program(node, fields) is Some <==> meaning(node, fields, matches) is Some,
        program(node, fields) matches Some(code) ==> {
            &&& runs(code, fields.len())
            &&& depth(code) == 1
            &&& holds(code, matches) == (meaning(node, fields, matches)->0 == Some(true))
            &&& forall|stack: Seq<Option<bool>>| #[trigger]
                run(code, matches, stack) == stack.push(meaning(node, fields, matches)->0)
        },
    decreases node,
{
    match node {
        Qual::Absent => {},
        Qual::Bool { op, args } => {
            lemma_args_program(args@, op, fields, matches);
        },
        Qual::List { args } => {
            lemma_args_program(args@, BoolOp::And, fields, matches);
        },
        Qual::Clause { found } => {
            if let Some(slot) = clause_slot(found@, fields) {
                lemma_slot_in_range(fields, found@[0]);
                let code = seq![slot as i32];
                assert(code.drop_last() =~= Seq::<i32>::empty());
                assert(code.last() == slot);
                reveal_with_fuel(run, 2);
                reveal_with_fuel(runs, 2);
                reveal_with_fuel(depth, 2);
                assert forall|stack: Seq<Option<bool>>| #[trigger]
                    run(code, matches, stack) == stack.push(matches[slot]) by {
                    assert(run(code.drop_last(), matches, stack) == stack);
                }
            }
        },
    }
    if let Some(code) = program(node, fields) {
        assert(run(code, matches, Seq::empty()) == Seq::<Option<bool>>::empty().push(
            meaning(node, fields, matches)->0,
        ));
    }
}

/// `law_program_computes_meaning` for the arguments of a connective.
proof fn lemma_args_program(
    args: Seq<Qual>,
    op: BoolOp,
    fields: Seq<Field>,
    matches: Seq<Option<bool>>,
)
    requires
        all_well_formed(args),
        op == BoolOp::Not ==> args.len() <= 1,
        fields.len() <= i32::MAX,
        matches.len() == fields.len(),
    ensures
        args_program(args, op_code(op), fields) is Some <==> args_meaning(
            args,
            op,
            fields,
            matches,
        ) is Some,
        args_program(args, op_code(op), fields) matches Some(code) ==> {
            &&& runs(code, fields.len())
            &&& depth(code) == 1
            &&& forall|stack: Seq<Option<bool>>| #[trigger]
                run(code, matches, stack) == stack.push(args_meaning(args, op, fields, matches)->0)
        },
    decreases args,
{
    if args.len() > 0 {
        lemma_args_program(args.drop_last(), op, fields, matches);
        law_program_computes_meaning(args.last(), fields, matches);
        let front = args_program(args.drop_last(), op_code(op), fields);
        let back = program(args.last(), fields);
        if let Some(code) = back {
            let value = meaning(args.last(), fields, matches)->0;
            let joined = code.push(op_code(op));
            assert(joined.drop_last() =~= code);
            if let Some(before) = front {
                let held = args_meaning(args.drop_last(), op, fields, matches)->0;
                let whole = before + joined;
                assert(whole.drop_last() =~= before + code);
                assert(whole.last() == op_code(op));
                lemma_runs_concat(before, code, fields.len());
                lemma_depth_concat(before, code);
                assert forall|stack: Seq<Option<bool>>| #[trigger]
                    run(whole, matches, stack) == stack.push(
                        args_meaning(args, op, fields, matches)->0,
                    ) by {
                    lemma_run_concat(before, code, matches, stack);
                    let top = stack.push(held).push(value);
                    assert(run(before + code, matches, stack) == top);
                    assert(top.drop_last() =~= stack.push(held));
                    assert(stack.push(held).drop_last() =~= stack);
                }
            } else if op == BoolOp::Not {
                assert forall|stack: Seq<Option<bool>>| #[trigger]
                    run(joined, matches, stack) == stack.push(sql_not(value)) by {
                    assert(run(code, matches, stack) == stack.push(value));
                    assert(stack.push(value).drop_last() =~= stack);
                }
            }
        }
    }
}

/// The first field found lies among the fields and stands for the predicate.
proof fn lemma_slot_in_range(fields: Seq<Field>, found: SearchMatch)
    ensures
        slot_of(fields, found) matches Some(slot) ==> 0 <= slot < fields.len() && answers(
            fields[slot],
            found,
        ),
    decreases fields.len(),
{
    if fields.len() > 0 {
        lemma_slot_in_range(fields.drop_last(), found);
    }
}

/// A conjunction accepts a row exactly when some field takes part in it and
/// every argument in which one does accepts the row.
pub proof fn law_conjunction_accepts(
    args: Seq<Qual>,
    fields: Seq<Field>,
    matches: Seq<Option<bool>>,
)
    ensures
        args_meaning(args, BoolOp::And, fields, matches) == Some(Some(true)) <==> {
            &&& exists|i: int| 0 <= i < args.len() && meaning(#[trigger] args[i], fields, matches) is Some
            &&& forall|i: int|
                0 <= i < args.len() ==> {
                    let said = meaning(#[trigger] args[i], fields, matches);
                    said is None || said == Some(Some(true))
                }
        },
        args_meaning(args, BoolOp::And, fields, matches) is None <==> forall|i: int|
            0 <= i < args.len() ==> meaning(#[trigger] args[i], fields, matches) is None,
    decreases args.len(),
{
    if args.len() > 0 {
        let front = args.drop_last();
        law_conjunction_accepts(front, fields, matches);
        assert forall|i: int| 0 <= i < front.len() implies #[trigger] front[i] == args[i] by {}
        assert(args.last() == args[args.len() - 1]);
        if let (Some(before), Some(value)) = (
            args_meaning(front, BoolOp::And, fields, matches),
            meaning(args.last(), fields, matches),
        ) {
            law_and_accepts(before, value);
        }
        assert forall|i: int| 0 <= i < front.len() implies meaning(
            #[trigger] args[i],
            fields,
            matches,
        ) == meaning(front[i], fields, matches) by {}
        if args_meaning(front, BoolOp::And, fields, matches) is Some {
            let k = choose|i: int| 0 <= i < front.len() && meaning(#[trigger] front[i], fields, matches) is Some;
            assert(meaning(args[k], fields, matches) is Some);
        }
    }
}

/// A disjunction accepts a row exactly when one of its arguments does.
pub proof fn law_disjunction_accepts(
    args: Seq<Qual>,
    fields: Seq<Field>,
    matches: Seq<Option<bool>>,
)
    ensures
        args_meaning(args, BoolOp::Or, fields, matches) == Some(Some(true)) <==> exists|i: int|
            0 <= i < args.len() && meaning(#[trigger] args[i], fields, matches) == Some(Some(true)),
    decreases args.len(),
{
    if args.len() > 0 {
        let front = args.drop_last();
        law_disjunction_accepts(front, fields, matches);
        assert forall|i: int| 0 <= i < front.len() implies #[trigger] front[i] == args[i] by {}
        assert(args.last() == args[args.len() - 1]);
        if args_meaning(front, BoolOp::Or, fields, matches) == Some(Some(true)) {
            let k = choose|i: int| 0 <= i < front.len() && meaning(#[trigger] front[i], fields, matches) == Some(Some(true));
            assert(meaning(args[k], fields, matches) == Some(Some(true)));
        }
        if exists|i: int|
            0 <= i < args.len() && meaning(#[trigger] args[i], fields, matches) == Some(Some(true)) {
            let k = choose|i: int| 0 <= i < args.len() && meaning(#[trigger] args[i], fields, matches) == Some(Some(true));
            if k < front.len() {
                assert(meaning(front[k], fields, matches) == Some(Some(true)));
            }
        }
    }
}

/// A clause with one search predicate takes part whenever some field has the same
/// document and the same query: it becomes the first such field. A clause whose
/// predicate no field has takes no part, and neither does one with several
/// predicates or none.
pub proof fn law_clauses_take_their_field(found: Vec<SearchMatch>, fields: Seq<Field>, i: int)
    requires
        fields.len() <= i32::MAX,
    ensures
        program(Qual::Absent, fields) is None,
        found@.len() != 1 ==> program(Qual::Clause { found }, fields) is None,
        found@.len() == 1 && 0 <= i < fields.len() && fields[i].document == found@[0].document
            && fields[i].query == found@[0].query ==> exists|j: int|
            {
                &&& 0 <= j <= i
                &&& (#[trigger] fields[j]).document == found@[0].document
                &&& fields[j].query == found@[0].query
                &&& forall|k: int|
                    0 <= k < j ==> (#[trigger] fields[k]).document != found@[0].document
                        || fields[k].query != found@[0].query
                &&& program(Qual::Clause { found }, fields) == Some(seq![j as i32])
            },
        found@.len() == 1 && (forall|k: int|
            0 <= k < fields.len() ==> (#[trigger] fields[k]).document != found@[0].document
                || fields[k].query != found@[0].query) ==> program(Qual::Clause { found }, fields)
            is None,
{
    if found@.len() == 1 {
        lemma_first_field(fields, found@[0]);
        if let Some(slot) = slot_of(fields, found@[0]) {
            assert(fields[slot].document == found@[0].document);
        }
    }
}

/// The slot of a predicate is the first field with its document and query.
proof fn lemma_first_field(fields: Seq<Field>, found: SearchMatch)
    ensures
        match slot_of(fields, found) {
            Some(slot) => {
                &&& 0 <= slot < fields.len()
                &&& fields[slot].document == found.document && fields[slot].query == found.query
                &&& forall|k: int|
                    0 <= k < slot ==> (#[trigger] fields[k]).document != found.document
                        || fields[k].query != found.query
            },
            None => forall|k: int|
                0 <= k < fields.len() ==> (#[trigger] fields[k]).document != found.document
                    || fields[k].query != found.query,
        },
    decreases fields.len(),
{
    if fields.len() > 0 {
        let front = fields.drop_last();
        lemma_first_field(front, found);
        assert forall|k: int| 0 <= k < front.len() implies #[trigger] fields[k] == front[k] by {}
        assert(fields[fields.len() - 1] == fields.last());
    }
}

/// What the program of a condition comes to on a row: the verdict that it leaves,
/// or nothing where there is no program.
pub open spec fn outcome(node: Qual, fields: Seq<Field>, matches: Seq<Option<bool>>) -> Option<
    Option<bool>,
> {
    match program(node, fields) {
        Some(code) => Some(run(code, matches, Seq::empty()).last()),
        None => None,
    }
}

/// What a program comes to is what its condition means.
proof fn lemma_outcome(node: Qual, fields: Seq<Field>, matches: Seq<Option<bool>>)
    requires
        well_formed(node),
        fields.len() <= i32::MAX,
        matches.len() == fields.len(),
    ensures
        outcome(node, fields, matches) == meaning(node, fields, matches),
{
    law_program_computes_meaning(node, fields, matches);
    if let Some(code) = program(node, fields) {
        assert(run(code, matches, Seq::empty()) == Seq::<Option<bool>>::empty().push(
            meaning(node, fields, matches)->0,
        ));
    }
}

/// A clause comes to the verdict on its field: on the first field that has the
/// document and the query of its only predicate.
pub proof fn law_clauses_come_to_their_verdict(
    found: Vec<SearchMatch>,
    fields: Seq<Field>,
    matches: Seq<Option<bool>>,
    j: int,
)
    requires
        fields.len() <= i32::MAX,
        matches.len() == fields.len(),
        found@.len() == 1,
        0 <= j < fields.len(),
        fields[j].document == found@[0].document,
        fields[j].query == found@[0].query,
        forall|k: int|
            0 <= k < j ==> (#[trigger] fields[k]).document != found@[0].document || fields[k].query
                != found@[0].query,
    ensures
        outcome(Qual::Clause { found }, fields, matches) == Some(matches[j]),
{
    lemma_outcome(Qual::Clause { found }, fields, matches);
    lemma_first_field(fields, found@[0]);
    let slot = slot_of(fields, found@[0]);
    assert(slot is Some) by {
        assert(fields[j].document == found@[0].document);
    }
    assert(fields[slot->0].document == found@[0].document);
    assert(fields[j].query == found@[0].query);
    if slot->0 < j {
        assert(false);
    }
    if j < slot->0 {
        assert(false);
    }
}

/// Conditions of a list that is well-formed are well-formed.
proof fn lemma_argument_well_formed(args: Seq<Qual>, i: int)
    requires
        all_well_formed(args),
        0 <= i < args.len(),
    ensures
        well_formed(args[i]),
    decreases args.len(),
{
    if i < args.len() - 1 {
        lemma_argument_well_formed(args.drop_last(), i);
        assert(args.drop_last()[i] == args[i]);
    }
}

/// When a connective is false, and when it says nothing.
proof fn lemma_connective_false(
    args: Seq<Qual>,
    op: BoolOp,
    fields: Seq<Field>,
    matches: Seq<Option<bool>>,
)
    requires
        op != BoolOp::Not,
    ensures
        args_meaning(args, op, fields, matches) is None <==> forall|i: int|
            0 <= i < args.len() ==> meaning(#[trigger] args[i], fields, matches) is None,
        op == BoolOp::And ==> (args_meaning(args, op, fields, matches) == Some(Some(false))
            <==> exists|i: int|
            0 <= i < args.len() && meaning(#[trigger] args[i], fields, matches) == Some(
                Some(false),
            )),
        op == BoolOp::Or ==> (args_meaning(args, op, fields, matches) == Some(Some(false)) <==> {
            &&& exists|i: int|
                0 <= i < args.len() && meaning(#[trigger] args[i], fields, matches) is Some
            &&& forall|i: int|
                0 <= i < args.len() ==> {
                    let said = meaning(#[trigger] args[i], fields, matches);
                    said is None || said == Some(Some(false))
                }
        }),
    decreases args.len(),
{
    if args.len() > 0 {
        let front = args.drop_last();
        let last = args.len() - 1;
        lemma_connective_false(front, op, fields, matches);
        assert forall|i: int| 0 <= i < front.len() implies #[trigger] front[i] == args[i] by {}
        assert(args[last] == args.last());
        let before = args_meaning(front, op, fields, matches);
        let value = meaning(args[last], fields, matches);
        if before is Some && value is Some {
            lemma_false_pair(before->0, value->0);
        }
        if before is Some {
            let k = choose|i: int|
                0 <= i < front.len() && meaning(#[trigger] front[i], fields, matches) is Some;
            assert(meaning(args[k], fields, matches) is Some);
        }
        if before == Some(Some(false)) && op == BoolOp::And {
            let k = choose|i: int|
                0 <= i < front.len() && meaning(#[trigger] front[i], fields, matches) == Some(
                    Some(false),
                );
            assert(meaning(args[k], fields, matches) == Some(Some(false)));
        }
        if exists|i: int|
            0 <= i < args.len() && meaning(#[trigger] args[i], fields, matches) == Some(
                Some(false),
            ) {
            let k = choose|i: int|
                0 <= i < args.len() && meaning(#[trigger] args[i], fields, matches) == Some(
                    Some(false),
                );
            if k < last {
                assert(meaning(front[k], fields, matches) == Some(Some(false)));
            }
        }
        if exists|i: int| 0 <= i < args.len() && meaning(#[trigger] args[i], fields, matches) is Some {
            let k = choose|i: int|
                0 <= i < args.len() && meaning(#[trigger] args[i], fields, matches) is Some;
            if k < last {
                assert(meaning(front[k], fields, matches) is Some);
            }
        }
        if forall|i: int| 0 <= i < args.len() ==> meaning(#[trigger] args[i], fields, matches) is None {
            assert forall|i: int| 0 <= i < front.len() implies meaning(
                #[trigger] front[i],
                fields,
                matches,
            ) is None by {
                assert(meaning(args[i], fields, matches) is None);
            }
        }
        if op == BoolOp::Or && forall|i: int|
            0 <= i < args.len() ==> {
                let said = meaning(#[trigger] args[i], fields, matches);
                said is None || said == Some(Some(false))
            } {
            assert forall|i: int| 0 <= i < front.len() implies {
                let said = meaning(#[trigger] front[i], fields, matches);
                said is None || said == Some(Some(false))
            } by {
                assert(meaning(args[i], fields, matches) == meaning(front[i], fields, matches));
            }
            assert(value is None || value == Some(Some(false)));
        }
        if op == BoolOp::Or && before is Some && before != Some(Some(false)) {
            let k = choose|i: int|
                0 <= i < front.len() && {
                    let said = meaning(#[trigger] front[i], fields, matches);
                    !(said is None || said == Some(Some(false)))
                };
            assert(meaning(args[k], fields, matches) == meaning(front[k], fields, matches));
        }
        if before is None {
            assert forall|i: int| 0 <= i < front.len() implies meaning(
                #[trigger] args[i],
                fields,
                matches,
            ) is None by {
                assert(meaning(front[i], fields, matches) is None);
            }
        }
        if value is Some {
            assert(meaning(args[last], fields, matches) is Some);
        }
        if op == BoolOp::Or && before == Some(Some(false)) {
            assert forall|i: int| 0 <= i < front.len() implies {
                let said = meaning(#[trigger] args[i], fields, matches);
                said is None || said == Some(Some(false))
            } by {
                assert(meaning(args[i], fields, matches) == meaning(front[i], fields, matches));
            }
        }
    }
}

/// When two joined truth values are false.
proof fn lemma_false_pair(x: Option<bool>, y: Option<bool>)
    ensures
        sql_and(x, y) == Some(false) <==> x == Some(false) || y == Some(false),
        sql_or(x, y) == Some(false) <==> x == Some(false) && y == Some(false),
{
    match (x, y) {
        (Some(l), Some(r)) => {
            assert(l || !l);
            assert(r || !r);
        },
        _ => {},
    }
}

/// A conjunction or a list of conditions takes part where one of its arguments
/// does. It comes to true where all of these come to true, and to false where one
/// of them comes to false. Each argument counts, wherever it stands.
pub proof fn law_conjunctions_come_to_all(
    node: Qual,
    args: Vec<Qual>,
    fields: Seq<Field>,
    matches: Seq<Option<bool>>,
)
    requires
        node == (Qual::Bool { op: BoolOp::And, args }) || node == (Qual::List { args }),
        well_formed(node),
        fields.len() <= i32::MAX,
        matches.len() == fields.len(),
    ensures
        outcome(node, fields, matches) is None <==> forall|i: int|
            0 <= i < args@.len() ==> outcome(#[trigger] args@[i], fields, matches) is None,
        outcome(node, fields, matches) == Some(Some(true)) <==> outcome(node, fields, matches)
            is Some && forall|i: int|
            0 <= i < args@.len() ==> {
                let said = outcome(#[trigger] args@[i], fields, matches);
                said is None || said == Some(Some(true))
            },
        outcome(node, fields, matches) == Some(Some(false)) <==> exists|i: int|
            0 <= i < args@.len() && outcome(#[trigger] args@[i], fields, matches) == Some(
                Some(false),
            ),
{
    lemma_outcome(node, fields, matches);
    assert forall|i: int| 0 <= i < args@.len() implies outcome(
        #[trigger] args@[i],
        fields,
        matches,
    ) == meaning(args@[i], fields, matches) by {
        lemma_argument_well_formed(args@, i);
        lemma_outcome(args@[i], fields, matches);
    }
    law_conjunction_accepts(args@, fields, matches);
    lemma_connective_false(args@, BoolOp::And, fields, matches);
    assert(meaning(node, fields, matches) == args_meaning(args@, BoolOp::And, fields, matches));
    if meaning(node, fields, matches) == Some(Some(false)) {
        let k = choose|i: int|
            0 <= i < args@.len() && meaning(#[trigger] args@[i], fields, matches) == Some(
                Some(false),
            );
        assert(outcome(args@[k], fields, matches) == Some(Some(false)));
    }
    if meaning(node, fields, matches) is None {
        assert forall|i: int| 0 <= i < args@.len() implies outcome(
            #[trigger] args@[i],
            fields,
            matches,
        ) is None by {
            assert(meaning(args@[i], fields, matches) is None);
        }
    } else {
        let k = choose|i: int|
            0 <= i < args@.len() && !(meaning(#[trigger] args@[i], fields, matches) is None);
        assert(outcome(args@[k], fields, matches) is Some);
    }
    if meaning(node, fields, matches) == Some(Some(true)) {
        assert forall|i: int| 0 <= i < args@.len() implies {
            let said = outcome(#[trigger] args@[i], fields, matches);
            said is None || said == Some(Some(true))
        } by {
            assert(outcome(args@[i], fields, matches) == meaning(args@[i], fields, matches));
        }
    }
    if meaning(node, fields, matches) is Some && forall|i: int|
        0 <= i < args@.len() ==> {
            let said = outcome(#[trigger] args@[i], fields, matches);
            said is None || said == Some(Some(true))
        } {
        assert forall|i: int| 0 <= i < args@.len() implies {
            let said = meaning(#[trigger] args@[i], fields, matches);
            said is None || said == Some(Some(true))
        } by {
            assert(outcome(args@[i], fields, matches) == meaning(args@[i], fields, matches));
        }
    }
}

/// A disjunction takes part where one of its arguments does. It comes to true where
/// one of these comes to true, and to false where all of them come to false. Each
/// argument counts, wherever it stands.
pub proof fn law_disjunctions_come_to_any(
    args: Vec<Qual>,
    fields: Seq<Field>,
    matches: Seq<Option<bool>>,
)
    requires
        well_formed(Qual::Bool { op: BoolOp::Or, args }),
        fields.len() <= i32::MAX,
        matches.len() == fields.len(),
    ensures
        ({
            let whole = outcome(Qual::Bool { op: BoolOp::Or, args }, fields, matches);
            &&& whole is None <==> forall|i: int|
                0 <= i < args@.len() ==> outcome(#[trigger] args@[i], fields, matches) is None
            &&& whole == Some(Some(true)) <==> exists|i: int|
                0 <= i < args@.len() && outcome(#[trigger] args@[i], fields, matches) == Some(
                    Some(true),
                )
            &&& whole == Some(Some(false)) <==> whole is Some && forall|i: int|
                0 <= i < args@.len() ==> {
                    let said = outcome(#[trigger] args@[i], fields, matches);
                    said is None || said == Some(Some(false))
                }
        }),
{
    let node = Qual::Bool { op: BoolOp::Or, args };
    lemma_outcome(node, fields, matches);
    assert forall|i: int| 0 <= i < args@.len() implies outcome(
        #[trigger] args@[i],
        fields,
        matches,
    ) == meaning(args@[i], fields, matches) by {
        lemma_argument_well_formed(args@, i);
        lemma_outcome(args@[i], fields, matches);
    }
    law_disjunction_accepts(args@, fields, matches);
    lemma_connective_false(args@, BoolOp::Or, fields, matches);
    let whole = meaning(node, fields, matches);
    assert(whole == args_meaning(args@, BoolOp::Or, fields, matches));
    if whole == Some(Some(true)) {
        let k = choose|i: int|
            0 <= i < args@.len() && meaning(#[trigger] args@[i], fields, matches) == Some(
                Some(true),
            );
        assert(outcome(args@[k], fields, matches) == Some(Some(true)));
    }
    if exists|i: int|
        0 <= i < args@.len() && outcome(#[trigger] args@[i], fields, matches) == Some(Some(true)) {
        let k = choose|i: int|
            0 <= i < args@.len() && outcome(#[trigger] args@[i], fields, matches) == Some(
                Some(true),
            );
        assert(meaning(args@[k], fields, matches) == Some(Some(true)));
    }
    if whole is None {
        assert forall|i: int| 0 <= i < args@.len() implies outcome(
            #[trigger] args@[i],
            fields,
            matches,
        ) is None by {
            assert(meaning(args@[i], fields, matches) is None);
        }
    } else {
        let k = choose|i: int|
            0 <= i < args@.len() && !(meaning(#[trigger] args@[i], fields, matches) is None);
        assert(outcome(args@[k], fields, matches) is Some);
        if forall|i: int|
            0 <= i < args@.len() ==> {
                let said = outcome(#[trigger] args@[i], fields, matches);
                said is None || said == Some(Some(false))
            } {
            assert(meaning(args@[k], fields, matches) is Some);
            assert forall|i: int| 0 <= i < args@.len() implies {
                let said = meaning(#[trigger] args@[i], fields, matches);
                said is None || said == Some(Some(false))
            } by {
                assert(outcome(args@[i], fields, matches) == meaning(args@[i], fields, matches));
            }
        }
    }
    if whole == Some(Some(false)) {
        assert forall|i: int| 0 <= i < args@.len() implies {
            let said = outcome(#[trigger] args@[i], fields, matches);
            said is None || said == Some(Some(false))
        } by {
            assert(outcome(args@[i], fields, matches) == meaning(args@[i], fields, matches));
        }
    }
}

/// A negation takes part where its argument does, and comes to the opposite; what
/// is NULL stays NULL.
pub proof fn law_negations_come_to_the_opposite(
    args: Vec<Qual>,
    fields: Seq<Field>,
    matches: Seq<Option<bool>>,
)
    requires
        well_formed(Qual::Bool { op: BoolOp::Not, args }),
        fields.len() <= i32::MAX,
        matches.len() == fields.len(),
    ensures
        ({
            let inner = outcome(args@[0], fields, matches);
            let whole = outcome(Qual::Bool { op: BoolOp::Not, args }, fields, matches);
            &&& whole is None <==> inner is None
            &&& whole == Some(Some(true)) <==> inner == Some(Some(false))
            &&& whole == Some(Some(false)) <==> inner == Some(Some(true))
            &&& whole == Some(None::<bool>) <==> inner == Some(None::<bool>)
        }),
{
    let node = Qual::Bool { op: BoolOp::Not, args };
    lemma_outcome(node, fields, matches);
    lemma_argument_well_formed(args@, 0);
    lemma_outcome(args@[0], fields, matches);
    reveal_with_fuel(args_meaning, 2);
    assert(args@.last() == args@[0]);
    assert(args@.drop_last() =~= Seq::<Qual>::empty());
    assert(args_meaning(args@.drop_last(), BoolOp::Not, fields, matches) is None);
    assert(meaning(node, fields, matches) == args_meaning(args@, BoolOp::Not, fields, matches));
}

/// The program of a connective grows at its end: with one argument more, the
/// program of that argument follows, and behind it the connective wherever an
/// argument before it takes part. A negation follows in any case.
pub proof fn law_arguments_are_appended(
    op: BoolOp,
    shorter: Vec<Qual>,
    longer: Vec<Qual>,
    more: Qual,
    fields: Seq<Field>,
)
    requires
        longer@ == shorter@.push(more),
    ensures
        ({
            let before = program(Qual::Bool { op, args: shorter }, fields);
            let after = program(Qual::Bool { op, args: longer }, fields);
            let own = program(more, fields);
            let code = match op {
                BoolOp::And => -1i32,
                BoolOp::Or => -2i32,
                BoolOp::Not => -3i32,
            };
            &&& own is None ==> after == before
            &&& own is Some && before is None && op != BoolOp::Not ==> after == own
            &&& own is Some && before is None && op == BoolOp::Not ==> after == Some(
                own->0 + seq![code],
            )
            &&& own is Some && before is Some ==> after == Some(before->0 + own->0 + seq![code])
        }),
        program(Qual::List { args: longer }, fields) == program(
            Qual::Bool { op: BoolOp::And, args: longer },
            fields,
        ),
{
    assert(longer@.drop_last() =~= shorter@);
    assert(longer@.last() == more);
    let before = program(Qual::Bool { op, args: shorter }, fields);
    let own = program(more, fields);
    let code = match op {
        BoolOp::And => -1i32,
        BoolOp::Or => -2i32,
        BoolOp::Not => -3i32,
    };
    if own is Some {
        assert(own->0.push(code) =~= own->0 + seq![code]);
        if before is Some {
            assert(before->0 + own->0.push(code) =~= before->0 + own->0 + seq![code]);
        }
    }
}

} // verus!
