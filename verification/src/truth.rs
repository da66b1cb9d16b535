//! Postfix Boolean programs over search predicates, with SQL NULL semantics.
//!
//! A program is a list of operations. A non-negative operation pushes the
//! verdict of the search predicate in that slot; the four negative operations
//! are the connectives and the constant. A verdict is `None` where SQL has NULL.

use vstd::prelude::*;

use crate::order::reordered;

verus! {

/// Replaces the two topmost verdicts by their conjunction.
pub const AND: i32 = -1;

/// Replaces the two topmost verdicts by their disjunction.
pub const OR: i32 = -2;

/// Negates the topmost verdict.
pub const NOT: i32 = -3;

/// Pushes a verdict that always holds.
pub const TRUE: i32 = -4;

/// SQL `NOT`.
pub open spec fn sql_not(value: Option<bool>) -> Option<bool> {
    match value {
        Some(v) => Some(!v),
        None => None,
    }
}

/// SQL `AND`: false as soon as one side is, true where both are, else NULL.
pub open spec fn sql_and(left: Option<bool>, right: Option<bool>) -> Option<bool> {
    if left == Some(false) || right == Some(false) {
        Some(false)
    } else if left is None || right is None {
        None
    } else {
        Some(true)
    }
}

/// SQL `OR`: true as soon as one side is, false where both are, else NULL.
pub open spec fn sql_or(left: Option<bool>, right: Option<bool>) -> Option<bool> {
    if left == Some(true) || right == Some(true) {
        Some(true)
    } else if left is None || right is None {
        None
    } else {
        Some(false)
    }
}

/// How many verdicts an operation takes from the stack.
pub open spec fn operands(op: i32) -> nat {
    if op == AND || op == OR {
        2
    } else if op == NOT {
        1
    } else {
        0
    }
}

/// `op` is a connective, the constant, or one of `slots` predicates.
pub open spec fn is_operation(op: i32, slots: nat) -> bool {
    op == AND || op == OR || op == NOT || op == TRUE || 0 <= op < slots
}

/// How many verdicts a program leaves when it starts with none.
pub open spec fn depth(program: Seq<i32>) -> int
    decreases program.len(),
{
    if program.len() == 0 {
        0
    } else {
        depth(program.drop_last()) - operands(program.last()) + 1
    }
}

/// The program names only existing slots and never lacks an operand.
pub open spec fn runs(program: Seq<i32>, slots: nat) -> bool
    decreases program.len(),
{
    program.len() == 0 || {
        &&& runs(program.drop_last(), slots)
        &&& is_operation(program.last(), slots)
        &&& operands(program.last()) <= depth(program.drop_last())
    }
}

/// The stack after one operation.
pub open spec fn step(stack: Seq<Option<bool>>, op: i32, matches: Seq<Option<bool>>) -> Seq<
    Option<bool>,
> {
    if op == TRUE {
        stack.push(Some(true))
    } else if op == NOT {
        stack.drop_last().push(sql_not(stack.last()))
    } else if op == AND {
        stack.drop_last().drop_last().push(sql_and(stack.drop_last().last(), stack.last()))
    } else if op == OR {
        stack.drop_last().drop_last().push(sql_or(stack.drop_last().last(), stack.last()))
    } else {
        stack.push(matches[op as int])
    }
}

/// The stack after a whole program.
pub open spec fn run(
    program: Seq<i32>,
    matches: Seq<Option<bool>>,
    stack: Seq<Option<bool>>,
) -> Seq<Option<bool>>
    decreases program.len(),
{
    if program.len() == 0 {
        stack
    } else {
        step(run(program.drop_last(), matches, stack), program.last(), matches)
    }
}

/// The program ends with a verdict on top of the stack that is true, not NULL.
pub open spec fn holds(program: Seq<i32>, matches: Seq<Option<bool>>) -> bool {
    let stack = run(program, matches, Seq::empty());
    stack.len() > 0 && stack.last() == Some(true)
}

/// Decides whether a row with these verdicts satisfies the program.
pub fn qualifies(condition: &[i32], matches: &[Option<bool>]) -> (accepted: bool)
    requires
        runs(condition@, matches@.len()),
    ensures
        accepted == holds(condition@, matches@),
{
    let mut stack: Vec<Option<bool>> = Vec::new();
    let mut at: usize = 0;
    while at < condition.len()
        invariant
            at <= condition@.len(),
            runs(condition@, matches@.len()),
            stack@ == run(condition@.take(at as int), matches@, Seq::empty()),
            stack@.len() == depth(condition@.take(at as int)),
        decreases condition@.len() - at,
    {
        let op: i32 = condition[at];
        proof {
            lemma_runs_prefix(condition@, matches@.len(), at + 1);
            assert(condition@.take(at + 1).drop_last() =~= condition@.take(at as int));
            assert(condition@.take(at + 1).last() == op);
        }
        if op == TRUE {
            stack.push(Some(true));
        } else if op == NOT {
            let value = stack.pop().unwrap();
            stack.push(negate(value));
        } else if op == AND || op == OR {
            let right = stack.pop().unwrap();
            let left = stack.pop().unwrap();
            let joined = if op == AND {
                both(left, right)
            } else {
                either(left, right)
            };
            stack.push(joined);
        } else {
            stack.push(matches[op as usize]);
        }
        at = at + 1;
    }
    proof {
        assert(condition@.take(at as int) =~= condition@);
    }
    match stack.pop() {
        Some(Some(verdict)) => verdict,
        _ => false,
    }
}

/// Decides whether `qualifies` can run a program over `slots` verdicts.
pub fn program_runs(program: &[i32], slots: usize) -> (ok: bool)
    ensures
        ok == runs(program@, slots as nat),
{
    let mut height: usize = 0;
    let mut at: usize = 0;
    while at < program.len()
        invariant
            at <= program@.len(),
            height <= at,
            runs(program@.take(at as int), slots as nat),
            height == depth(program@.take(at as int)),
        decreases program@.len() - at,
    {
        let op: i32 = program[at];
        proof {
            assert(program@.take(at + 1).drop_last() =~= program@.take(at as int));
            assert(program@.take(at + 1).last() == op);
            if runs(program@, slots as nat) {
                lemma_runs_prefix(program@, slots as nat, at + 1);
            }
        }
        let needed: usize = if op == AND || op == OR {
            2
        } else if op == NOT {
            1
        } else {
            0
        };
        let named = needed > 0 || op == TRUE || (op >= 0 && (op as usize) < slots);
        if !named || height < needed {
            return false;
        }
        height = height - needed + 1;
        at = at + 1;
    }
    proof {
        assert(program@.take(at as int) =~= program@);
    }
    true
}

fn negate(value: Option<bool>) -> (result: Option<bool>)
    ensures
        result == sql_not(value),
{
    match value {
        Some(v) => Some(!v),
        None => None,
    }
}

fn both(left: Option<bool>, right: Option<bool>) -> (result: Option<bool>)
    ensures
        result == sql_and(left, right),
{
    match (left, right) {
        (Some(false), _) | (_, Some(false)) => Some(false),
        (Some(true), Some(true)) => Some(true),
        _ => None,
    }
}

fn either(left: Option<bool>, right: Option<bool>) -> (result: Option<bool>)
    ensures
        result == sql_or(left, right),
{
    match (left, right) {
        (Some(true), _) | (_, Some(true)) => Some(true),
        (Some(false), Some(false)) => Some(false),
        _ => None,
    }
}

/// A program that runs does so on every prefix.
proof fn lemma_runs_prefix(program: Seq<i32>, slots: nat, count: int)
    requires
        runs(program, slots),
        0 <= count <= program.len(),
    ensures
        runs(program.take(count), slots),
    decreases program.len() - count,
{
    if count < program.len() {
        lemma_runs_prefix(program, slots, count + 1);
        assert(program.take(count + 1).drop_last() =~= program.take(count));
    } else {
        assert(program.take(count) =~= program);
    }
}

/// Running a concatenation is running its halves one after the other.
pub proof fn lemma_run_concat(
    first: Seq<i32>,
    second: Seq<i32>,
    matches: Seq<Option<bool>>,
    stack: Seq<Option<bool>>,
)
    ensures
        run(first + second, matches, stack) == run(second, matches, run(first, matches, stack)),
    decreases second.len(),
{
    if second.len() == 0 {
        assert(first + second =~= first);
    } else {
        lemma_run_concat(first, second.drop_last(), matches, stack);
        assert((first + second).drop_last() =~= first + second.drop_last());
        assert((first + second).last() == second.last());
    }
}

/// Depths of a concatenation add up.
pub proof fn lemma_depth_concat(first: Seq<i32>, second: Seq<i32>)
    ensures
        depth(first + second) == depth(first) + depth(second),
    decreases second.len(),
{
    if second.len() == 0 {
        assert(first + second =~= first);
    } else {
        lemma_depth_concat(first, second.drop_last());
        assert((first + second).drop_last() =~= first + second.drop_last());
        assert((first + second).last() == second.last());
    }
}

/// A program that runs on its own also runs after another one.
pub proof fn lemma_runs_concat(first: Seq<i32>, second: Seq<i32>, slots: nat)
    requires
        runs(first, slots),
        runs(second, slots),
        depth(first) >= 0,
    ensures
        runs(first + second, slots),
    decreases second.len(),
{
    if second.len() == 0 {
        assert(first + second =~= first);
    } else {
        lemma_runs_concat(first, second.drop_last(), slots);
        lemma_depth_concat(first, second.drop_last());
        assert((first + second).drop_last() =~= first + second.drop_last());
        assert((first + second).last() == second.last());
    }
}

/// `second` is `first` with its slots renumbered: what `first` calls `order[i]`
/// is slot `i` in `second`. The other operations are the same.
pub open spec fn renumbered(first: Seq<i32>, second: Seq<i32>, order: Seq<int>) -> bool {
    &&& first.len() == second.len()
    &&& forall|k: int|
        0 <= k < second.len() ==> if #[trigger] second[k] >= 0 {
            second[k] < order.len() && first[k] == order[second[k] as int]
        } else {
            is_operation(second[k], 0) && first[k] == second[k]
        }
}

/// A renumbered program does on renumbered verdicts what the program does.
pub proof fn law_renumbered_programs_agree(
    first: Seq<i32>,
    second: Seq<i32>,
    order: Seq<int>,
    matches: Seq<Option<bool>>,
    stack: Seq<Option<bool>>,
)
    requires
        renumbered(first, second, order),
        forall|i: int| 0 <= i < order.len() ==> 0 <= #[trigger] order[i],
    ensures
        ({
            let other = reordered(matches, order);
            &&& run(second, other, stack) == run(first, matches, stack)
            &&& holds(second, other) == holds(first, matches)
        }),
{
    lemma_renumbered_run(first, second, order, matches, stack);
    lemma_renumbered_run(first, second, order, matches, Seq::empty());
}

proof fn lemma_renumbered_run(
    first: Seq<i32>,
    second: Seq<i32>,
    order: Seq<int>,
    matches: Seq<Option<bool>>,
    stack: Seq<Option<bool>>,
)
    requires
        renumbered(first, second, order),
        forall|i: int| 0 <= i < order.len() ==> 0 <= #[trigger] order[i],
    ensures
        run(second, reordered(matches, order), stack) == run(
            first,
            matches,
            stack,
        ),
    decreases first.len(),
{
    if first.len() > 0 {
        let a = first.drop_last();
        let b = second.drop_last();
        assert forall|k: int| 0 <= k < b.len() implies if #[trigger] b[k] >= 0 {
            b[k] < order.len() && a[k] == order[b[k] as int]
        } else {
            is_operation(b[k], 0) && a[k] == b[k]
        } by {
            assert(b[k] == second[k]);
        }
        lemma_renumbered_run(a, b, order, matches, stack);
        assert(second[second.len() - 1] == second.last());
        assert(first[first.len() - 1] == first.last());
        if second.last() >= 0 {
            let slot = second.last() as int;
            assert(0 <= order[slot]);
            assert(reordered(matches, order)[slot] == matches[order[slot]]);
        }
    }
}

/// A row is accepted by a conjunction exactly when both sides accept it.
pub proof fn law_and_accepts(left: Option<bool>, right: Option<bool>)
    ensures
        sql_and(left, right) == Some(true) <==> left == Some(true) && right == Some(true),
        sql_and(left, right) == sql_and(right, left),
{
    match (left, right) {
        (Some(l), Some(r)) => {
            assert(l && r || !l || !r);
        },
        _ => {},
    }
}

/// A row is accepted by a disjunction exactly when one side accepts it.
pub proof fn law_or_accepts(left: Option<bool>, right: Option<bool>)
    ensures
        sql_or(left, right) == Some(true) <==> left == Some(true) || right == Some(true),
        sql_or(left, right) == sql_or(right, left),
{
}

/// A negation accepts a row only where its operand is false: NULL stays NULL.
pub proof fn law_not_keeps_null(value: Option<bool>)
    ensures
        sql_not(value) == Some(true) <==> value == Some(false),
        sql_not(value) is None <==> value is None,
        sql_not(sql_not(value)) == value,
{
}

/// Negation exchanges conjunction and disjunction, NULL included.
pub proof fn law_de_morgan(left: Option<bool>, right: Option<bool>)
    ensures
        sql_not(sql_and(left, right)) == sql_or(sql_not(left), sql_not(right)),
        sql_not(sql_or(left, right)) == sql_and(sql_not(left), sql_not(right)),
{
}

/// The operations by their numbers.
pub proof fn law_operations_have_their_numbers()
    ensures
        AND == -1,
        OR == -2,
        NOT == -3,
        TRUE == -4,
{
}

/// A slot pushes the verdict on its predicate and the constant pushes true. The
/// topmost verdict decides, whatever stands before it; without one, no row is
/// accepted.
pub proof fn law_last_verdict_decides(
    before: Seq<i32>,
    slot: i32,
    matches: Seq<Option<bool>>,
    stack: Seq<Option<bool>>,
)
    requires
        0 <= slot < matches.len(),
    ensures
        run(seq![slot], matches, stack) == stack.push(matches[slot as int]),
        run(seq![-4i32], matches, stack) == stack.push(Some(true)),
        holds(before.push(slot), matches) <==> matches[slot as int] == Some(true),
        holds(before.push(-4i32), matches),
        !holds(Seq::<i32>::empty(), matches),
{
    reveal_with_fuel(run, 2);
    assert(seq![slot].drop_last() =~= Seq::<i32>::empty());
    assert(seq![-4i32].drop_last() =~= Seq::<i32>::empty());
    assert(before.push(slot).drop_last() =~= before);
    assert(before.push(-4i32).drop_last() =~= before);
}

/// Two programs that each come to one verdict, joined by a connective or negated,
/// come to what SQL makes of the verdicts: a conjunction is true where both are and
/// false where one is false, a disjunction is true where one is and false where
/// both are, a negation is true where its operand is false, and all else is NULL.
pub proof fn law_connectives_follow_sql(
    a: Seq<i32>,
    x: Option<bool>,
    b: Seq<i32>,
    y: Option<bool>,
    matches: Seq<Option<bool>>,
    stack: Seq<Option<bool>>,
)
    requires
        forall|below: Seq<Option<bool>>| #[trigger] run(a, matches, below) == below.push(x),
        forall|below: Seq<Option<bool>>| #[trigger] run(b, matches, below) == below.push(y),
    ensures
        holds(a, matches) <==> x == Some(true),
        holds((a + b).push(-1i32), matches) <==> x == Some(true) && y == Some(true),
        holds((a + b).push(-2i32), matches) <==> x == Some(true) || y == Some(true),
        holds(a.push(-3i32), matches) <==> x == Some(false),
        holds((a + b).push(-1i32).push(-3i32), matches) <==> x == Some(false) || y == Some(false),
        holds((a + b).push(-2i32).push(-3i32), matches) <==> x == Some(false) && y == Some(false),
        run((a + b).push(-1i32), matches, stack).drop_last() == stack,
        run((a + b).push(-2i32), matches, stack).drop_last() == stack,
        run(a.push(-3i32), matches, stack).drop_last() == stack,
{
    let none = Seq::<Option<bool>>::empty();
    lemma_run_concat(a, b, matches, none);
    lemma_run_concat(a, b, matches, stack);
    assert(run(b, matches, none.push(x)) == none.push(x).push(y));
    assert(run(b, matches, stack.push(x)) == stack.push(x).push(y));
    lemma_joined_pair(a + b, matches, stack, stack, x, y);
    lemma_joined_pair(a + b, matches, none, none, x, y);
    lemma_negated(a, matches, stack, stack, x);
    lemma_negated(a, matches, none, none, x);
    lemma_negated((a + b).push(-1i32), matches, none, none, sql_and(x, y));
    lemma_negated((a + b).push(-2i32), matches, none, none, sql_or(x, y));
    assert(run(a, matches, none) == none.push(x));
    law_and_accepts(x, y);
    law_or_accepts(x, y);
    lemma_truth_tables(x, y);
    assert(stack.push(sql_and(x, y)).drop_last() =~= stack);
    assert(stack.push(sql_or(x, y)).drop_last() =~= stack);
    assert(stack.push(sql_not(x)).drop_last() =~= stack);
}

/// When a conjunction, a disjunction and a negation are false.
proof fn lemma_truth_tables(x: Option<bool>, y: Option<bool>)
    ensures
        sql_and(x, y) == Some(false) <==> x == Some(false) || y == Some(false),
        sql_or(x, y) == Some(false) <==> x == Some(false) && y == Some(false),
        sql_not(x) == Some(true) <==> x == Some(false),
        sql_not(sql_and(x, y)) == Some(true) <==> sql_and(x, y) == Some(false),
        sql_not(sql_or(x, y)) == Some(true) <==> sql_or(x, y) == Some(false),
{
    match (x, y) {
        (Some(l), Some(r)) => {
            assert(l || !l);
            assert(r || !r);
        },
        _ => {},
    }
}

/// Two verdicts on top of the stack are joined by a connective.
proof fn lemma_joined_pair(
    program: Seq<i32>,
    matches: Seq<Option<bool>>,
    start: Seq<Option<bool>>,
    below: Seq<Option<bool>>,
    x: Option<bool>,
    y: Option<bool>,
)
    requires
        run(program, matches, start) == below.push(x).push(y),
    ensures
        run(program.push(AND), matches, start) == below.push(sql_and(x, y)),
        run(program.push(OR), matches, start) == below.push(sql_or(x, y)),
{
    let top = below.push(x).push(y);
    assert(program.push(AND).drop_last() =~= program);
    assert(program.push(OR).drop_last() =~= program);
    assert(top.drop_last() =~= below.push(x));
    assert(top.drop_last().drop_last() =~= below);
    assert(top.last() == y && top.drop_last().last() == x);
}

/// The verdict on top of the stack is negated.
proof fn lemma_negated(
    program: Seq<i32>,
    matches: Seq<Option<bool>>,
    start: Seq<Option<bool>>,
    below: Seq<Option<bool>>,
    x: Option<bool>,
)
    requires
        run(program, matches, start) == below.push(x),
    ensures
        run(program.push(NOT), matches, start) == below.push(sql_not(x)),
{
    assert(program.push(NOT).drop_last() =~= program);
    assert(below.push(x).drop_last() =~= below);
}

/// The operation at this place is known, and finds the verdicts it needs on the
/// stack that the operations before it leave.
pub open spec fn supplied(program: Seq<i32>, matches: Seq<Option<bool>>, k: int) -> bool {
    let op = program[k];
    let height = run(program.take(k), matches, Seq::empty()).len();
    ||| op == -4
    ||| op == -3 && height >= 1
    ||| (op == -1 || op == -2) && height >= 2
    ||| 0 <= op < matches.len()
}

/// A program runs exactly when each of its operations is supplied.
pub proof fn law_programs_run_while_operands_last(program: Seq<i32>, matches: Seq<Option<bool>>)
    ensures
        runs(program, matches.len()) <==> forall|k: int|
            0 <= k < program.len() ==> #[trigger] supplied(program, matches, k),
        runs(program, matches.len()) ==> run(program, matches, Seq::empty()).len() == depth(program),
    decreases program.len(),
{
    if program.len() > 0 {
        let front = program.drop_last();
        law_programs_run_while_operands_last(front, matches);
        let last = program.len() - 1;
        assert(program.take(last) =~= front);
        assert(program[last] == program.last());
        assert forall|k: int| 0 <= k < front.len() implies #[trigger] supplied(front, matches, k)
            == supplied(program, matches, k) by {
            assert(front.take(k) =~= program.take(k));
            assert(front[k] == program[k]);
        }
        if runs(front, matches.len()) {
            assert(supplied(program, matches, last) <==> is_operation(program.last(), matches.len())
                && operands(program.last()) <= depth(front));
        }
        if forall|k: int| 0 <= k < program.len() ==> #[trigger] supplied(program, matches, k) {
            assert forall|k: int| 0 <= k < front.len() implies #[trigger] supplied(
                front,
                matches,
                k,
            ) by {
                assert(supplied(program, matches, k));
            }
            assert(supplied(program, matches, last));
        }
        if runs(program, matches.len()) {
            assert forall|k: int| 0 <= k < program.len() implies #[trigger] supplied(
                program,
                matches,
                k,
            ) by {
                if k < last {
                    assert(supplied(front, matches, k));
                }
            }
        }
    }
}

} // verus!
