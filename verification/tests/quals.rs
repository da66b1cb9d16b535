use tin_search::quals::{condition, BoolOp, Field, Qual, SearchMatch};
use tin_search::truth::{program_runs, qualifies, AND, NOT, OR};

fn field(document: u64, query: u64, index: u32) -> Field {
    Field { document, query, index }
}

fn clause(document: u64, query: u64) -> Qual {
    Qual::Clause { found: vec![SearchMatch { document, query }] }
}

fn compile(node: &Qual, fields: &[Field]) -> Option<Vec<i32>> {
    let mut out: Vec<i32> = Vec::new();
    let contributes = condition(node, fields, &mut out);
    if contributes {
        Some(out)
    } else {
        assert!(out.is_empty());
        None
    }
}

fn two() -> Vec<Field> {
    vec![field(1, 10, 100), field(2, 20, 200)]
}

#[test]
fn clauses_become_slots() {
    assert_eq!(compile(&clause(1, 10), &two()), Some(vec![0]));
    assert_eq!(compile(&clause(2, 20), &two()), Some(vec![1]));
    assert_eq!(compile(&clause(1, 20), &two()), None);
    assert_eq!(compile(&Qual::Absent, &two()), None);
}

#[test]
fn first_of_equal_fields_is_taken() {
    let fields = vec![field(1, 10, 100), field(1, 10, 300)];
    assert_eq!(compile(&clause(1, 10), &fields), Some(vec![0]));
}

#[test]
fn clauses_with_several_searches_are_left_out() {
    let both = Qual::Clause {
        found: vec![
            SearchMatch { document: 1, query: 10 },
            SearchMatch { document: 2, query: 20 },
        ],
    };
    assert_eq!(compile(&both, &two()), None);
    assert_eq!(compile(&Qual::Clause { found: vec![] }, &two()), None);
}

#[test]
fn connectives_follow_their_operands() {
    let or = Qual::Bool { op: BoolOp::Or, args: vec![clause(1, 10), clause(2, 20)] };
    assert_eq!(compile(&or, &two()), Some(vec![0, 1, OR]));
    let list = Qual::List { args: vec![clause(1, 10), clause(2, 20), clause(1, 10)] };
    assert_eq!(compile(&list, &two()), Some(vec![0, 1, AND, 0, AND]));
    let and_not = Qual::Bool {
        op: BoolOp::And,
        args: vec![
            clause(1, 10),
            Qual::Bool { op: BoolOp::Not, args: vec![clause(2, 20)] },
        ],
    };
    assert_eq!(compile(&and_not, &two()), Some(vec![0, 1, NOT, AND]));
}

#[test]
fn other_filters_do_not_contribute() {
    let other = || Qual::Clause { found: vec![] };
    let list = Qual::List {
        args: vec![
            other(),
            Qual::Bool { op: BoolOp::Not, args: vec![other()] },
            Qual::Bool { op: BoolOp::Or, args: vec![other(), clause(2, 20)] },
            Qual::List { args: vec![] },
        ],
    };
    assert_eq!(compile(&list, &two()), Some(vec![1]));
    assert_eq!(compile(&Qual::List { args: vec![other(), Qual::Absent] }, &two()), None);
}

#[test]
fn output_is_appended() {
    let mut out = vec![7];
    assert!(condition(&clause(2, 20), &two(), &mut out));
    assert_eq!(out, vec![7, 1]);
}

#[test]
fn programs_compute_the_condition() {
    let node = Qual::Bool {
        op: BoolOp::And,
        args: vec![
            Qual::Bool { op: BoolOp::Not, args: vec![clause(1, 10)] },
            clause(2, 20),
        ],
    };
    let program = compile(&node, &two()).unwrap();
    assert!(program_runs(&program, 2));
    assert!(qualifies(&program, &[Some(false), Some(true)]));
    assert!(!qualifies(&program, &[None, Some(true)]));
    assert!(!qualifies(&program, &[Some(true), Some(true)]));
    assert!(!qualifies(&program, &[Some(false), None]));
}
