use tin_search::catalog::{
    is_named, lookup, lookup_index_match, FLOAT4OID, INT4ARRAYOID, INT4OID, OIDOID, TEXTARRAYOID,
    TEXTOID,
};
use tin_search::fields::{bind_fields, Candidate};
use tin_search::keys::{FULL_SCORE, MAX_FULL_SCORE, MAX_SCORE, SCORE};
use tin_search::quals::{BoolOp, Field, Qual, SearchMatch};
use tin_search::rewrite::{
    array, bind_call, is_full_score, rewrite, ArgNode, Argument, CallNode, FunctionCall, Item,
    ScoreCall,
};
use tin_search::truth::{OR, TRUE};

fn candidate(document: u64, query: u64, text: &str, index: Option<u32>) -> Candidate {
    Candidate { document, query, query_text: text.as_bytes().to_vec(), index }
}

fn field(document: u64, query: u64, index: u32) -> Field {
    Field { document, query, index }
}

fn call(name: &str, argument_count: usize) -> ScoreCall {
    ScoreCall { name: name.as_bytes().to_vec(), argument_count }
}

fn either() -> Qual {
    let clause = |document, query| Qual::Clause { found: vec![SearchMatch { document, query }] };
    Qual::Bool { op: BoolOp::Or, args: vec![clause(1, 10), clause(2, 20)] }
}

fn title_and_body() -> Vec<Candidate> {
    vec![candidate(1, 10, "beer", Some(200)), candidate(2, 20, "beer", Some(100))]
}

#[test]
fn fields_need_two_indexes() {
    assert_eq!(bind_fields(&[]), None);
    assert_eq!(bind_fields(&[candidate(1, 10, "a", Some(100))]), None);
    assert_eq!(
        bind_fields(&[candidate(1, 10, "a", Some(100)), candidate(2, 20, "b", None)]),
        None
    );
    assert_eq!(
        bind_fields(&[candidate(1, 10, "a", Some(100)), candidate(1, 20, "b", Some(100))]),
        None
    );
}

#[test]
fn fields_are_ordered_by_index_then_query() {
    let found = bind_fields(&[
        candidate(2, 30, "b", Some(200)),
        candidate(1, 20, "ab", Some(100)),
        candidate(9, 90, "zz", None),
        candidate(2, 40, "", Some(200)),
        candidate(1, 10, "a", Some(100)),
    ])
    .unwrap();
    assert_eq!(
        found,
        vec![field(1, 10, 100), field(1, 20, 100), field(2, 40, 200), field(2, 30, 200)]
    );
}

#[test]
fn clause_order_does_not_matter() {
    let one = bind_fields(&title_and_body()).unwrap();
    let mut swapped = title_and_body();
    swapped.reverse();
    assert_eq!(one, bind_fields(&swapped).unwrap());
    assert_eq!(one, vec![field(2, 20, 100), field(1, 10, 200)]);
}

#[test]
fn ties_keep_query_order_and_repeats_are_dropped() {
    let found = bind_fields(&[
        candidate(3, 30, "q", Some(100)),
        candidate(1, 10, "q", Some(100)),
        candidate(2, 10, "q", Some(100)),
        candidate(4, 10, "q", Some(200)),
    ])
    .unwrap();
    assert_eq!(found, vec![field(3, 30, 100), field(1, 10, 100), field(4, 10, 200)]);
}

#[test]
fn only_adjacent_repeats_are_dropped() {
    let found = bind_fields(&[
        candidate(1, 10, "a", Some(100)),
        candidate(1, 20, "b", Some(100)),
        candidate(1, 10, "c", Some(100)),
        candidate(2, 10, "a", Some(200)),
    ])
    .unwrap();
    assert_eq!(
        found,
        vec![field(1, 10, 100), field(1, 20, 100), field(1, 10, 100), field(2, 10, 200)]
    );
}

fn nodes(ids: &[u64]) -> Argument {
    array(ids.iter().map(|&id| Item::Node(id)).collect(), TEXTOID, TEXTARRAYOID)
}

fn ints(values: &[i32]) -> Argument {
    array(values.iter().map(|&value| Item::Int4(value)).collect(), INT4OID, INT4ARRAYOID)
}

fn null(type_oid: u32) -> Argument {
    Argument::Null { type_oid }
}

fn never(_document: u64) -> bool {
    panic!("no full score is looked for")
}

#[test]
fn plain_scores_keep_their_parameters() {
    let bound = rewrite(&call("score", 6), 5000, &title_and_body(), &either(), never).unwrap();
    assert_eq!(bound.function, lookup());
    assert_eq!(bound.result_type, FLOAT4OID);
    assert_eq!((bound.collation, bound.input_collation), (0, 0));
    assert_eq!(
        bound.args,
        vec![
            nodes(&[2, 1]),
            nodes(&[20, 10]),
            Argument::Int4(5000),
            ints(&[100, 200]),
            Argument::Int4(SCORE),
            ints(&[1, 0, OR]),
            Argument::Copied(1),
            Argument::Copied(2),
            Argument::Copied(3),
            Argument::Copied(4),
            Argument::Copied(5),
        ]
    );
}

#[test]
fn full_scores_keep_two_numbers_where_they_have_them() {
    let with = rewrite(&call("full_score", 3), 1, &title_and_body(), &either(), never).unwrap();
    assert_eq!(with.args[4], Argument::Int4(FULL_SCORE));
    assert_eq!(
        with.args[6..],
        [
            null(FLOAT4OID),
            Argument::Copied(1),
            Argument::Copied(2),
            null(TEXTARRAYOID),
            null(TEXTARRAYOID),
        ]
    );
    let without = rewrite(&call("full_score", 1), 1, &title_and_body(), &either(), never).unwrap();
    assert_eq!(
        without.args[6..],
        [
            null(FLOAT4OID),
            null(FLOAT4OID),
            null(FLOAT4OID),
            null(TEXTARRAYOID),
            null(TEXTARRAYOID),
        ]
    );
}

#[test]
fn greatest_score_follows_the_policy_of_the_query() {
    let full = rewrite(&call("max_score", 1), 1, &title_and_body(), &either(), |document| {
        assert_eq!(document, 2);
        true
    })
    .unwrap();
    assert_eq!(full.args[4], Argument::Int4(MAX_FULL_SCORE));
    let plain = rewrite(&call("max_score", 1), 1, &title_and_body(), &either(), |_| false).unwrap();
    assert_eq!(plain.args[4], Argument::Int4(MAX_SCORE));
    assert_eq!(plain.args.len(), lookup().argument_types.len());
}

#[test]
fn conditions_without_fields_accept_all_rows() {
    let bound = bind_call(
        &call("full_score", 1),
        1,
        &[field(1, 10, 100), field(2, 20, 200)],
        &Qual::Absent,
        false,
    );
    assert_eq!(bound.args[5], ints(&[TRUE]));
}

#[test]
fn single_columns_are_not_rewritten() {
    let one = [candidate(1, 10, "beer", Some(100))];
    assert_eq!(rewrite(&call("score", 6), 1, &one, &either(), never), None);
}

#[test]
fn large_object_numbers_pass_as_signed() {
    let bound = bind_call(
        &call("full_score", 1),
        0xffff_fffe,
        &[field(1, 10, 0x8000_0000), field(2, 20, 7)],
        &Qual::Absent,
        false,
    );
    assert_eq!(bound.args[2], Argument::Int4(-2));
    assert_eq!(bound.args[3], ints(&[i32::MIN, 7]));
}

/// The node that the server makes of a bound call.
fn shown(bound: &FunctionCall, funcid: u32) -> CallNode {
    let args = bound
        .args
        .iter()
        .map(|arg| match arg {
            Argument::Int4(value) => ArgNode::Const { value: *value as i64 as u64 },
            Argument::Array { items, .. } => ArgNode::Array {
                elements: items
                    .iter()
                    .map(|item| match item {
                        Item::Node(id) => *id,
                        Item::Int4(value) => 1_000_000 + *value as u64,
                    })
                    .collect(),
            },
            _ => ArgNode::Other,
        })
        .collect();
    CallNode { funcid, args }
}

#[test]
fn rewritten_full_scores_are_recognized() {
    let full = rewrite(&call("full_score", 1), 1, &title_and_body(), &either(), never).unwrap();
    let node = shown(&full, 77);
    assert!(is_full_score(&node, 77, 1));
    assert!(is_full_score(&node, 77, 2));
    assert!(!is_full_score(&node, 77, 3));
    assert!(!is_full_score(&node, 78, 1));
    let plain = rewrite(&call("score", 6), 1, &title_and_body(), &either(), never).unwrap();
    assert!(!is_full_score(&shown(&plain, 77), 77, 1));
    let max = rewrite(&call("max_score", 1), 1, &title_and_body(), &either(), |_| true).unwrap();
    assert!(!is_full_score(&shown(&max, 77), 77, 1));
}

#[test]
fn full_scores_need_a_constant_and_an_array() {
    let other = CallNode {
        funcid: 77,
        args: vec![
            ArgNode::Array { elements: vec![1] },
            ArgNode::Other,
            ArgNode::Other,
            ArgNode::Other,
            ArgNode::Other,
        ],
    };
    assert!(!is_full_score(&other, 77, 1));
    let no_array = CallNode {
        funcid: 77,
        args: vec![
            ArgNode::Other,
            ArgNode::Other,
            ArgNode::Other,
            ArgNode::Other,
            ArgNode::Const { value: 1 },
        ],
    };
    assert!(!is_full_score(&no_array, 77, 1));
}

#[test]
fn functions_are_looked_up_by_name_and_types() {
    let bound = lookup();
    assert_eq!(bound.name, "tin.score_many_bound");
    assert_eq!(
        bound.argument_types,
        vec![1009, 1009, 23, 1007, 23, 1007, 700, 700, 700, 1009, 1009]
    );
    let search = lookup_index_match();
    assert_eq!(search.name, "tin.text_matches_index");
    assert_eq!(search.argument_types, vec![TEXTOID, TEXTOID, OIDOID]);
}

#[test]
fn names_are_compared_byte_by_byte() {
    assert!(is_named(&b"==>".to_vec(), "==>"));
    assert!(!is_named(&b"==".to_vec(), "==>"));
    assert!(!is_named(&b"=>>".to_vec(), "==>"));
    assert!(is_named(&Vec::new(), ""));
}
