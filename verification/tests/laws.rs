use rustc_hash::FxHashMap;
use tin_search::corpus::ScoreCorpus;
use tin_search::fields::Candidate;
use tin_search::keys::{CacheKey, ScoreRequest, Session, FULL_SCORE};
use tin_search::operator::{
    index_match_support, match_support, search_arguments, IndexArgument, IndexConditionRequest,
    IndexMatchCall, RangeEntry, SearchNode, SimplifyCall, SupportRequest,
};
use tin_search::quals::{BoolOp, Qual, SearchMatch};
use tin_search::rewrite::{rewrite, Argument, FunctionCall, Item, ScoreCall};
use tin_search::scoring::{score_many_bound, IndexDefinition, MultiCorpus};
use tin_search::truth::program_runs;

#[test]
fn bound_predicates_are_searches_of_their_index() {
    let request = SupportRequest::Simplify {
        range_table: Some(vec![RangeEntry { is_relation: true, relid: 5000 }]),
        call: Some(SimplifyCall { args: vec![1, 2], relations: vec![1], input_collation: 100 }),
    };
    let bound = match_support(&request, |_, _, _| Some(600)).unwrap();
    let (document, query, index) = match bound.args.as_slice() {
        [Argument::Node(document), Argument::Node(query), Argument::Oid(index)] => {
            (*document, *query, *index)
        }
        other => panic!("unexpected arguments {:?}", other),
    };
    let node = SearchNode::Function { funcid: 77, index_match: 77, args: vec![document, query, 3] };
    assert_eq!(search_arguments(&node), Some(SearchMatch { document: 1, query: 2 }));
    let offer = |index_oid: u32| {
        let request = SupportRequest::IndexCondition(IndexConditionRequest {
            indexarg: 0,
            indexcol: 0,
            call: Some(IndexMatchCall {
                args: vec![document, query, 3],
                index: IndexArgument::Const { is_null: false, value: index as u64 },
                input_collation: bound.input_collation,
            }),
            index_oid,
        });
        index_match_support(&request, |_| true, |_, _, _| 900)
    };
    let clause = offer(600).unwrap();
    assert_eq!((clause.left, clause.right, clause.input_collation), (1, 2, 100));
    assert!(clause.lossy);
    assert!(offer(601).is_none());
}

/// Columns: the title is expression 1 under index 100, the body expression 2
/// under index 200. The query is expression 10.
fn search(title: bool) -> Candidate {
    let (document, index) = if title { (1, 100) } else { (2, 200) };
    Candidate { document, query: 10, query_text: b"beer".to_vec(), index: Some(index) }
}

fn clause(title: bool) -> Qual {
    let document = if title { 1 } else { 2 };
    Qual::Clause { found: vec![SearchMatch { document, query: 10 }] }
}

fn numbers(argument: &Argument) -> Vec<i32> {
    match argument {
        Argument::Array { items, .. } => items
            .iter()
            .map(|item| match item {
                Item::Int4(value) => *value,
                Item::Node(_) => panic!("not a number"),
            })
            .collect(),
        _ => panic!("not an array"),
    }
}

fn number(argument: &Argument) -> i32 {
    match argument {
        Argument::Int4(value) => *value,
        _ => panic!("not a number"),
    }
}

/// The request that the server makes of a bound call for a row.
fn receive(call: &FunctionCall, title: Option<&str>, body: Option<&str>) -> ScoreRequest {
    let documents = match &call.args[0] {
        Argument::Array { items, .. } => items
            .iter()
            .map(|item| match item {
                Item::Node(1) => title.map(|text| text.to_string()),
                _ => body.map(|text| text.to_string()),
            })
            .collect(),
        _ => panic!("not an array"),
    };
    ScoreRequest {
        documents,
        queries: vec![Some("beer".to_string()), Some("beer".to_string())],
        heap_oid: number(&call.args[2]),
        indexes: numbers(&call.args[3]),
        mode: number(&call.args[4]),
        condition: numbers(&call.args[5]),
        dense_ratio: None,
        k1: None,
        b: None,
        term_add: None,
        term_replace: None,
    }
}

const TABLE: [(Option<&str>, Option<&str>); 5] = [
    (Some("beer"), Some("water")),
    (Some("water"), Some("beer")),
    (Some("beer"), Some("beer")),
    (None, Some("beer")),
    (Some("beer"), None),
];

fn ask(cache: &mut Option<MultiCorpus>, given: &ScoreRequest) -> f32 {
    assert!(program_runs(&given.condition, given.indexes.len()));
    let session = Session { transaction: 1, command: 1, default_dense_ratio: 0 };
    let bits = score_many_bound(
        cache,
        given,
        &session,
        &(
            |_: &CacheKey| {
                let mut by_document = FxHashMap::default();
                by_document.insert("beer".to_string(), 0.5f32.to_bits());
                by_document.insert("water".to_string(), 8.0f32.to_bits());
                ScoreCorpus { by_document }
            },
            |index: u32| index,
            |query: &String, _: &u32| -> Result<String, String> { Ok(query.clone()) },
            |text: &String, _: &u32| text.clone(),
            |query: &String, text: &String| -> Result<bool, String> { Ok(query == text) },
        ),
        (
            |_: u32, index: u32| IndexDefinition {
                expression: if index == 100 { "title" } else { "body" }.to_string(),
                predicate: None,
            },
            |_: u32| "t".to_string(),
            |statement: &String| -> Result<Vec<Vec<Option<String>>>, String> {
                assert_eq!(statement, "SELECT ARRAY[(title)::text, (body)::text] FROM t");
                Ok(TABLE
                    .iter()
                    .map(|(title, body)| {
                        vec![title.map(|text| text.to_string()), body.map(|text| text.to_string())]
                    })
                    .collect())
            },
            |parts: &Vec<u32>| {
                parts.iter().fold(0.0f32, |sum, &bits| sum + f32::from_bits(bits)).to_bits()
            },
        ),
    );
    f32::from_bits(bits.unwrap())
}

#[test]
fn cross_column_scores_include_each_matching_column() {
    for flipped in [false, true] {
        let matches = [search(!flipped), search(flipped)];
        let quals =
            Qual::Bool { op: BoolOp::Or, args: vec![clause(!flipped), clause(flipped)] };
        let call = ScoreCall { name: b"full_score".to_vec(), argument_count: 1 };
        let bound = rewrite(&call, 5000, &matches, &quals, |_| false).unwrap();
        let mut cache = None;
        let found: Vec<f32> = TABLE
            .iter()
            .map(|(title, body)| ask(&mut cache, &receive(&bound, *title, *body)))
            .collect();
        assert_eq!(found, vec![0.5, 0.5, 1.0, 0.5, 0.5]);
        let request = receive(&bound, None, None);
        assert_eq!((request.mode, request.heap_oid), (FULL_SCORE, 5000));
        assert_eq!(request.indexes, vec![100, 200]);
    }
}

#[test]
fn cross_column_maximum_is_over_matching_rows() {
    let not_body = || Qual::Bool { op: BoolOp::Not, args: vec![clause(false)] };
    let cases = [
        (Qual::Bool { op: BoolOp::Or, args: vec![clause(true), clause(false)] }, 1.0),
        (Qual::List { args: vec![clause(true), clause(false)] }, 1.0),
        (Qual::List { args: vec![clause(true), not_body()] }, 0.5),
        (Qual::List { args: vec![not_body(), Qual::Bool { op: BoolOp::Not, args: vec![clause(true)] }] }, 0.0),
    ];
    for (quals, expected) in cases {
        let call = ScoreCall { name: b"max_score".to_vec(), argument_count: 1 };
        let matches = [search(true), search(false)];
        let bound = rewrite(&call, 5000, &matches, &quals, |document| {
            assert_eq!(document, 1);
            true
        })
        .unwrap();
        let mut cache = None;
        assert_eq!(ask(&mut cache, &receive(&bound, None, None)), expected);
    }
}
