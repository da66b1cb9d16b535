use tin_search::operator::{
    evaluate_text, index_match_support, match_support, report, search_arguments,
    text_matches_index, tin_text_cmpfunc, ImplicitOp, IndexArgument, IndexConditionRequest, IndexMatchCall,
    MatchError, RangeEntry, SearchNode, SimplifyCall, SupportRequest,
};
use tin_search::quals::SearchMatch;
use tin_search::rewrite::Argument;

/// A small search engine: words, phrases, prefixes, one edit, and conjunction.
enum Words {
    All,
    Term(String),
    Prefix(String),
    Fuzzy(String),
    Phrase(Vec<String>),
    And(Box<Words>, Box<Words>),
}

fn cut(text: &str) -> Vec<String> {
    text.split(|c: char| !c.is_alphanumeric())
        .filter(|word| !word.is_empty())
        .map(|word| word.to_lowercase())
        .collect()
}

fn read(text: &str) -> Result<Words, String> {
    if let Some((left, right)) = text.split_once(" AND ") {
        return Ok(Words::And(Box::new(read(left)?), Box::new(read(right)?)));
    }
    if text.ends_with(" OR") || text.is_empty() {
        return Err(format!("unexpected end of query: {}", text));
    }
    if text == "*" {
        return Ok(Words::All);
    }
    if let Some(inner) = text.strip_prefix('"').and_then(|rest| rest.strip_suffix('"')) {
        return Ok(Words::Phrase(cut(inner)));
    }
    if let Some(prefix) = text.strip_suffix('*') {
        return Ok(Words::Prefix(prefix.to_lowercase()));
    }
    if let Some(word) = text.strip_suffix("~1") {
        return Ok(Words::Fuzzy(word.to_lowercase()));
    }
    Ok(Words::Term(text.to_lowercase()))
}

fn one_edit(a: &str, b: &str) -> bool {
    let (a, b): (Vec<char>, Vec<char>) = (a.chars().collect(), b.chars().collect());
    a.len() == b.len() && a.iter().zip(&b).filter(|(x, y)| x != y).count() <= 1
}

fn found(query: &Words, tokens: &Vec<String>) -> bool {
    match query {
        Words::All => !tokens.is_empty(),
        Words::Term(word) => tokens.contains(word),
        Words::Prefix(prefix) => tokens.iter().any(|token| token.starts_with(prefix.as_str())),
        Words::Fuzzy(word) => tokens.iter().any(|token| one_edit(token, word)),
        Words::Phrase(words) => tokens.windows(words.len()).any(|window| window == words.as_slice()),
        Words::And(left, right) => found(left, tokens) && found(right, tokens),
    }
}

fn search(document: &str, query: &str) -> Result<bool, String> {
    evaluate_text(
        document,
        query,
        &(),
        (
            |text: &str, op: ImplicitOp| {
                assert_eq!(op, ImplicitOp::And);
                read(text)
            },
            |parsed: Words, _: &()| -> Result<Words, String> { Ok(parsed) },
            |analyzed: &Words| -> Result<Vec<Words>, String> { Ok(vec![again(analyzed)]) },
            |text: &str, _: &()| cut(text),
            |lowered: &Vec<Words>, tokens: &Vec<String>| -> Result<bool, String> {
                Ok(found(&lowered[0], tokens))
            },
        ),
    )
}

fn again(query: &Words) -> Words {
    match query {
        Words::All => Words::All,
        Words::Term(word) => Words::Term(word.clone()),
        Words::Prefix(prefix) => Words::Prefix(prefix.clone()),
        Words::Fuzzy(word) => Words::Fuzzy(word.clone()),
        Words::Phrase(words) => Words::Phrase(words.clone()),
        Words::And(left, right) => Words::And(Box::new(again(left)), Box::new(again(right))),
    }
}

#[test]
fn boolean_and_positional_queries_are_exact() {
    assert!(search("A craft beer bar", "craft AND beer").unwrap());
    assert!(search("A craft beer bar", "\"craft beer\"").unwrap());
    assert!(!search("Beer for craft fans", "\"craft beer\"").unwrap());
}

#[test]
fn expansions_use_the_document_term_universe() {
    assert!(search("brewhouse", "brew*").unwrap());
    assert!(search("jalapeno", "jalapeño~1").unwrap());
    assert!(!search("winery", "brew*").unwrap());
}

#[test]
fn empty_documents_do_not_match_match_all() {
    assert!(!search("...", "*").unwrap());
}

#[test]
fn invalid_queries_are_reported() {
    assert!(search("beer", "beer OR").is_err());
}

/// Runs the operator with stages that fail from `stage` on.
fn failing(stage: u32) -> Result<bool, MatchError> {
    let at = move |n: u32| -> Result<u32, String> {
        if n >= stage {
            Err(format!("stage {}", n))
        } else {
            Ok(n)
        }
    };
    tin_text_cmpfunc(
        "document",
        "query",
        &9u8,
        (
            move |text: &str, op: ImplicitOp| {
                assert_eq!((text, op), ("query", ImplicitOp::And));
                at(1)
            },
            move |parsed: u32, pipeline: &u8| {
                assert_eq!((parsed, *pipeline), (1, 9));
                at(2)
            },
            move |analyzed: &u32| {
                assert_eq!(*analyzed, 2);
                at(3)
            },
            |text: &str, pipeline: &u8| {
                assert_eq!((text, *pipeline), ("document", 9));
                40u32
            },
            move |query: &u32, tokens: &u32| -> Result<bool, String> {
                assert_eq!((*query, *tokens), (3, 40));
                at(4).map(|_| true)
            },
        ),
    )
}

#[test]
fn the_first_failing_stage_is_reported() {
    for stage in 1..=4 {
        let error = failing(stage).unwrap_err();
        assert_eq!(error, MatchError::InvalidQuery(format!("stage {}", stage)));
        assert_eq!(error.message(), format!("invalid ==> query: stage {}", stage));
    }
    assert_eq!(failing(5), Ok(true));
}

#[test]
fn outcomes_are_reported() {
    assert_eq!(report(Ok(false)), Ok(false));
    assert_eq!(report(Err("e".to_string())), Err(MatchError::InvalidQuery("e".to_string())));
}

fn bound_search(index_am: u32, query: &str) -> Result<bool, MatchError> {
    text_matches_index(
        "craft beer",
        query,
        index_am,
        500,
        || {
            assert_eq!(index_am, 500);
            7u8
        },
        (
            |text: &str, pipeline: &u8| {
                assert_eq!(*pipeline, 7);
                read(text)
            },
            |text: &str, _: &u8| cut(text),
            |parsed: &Words, tokens: &Vec<String>| -> Result<bool, String> {
                if tokens.len() > 2 {
                    return Err("too long".to_string());
                }
                Ok(found(parsed, tokens))
            },
        ),
    )
}

#[test]
fn bound_predicates_need_their_kind_of_index() {
    let error = bound_search(403, "beer").unwrap_err();
    assert_eq!(error, MatchError::NotTinIndex);
    assert_eq!(error.message(), "text_matches_index requires a tin index");
    assert_eq!(bound_search(500, "beer"), Ok(true));
    assert_eq!(bound_search(500, "wine"), Ok(false));
    assert!(bound_search(500, "beer OR").unwrap_err().message().starts_with("invalid ==> query: "));
}

fn operator(name: Option<&str>, args: &[u64]) -> SearchNode {
    SearchNode::Operator { name: name.map(|text| text.as_bytes().to_vec()), args: args.to_vec() }
}

fn function(funcid: u32, args: &[u64]) -> SearchNode {
    SearchNode::Function { funcid, index_match: 77, args: args.to_vec() }
}

#[test]
fn searches_are_read_from_both_forms() {
    let expected = Some(SearchMatch { document: 1, query: 2 });
    assert_eq!(search_arguments(&operator(Some("==>"), &[1, 2])), expected);
    assert_eq!(search_arguments(&function(77, &[1, 2, 3])), expected);
    assert_eq!(search_arguments(&operator(Some("="), &[1, 2])), None);
    assert_eq!(search_arguments(&operator(None, &[1, 2])), None);
    assert_eq!(search_arguments(&operator(Some("==>"), &[1])), None);
    assert_eq!(search_arguments(&function(78, &[1, 2, 3])), None);
    assert_eq!(search_arguments(&function(77, &[])), None);
    assert_eq!(search_arguments(&SearchNode::Absent), None);
    assert_eq!(search_arguments(&SearchNode::Other), None);
}

fn simplify(relations: &[i32], table: &[RangeEntry]) -> SupportRequest {
    SupportRequest::Simplify {
        range_table: Some(table.to_vec()),
        call: Some(SimplifyCall {
            args: vec![1, 2],
            relations: relations.to_vec(),
            input_collation: 100,
        }),
    }
}

const TABLE: [RangeEntry; 2] = [
    RangeEntry { is_relation: false, relid: 0 },
    RangeEntry { is_relation: true, relid: 5000 },
];

#[test]
fn operators_are_bound_to_the_index_of_their_table() {
    let bound = match_support(&simplify(&[2], &TABLE), |relid, varno, document| {
        assert_eq!((relid, varno, document), (5000, 2, 1));
        Some(600)
    })
    .unwrap();
    assert_eq!(bound.function.name, "tin.text_matches_index");
    assert_eq!(bound.result_type, 16);
    assert_eq!(bound.args, vec![Argument::Node(1), Argument::Node(2), Argument::Oid(600)]);
    assert_eq!((bound.collation, bound.input_collation), (0, 100));
    assert!(match_support(&simplify(&[2], &TABLE), |_, _, _| None).is_none());
}

#[test]
fn other_calls_are_left_alone() {
    let never = |_: u32, _: i32, _: u64| -> Option<u32> { panic!("no index is looked for") };
    let requests = vec![
        simplify(&[], &TABLE),
        simplify(&[1, 2], &TABLE),
        simplify(&[1], &TABLE),
        simplify(&[0], &TABLE),
        simplify(&[-1], &TABLE),
        simplify(&[3], &TABLE),
        SupportRequest::Simplify { range_table: None, call: None },
        SupportRequest::Absent,
        SupportRequest::Other,
    ];
    for request in &requests {
        assert!(match_support(request, never).is_none());
    }
}

fn condition(indexarg: i32, indexcol: i32, index: IndexArgument) -> SupportRequest {
    SupportRequest::IndexCondition(IndexConditionRequest {
        indexarg,
        indexcol,
        call: Some(IndexMatchCall { args: vec![1, 2, 3], index, input_collation: 100 }),
        index_oid: 600,
    })
}

fn constant(value: u64) -> IndexArgument {
    IndexArgument::Const { is_null: false, value }
}

fn derived(request: &SupportRequest, is_constant: bool, operator: u32) -> bool {
    index_match_support(
        request,
        |node| {
            assert_eq!(node, 2);
            is_constant
        },
        |left, right, strategy| {
            assert_eq!((left, right, strategy), (25, 25, 1));
            operator
        },
    )
    .is_some()
}

#[test]
fn index_conditions_are_lossy() {
    let clause = index_match_support(
        &condition(0, 0, constant(600)),
        |_| true,
        |_, _, _| 900,
    )
    .unwrap();
    assert_eq!((clause.operator, clause.result_type), (900, 16));
    assert_eq!((clause.left, clause.right), (1, 2));
    assert_eq!((clause.collation, clause.input_collation), (0, 100));
    assert!(clause.lossy);
    assert!(!clause.returns_set);
}

#[test]
fn index_conditions_are_for_the_bound_index_only() {
    assert!(derived(&condition(0, 0, constant(600)), true, 900));
    assert!(derived(&condition(0, 0, constant(0x1_0000_0000 + 600)), true, 900));
    assert!(!derived(&condition(0, 0, constant(601)), true, 900));
    assert!(!derived(&condition(1, 0, constant(600)), true, 900));
    assert!(!derived(&condition(0, 1, constant(600)), true, 900));
    assert!(!derived(&condition(0, 0, IndexArgument::Other), true, 900));
    let null = IndexArgument::Const { is_null: true, value: 600 };
    assert!(!derived(&condition(0, 0, null), true, 900));
    assert!(!derived(&condition(0, 0, constant(600)), false, 900));
    assert!(!derived(&condition(0, 0, constant(600)), true, 0));
    let no_call = SupportRequest::IndexCondition(IndexConditionRequest {
        indexarg: 0,
        indexcol: 0,
        call: None,
        index_oid: 600,
    });
    assert!(!derived(&no_call, true, 900));
    assert!(!derived(&SupportRequest::Other, true, 900));
}

#[test]
fn bound_predicates_decide_as_the_operator() {
    for document in ["craft beer", "wine", "beer festival", ""] {
        for query in ["beer", "craft AND beer", "*", "fest*", "beer OR"] {
            let operator = report(search(document, query));
            let bound = text_matches_index(
                document,
                query,
                500,
                500,
                || (),
                (
                    |text: &str, _: &()| read(text),
                    |text: &str, _: &()| cut(text),
                    |parsed: &Words, tokens: &Vec<String>| -> Result<bool, String> {
                        Ok(found(parsed, tokens))
                    },
                ),
            );
            assert_eq!(bound, operator);
        }
    }
    assert_eq!(search("craft beer", "beer"), Ok(true));
    assert_eq!(search("wine", "beer"), Ok(false));
    assert_eq!(search("beer festival", "beer"), Ok(true));
}
