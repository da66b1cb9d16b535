use std::cell::{Cell, RefCell};

use rustc_hash::{FxHashMap, FxHashSet};
use tin_search::collections::in_any;
use tin_search::corpus::{
    build_fields, combine_keys, group_slots, settle_group, FieldCorpora, ScoreCorpus,
};
use tin_search::keys::{
    copy_key, request_slots, same_key, same_slots, CacheKey, ScoreError, ScoreRequest, Session,
    Slot, FULL_SCORE, MAX_FULL_SCORE, MAX_SCORE, SCORE,
};
use tin_search::scoring::{
    row_parts, row_verdicts, scan_statement, score_many_bound, table_rows, IndexDefinition,
    MultiCorpus,
};
use tin_search::single::maximum;
use tin_search::text::{enclose, join, prefixed, same_terms, same_texts};
use tin_search::truth::{AND, NOT, OR, TRUE};

type Row = Vec<Option<String>>;

fn some(text: &str) -> Option<String> {
    Some(text.to_string())
}

fn texts(words: &[&str]) -> Vec<String> {
    words.iter().map(|word| word.to_string()).collect()
}

fn scores(entries: &[(&str, f32)]) -> FxHashMap<String, u32> {
    entries.iter().map(|(text, score)| (text.to_string(), score.to_bits())).collect()
}

fn set(words: &[&str]) -> FxHashSet<String> {
    words.iter().map(|word| word.to_string()).collect()
}

fn request(mode: i32, documents: Row, queries: Row, indexes: &[i32], condition: &[i32]) -> ScoreRequest {
    ScoreRequest {
        documents,
        queries,
        heap_oid: 5000,
        indexes: indexes.to_vec(),
        mode,
        condition: condition.to_vec(),
        dense_ratio: None,
        k1: Some(3),
        b: None,
        term_add: Some(texts(&["wine"])),
        term_replace: None,
    }
}

const SESSION: Session = Session { transaction: 11, command: 12, default_dense_ratio: 13 };

#[test]
fn greater_numbers_are_found_by_their_bits() {
    let numbers = [0.0f32, 1.0, 2.5, -1.0, -2.5, 1e-40, f32::INFINITY, f32::NEG_INFINITY, 3.4e38];
    for a in numbers {
        for b in numbers {
            assert_eq!(maximum(a.to_bits(), b.to_bits()), a.max(b).to_bits());
        }
        assert_eq!(maximum(f32::NAN.to_bits(), a.to_bits()), a.to_bits());
        assert_eq!(maximum(a.to_bits(), f32::NAN.to_bits()), a.to_bits());
    }
    assert_eq!(maximum(0.0f32.to_bits(), (-0.0f32).to_bits()), 0.0f32.to_bits());
}

#[test]
fn texts_are_put_together() {
    assert_eq!(enclose("(", "a", ")::text"), "(a)::text");
    assert_eq!(prefixed(" WHERE ", "x"), " WHERE x");
    assert_eq!(join(&texts(&[]), ", "), "");
    assert_eq!(join(&texts(&["a"]), ", "), "a");
    assert_eq!(join(&texts(&["a", "b", "c"]), ", "), "a, b, c");
    assert!(same_texts(&texts(&["a", "b"]), &texts(&["a", "b"])));
    assert!(!same_texts(&texts(&["a", "b"]), &texts(&["a"])));
    assert!(!same_terms(&None, &Some(texts(&[]))));
    assert!(same_terms(&None, &None));
}

#[test]
fn slots_carry_what_a_score_depends_on() {
    let given = request(FULL_SCORE, vec![None, None], vec![some("q"), None], &[7, -1], &[TRUE]);
    let slots = request_slots(&given, &SESSION).unwrap();
    assert_eq!(
        slots[0],
        Slot {
            index: 7,
            key: Some(CacheKey {
                transaction: 11,
                command: 12,
                heap_oid: 5000,
                index_oid: 7,
                query: "q".to_string(),
                full: true,
                dense: 13,
                k1: Some(3),
                b: None,
                add: Some(texts(&["wine"])),
                replace: None,
            }),
        }
    );
    assert_eq!(slots[1], Slot { index: u32::MAX, key: None });
    let mut other = request(SCORE, vec![None, None], vec![some("q"), None], &[7, -1], &[TRUE]);
    other.dense_ratio = Some(99);
    let plain = request_slots(&other, &SESSION).unwrap();
    let key = plain[0].key.as_ref().unwrap();
    assert!(!key.full);
    assert_eq!(key.dense, 99);
    assert!(!same_slots(&slots, &plain));
    assert!(same_slots(&slots, &request_slots(&given, &SESSION).unwrap()));
    assert!(same_key(key, &copy_key(key)));
}

#[test]
fn mismatched_inputs_are_refused() {
    let short = request(SCORE, vec![None], vec![some("q"), None], &[7, 8], &[TRUE]);
    let error = request_slots(&short, &SESSION).unwrap_err();
    assert_eq!(error, ScoreError::MismatchedInputs);
    assert_eq!(error.message(), "mismatched cross-column scoring inputs");
    let queries = request(SCORE, vec![None, None], vec![some("q")], &[7, 8], &[TRUE]);
    assert!(request_slots(&queries, &SESSION).is_err());
}

#[test]
fn errors_have_their_messages() {
    let text = || "e".to_string();
    assert_eq!(ScoreError::Query(text()).message(), "TIN score query error: e");
    assert_eq!(ScoreError::Evaluation(text()).message(), "TIN score query evaluation failed: e");
    assert_eq!(ScoreError::Scan(text()).message(), "tin score corpus scan failed: e");
}

fn four_slots() -> Vec<Slot> {
    let given = request(
        SCORE,
        vec![None, None, None, None],
        vec![some("beer"), some("cider"), None, some("wine")],
        &[9, 4, 4, 9],
        &[TRUE],
    );
    request_slots(&given, &SESSION).unwrap()
}

#[test]
fn slots_are_grouped_by_ascending_index() {
    let groups = group_slots(&four_slots());
    let shape: Vec<(u32, Vec<usize>)> =
        groups.iter().map(|group| (group.index, group.slots.clone())).collect();
    assert_eq!(shape, vec![(4, vec![1]), (9, vec![0, 3])]);
    assert!(group_slots(&Vec::new()).is_empty());
}

#[test]
fn queries_of_one_index_are_alternatives() {
    let slots = four_slots();
    let key = combine_keys(&slots, &vec![0, 3]);
    assert_eq!(key.query, "(beer) OR (wine)");
    assert_eq!(key.index_oid, 9);
    assert_eq!(combine_keys(&slots, &vec![1]).query, "(cider)");
}

#[test]
fn verdicts_settle_sets_and_scores() {
    let corpus = ScoreCorpus { by_document: scores(&[("a", 1.0), ("b", 2.0), ("c", 3.0)]) };
    let (sets, kept) = settle_group(
        corpus,
        &texts(&["a", "b", "c"]),
        &vec![vec![true, false], vec![false, false], vec![true, true]],
        2,
    );
    assert_eq!(sets, vec![set(&["a", "c"]), set(&["c"])]);
    assert_eq!(kept.by_document, scores(&[("a", 1.0), ("c", 3.0)]));
    assert!(in_any(&sets, &"a".to_string()));
    assert!(!in_any(&sets, &"b".to_string()));
}

/// Documents are words; a query matches the documents that contain it.
fn fields_of(slots: &Vec<Slot>, keys: &RefCell<Vec<String>>) -> Result<FieldCorpora, ScoreError> {
    build_fields(
        slots,
        &(
            |key: &CacheKey| {
                keys.borrow_mut().push(format!("{}:{}", key.index_oid, key.query));
                ScoreCorpus {
                    by_document: scores(&[("beer wine", 1.5), ("beer", 1.0), ("water", 0.25)]),
                }
            },
            |index: u32| index,
            |query: &String, tokenizer: &u32| -> Result<String, String> {
                if query.is_empty() {
                    Err(format!("empty query on {}", tokenizer))
                } else {
                    Ok(query.clone())
                }
            },
            |text: &String, _: &u32| text.clone(),
            |query: &String, tokens: &String| -> Result<bool, String> {
                if query == "fail" && tokens == "water" {
                    Err("no water".to_string())
                } else {
                    Ok(tokens.contains(query.as_str()))
                }
            },
        ),
    )
}

#[test]
fn fields_hold_the_matching_documents_of_each_index() {
    let keys = RefCell::new(Vec::new());
    let fields = fields_of(&four_slots(), &keys).unwrap();
    assert_eq!(*keys.borrow(), vec!["4:(cider)", "9:(beer) OR (wine)"]);
    assert_eq!(fields.matches[0], Some(set(&["beer wine", "beer"])));
    assert_eq!(fields.matches[1], Some(set(&[])));
    assert_eq!(fields.matches[2], None);
    assert_eq!(fields.matches[3], Some(set(&["beer wine"])));
    assert_eq!(fields.scored.len(), 2);
    assert_eq!(fields.scored[0].0, 1);
    assert_eq!(fields.scored[0].1.by_document, scores(&[]));
    assert_eq!(fields.scored[1].0, 0);
    assert_eq!(fields.scored[1].1.by_document, scores(&[("beer wine", 1.5), ("beer", 1.0)]));
}

#[test]
fn failing_queries_end_the_work() {
    let run = |query: &str| {
        let given = request(SCORE, vec![None], vec![some(query)], &[4], &[TRUE]);
        let slots = request_slots(&given, &SESSION).unwrap();
        fields_of(&slots, &RefCell::new(Vec::new())).unwrap_err()
    };
    assert_eq!(run(""), ScoreError::Query("empty query on 4".to_string()));
    assert_eq!(run("fail"), ScoreError::Evaluation("no water".to_string()));
}

fn definition(expression: &str, predicate: Option<&str>) -> IndexDefinition {
    IndexDefinition {
        expression: expression.to_string(),
        predicate: predicate.map(|text| text.to_string()),
    }
}

#[test]
fn statements_read_the_indexed_rows() {
    assert_eq!(
        scan_statement(&vec![definition("title", None), definition("lower(body)", None)], "public.t"),
        "SELECT ARRAY[(title)::text, (lower(body))::text] FROM public.t"
    );
    assert_eq!(
        scan_statement(
            &vec![
                definition("title", Some("active")),
                definition("body", None),
                definition("note", Some("id > 3")),
            ],
            "t"
        ),
        "SELECT ARRAY[(title)::text, (body)::text, (note)::text] FROM t WHERE (active) AND (id > 3)"
    );
    assert_eq!(scan_statement(&Vec::new(), "t"), "SELECT ARRAY[] FROM t");
}

fn two_fields() -> FieldCorpora {
    FieldCorpora {
        matches: vec![Some(set(&["beer"])), Some(set(&["beer", "ale"]))],
        scored: vec![
            (0, ScoreCorpus { by_document: scores(&[("beer", 1.0)]) }),
            (1, ScoreCorpus { by_document: scores(&[("beer", 2.0), ("ale", 4.0)]) }),
        ],
    }
}

#[test]
fn rows_are_judged_and_scored_by_column() {
    let fields = two_fields();
    let row = vec![some("beer"), some("water")];
    assert_eq!(row_verdicts(&row, &fields.matches), vec![Some(true), Some(false)]);
    assert_eq!(row_parts(&row, &fields.scored), vec![1.0f32.to_bits(), 0]);
    let null = vec![None, some("ale")];
    assert_eq!(row_verdicts(&null, &fields.matches), vec![None, Some(true)]);
    assert_eq!(row_parts(&null, &fields.scored), vec![0, 4.0f32.to_bits()]);
    let wide = vec![some("beer"), some("ale"), some("more")];
    assert_eq!(row_verdicts(&wide, &fields.matches).len(), 2);
    assert_eq!(row_verdicts(&row, &vec![None, None]), vec![None, None]);
}

fn rows() -> Vec<Row> {
    vec![
        vec![some("beer"), some("water")],
        vec![some("water"), some("ale")],
        vec![some("beer"), some("beer")],
        vec![None, some("beer")],
    ]
}

fn add_up(parts: &Vec<u32>) -> u32 {
    parts.iter().fold(0.0f32, |total, &bits| total + f32::from_bits(bits)).to_bits()
}

fn table(condition: &[i32]) -> MultiCorpus {
    let fields = two_fields();
    let sums: Vec<u32> = rows().iter().map(|row| add_up(&row_parts(row, &fields.scored))).collect();
    table_rows(Vec::new(), condition.to_vec(), &fields, rows(), &sums)
}

#[test]
fn the_greatest_score_is_that_of_a_qualifying_row() {
    let any = table(&[0, 1, OR]);
    assert_eq!(f32::from_bits(any.max), 4.0);
    assert_eq!(f32::from_bits(table(&[0, 1, AND]).max), 3.0);
    assert_eq!(f32::from_bits(table(&[0, 1, NOT, AND]).max), 1.0);
    assert_eq!(f32::from_bits(table(&[0, NOT, 1, NOT, AND]).max), 0.0);
    // The row without a title is NULL under NOT and does not count.
    assert_eq!(f32::from_bits(table(&[0, NOT]).max), 4.0);
    assert_eq!(f32::from_bits(table(&[TRUE]).max), 4.0);
}

#[test]
fn every_row_has_its_combined_score() {
    let corpus = table(&[0, 1, AND]);
    let score = |row: Row| f32::from_bits(corpus.score(SCORE, &row));
    assert_eq!(score(vec![some("beer"), some("water")]), 1.0);
    assert_eq!(score(vec![some("water"), some("ale")]), 4.0);
    assert_eq!(score(vec![some("beer"), some("beer")]), 3.0);
    assert_eq!(score(vec![None, some("beer")]), 2.0);
    assert_eq!(score(vec![some("unknown"), None]), 0.0);
    assert_eq!(corpus.score(MAX_SCORE, &vec![None]), 3.0f32.to_bits());
    assert_eq!(corpus.score(MAX_FULL_SCORE, &vec![None]), 3.0f32.to_bits());
    assert_eq!(f32::from_bits(corpus.score(FULL_SCORE, &rows()[0])), 1.0);
}

fn word_scores(key: &CacheKey) -> ScoreCorpus {
    ScoreCorpus {
        by_document: match key.index_oid {
            4 => scores(&[("beer", 1.0), ("mead", 9.0)]),
            _ => scores(&[("beer", 2.0), ("ale", 4.0)]),
        },
    }
}

fn words(query: &String, _: &u32) -> Result<Vec<String>, String> {
    if query.is_empty() {
        return Err("empty query".to_string());
    }
    Ok(query.split(" OR ").map(|word| word.to_string()).collect())
}

fn holds_word(query: &Vec<String>, text: &String) -> Result<bool, String> {
    Ok(query.contains(text))
}

/// Scores with the two fields above, counting how often the rows are read.
fn score(
    cache: &mut Option<MultiCorpus>,
    given: &ScoreRequest,
    reads: &Cell<u32>,
) -> Result<u32, ScoreError> {
    score_many_bound(
        cache,
        given,
        &SESSION,
        &(
            word_scores,
            |index: u32| index,
            words,
            |text: &String, _: &u32| text.clone(),
            holds_word,
        ),
        (
            |heap: u32, index: u32| {
                assert_eq!(heap, 5000);
                definition(&format!("column{}", index), None)
            },
            |heap: u32| format!("table{}", heap),
            |statement: &String| -> Result<Vec<Row>, String> {
                assert_eq!(
                    statement,
                    "SELECT ARRAY[(column4)::text, (column9)::text] FROM table5000"
                );
                reads.set(reads.get() + 1);
                if reads.get() > 9 {
                    return Err("gone".to_string());
                }
                Ok(rows())
            },
            add_up,
        ),
    )
}

#[test]
fn tables_are_made_once_for_one_policy() {
    let reads = Cell::new(0);
    let mut cache = None;
    let ask = |mode: i32, row: Row, condition: &[i32]| {
        request(mode, row, vec![some("beer"), some("beer OR ale")], &[4, 9], condition)
    };
    let one = ask(FULL_SCORE, vec![some("beer"), some("beer")], &[0, 1, OR]);
    assert_eq!(score(&mut cache, &one, &reads), Ok(3.0f32.to_bits()));
    assert_eq!(reads.get(), 1);
    let two = ask(FULL_SCORE, vec![None, some("beer")], &[0, 1, OR]);
    assert_eq!(score(&mut cache, &two, &reads), Ok(2.0f32.to_bits()));
    let max = ask(MAX_FULL_SCORE, vec![None, None], &[0, 1, OR]);
    assert_eq!(score(&mut cache, &max, &reads), Ok(4.0f32.to_bits()));
    assert_eq!(reads.get(), 1);
    let plain = ask(SCORE, vec![None, some("beer")], &[0, 1, OR]);
    assert_eq!(score(&mut cache, &plain, &reads), Ok(2.0f32.to_bits()));
    assert_eq!(reads.get(), 2);
    let other = ask(MAX_SCORE, vec![None, None], &[0, 1, AND]);
    assert_eq!(score(&mut cache, &other, &reads), Ok(3.0f32.to_bits()));
    assert_eq!(reads.get(), 3);
}

#[test]
fn null_queries_decide_no_row() {
    let reads = Cell::new(0);
    let mut cache = None;
    let given = request(MAX_SCORE, vec![None, None], vec![None, some("ale")], &[4, 9], &[0, NOT]);
    assert_eq!(score(&mut cache, &given, &reads), Ok(0));
    let other = request(MAX_SCORE, vec![None, None], vec![None, some("ale")], &[4, 9], &[0, 1, OR]);
    assert_eq!(score(&mut cache, &other, &reads), Ok(4.0f32.to_bits()));
    let row = vec![some("water"), some("ale")];
    let plain = request(SCORE, row, vec![None, some("ale")], &[4, 9], &[0, 1, OR]);
    assert_eq!(score(&mut cache, &plain, &reads), Ok(4.0f32.to_bits()));
    assert_eq!(reads.get(), 2);
}

#[test]
fn failures_leave_the_table() {
    let reads = Cell::new(0);
    let mut cache = None;
    let ask = |queries: Row, documents: Row, condition: &[i32]| {
        request(SCORE, documents, queries, &[4, 9], condition)
    };
    let queries = || vec![some("beer"), some("ale")];
    let good = ask(queries(), vec![None, None], &[0]);
    score(&mut cache, &good, &reads).unwrap();
    let short = ask(queries(), vec![None], &[1]);
    assert_eq!(score(&mut cache, &short, &reads), Err(ScoreError::MismatchedInputs));
    let empty = ask(vec![some("beer"), some("")], vec![None, None], &[1]);
    assert_eq!(
        score(&mut cache, &empty, &reads),
        Err(ScoreError::Query("empty query".to_string()))
    );
    assert_eq!(reads.get(), 1);
    reads.set(9);
    let other = ask(queries(), vec![None, None], &[1]);
    assert_eq!(score(&mut cache, &other, &reads), Err(ScoreError::Scan("gone".to_string())));
    assert_eq!(cache.as_ref().unwrap().condition, vec![0]);
    score(&mut cache, &good, &reads).unwrap();
    assert_eq!(reads.get(), 10);
}

/// A search over a table with two columns under the indexes 4 and 9. A query
/// lists words joined by `OR`, with or without parentheses; a document matches
/// when it is one of them, and scores the length of the query without its
/// parentheses.
fn ask(cache: &mut Option<MultiCorpus>, given: &ScoreRequest) -> Result<u32, ScoreError> {
    let plain = |query: &str| query.replace(['(', ')'], "");
    let heap = [("beer", "water"), ("water", "ale"), ("ale", "beer"), ("mead", "mead")];
    let order: Vec<i32> = given.indexes.clone();
    score_many_bound(
        cache,
        given,
        &SESSION,
        &(
            |key: &CacheKey| {
                let score = plain(&key.query).len() as f32 + key.index_oid as f32 / 8.0;
                ScoreCorpus {
                    by_document: scores(&[("beer", score), ("ale", score), ("water", score)]),
                }
            },
            |index: u32| index,
            |query: &String, _: &u32| -> Result<Vec<String>, String> {
                Ok(plain(query).split(" OR ").map(|word| word.to_string()).collect())
            },
            |text: &String, _: &u32| text.clone(),
            holds_word,
        ),
        (
            |_: u32, index: u32| definition(if index == 4 { "title" } else { "body" }, None),
            |_: u32| "t".to_string(),
            |_: &String| -> Result<Vec<Row>, String> {
                let column = |index: &i32, row: &(&str, &str)| match index {
                    4 => some(row.0),
                    _ => some(row.1),
                };
                let mut rows: Vec<Row> = heap
                    .iter()
                    .map(|row| order.iter().map(|index| column(index, row)).collect())
                    .collect();
                rows.push(order.iter().map(|index| column(index, &("beer", "beer"))).collect());
                let mut half: Row = order.iter().map(|index| column(index, &("beer", ""))).collect();
                for (at, index) in order.iter().enumerate() {
                    if *index == 9 {
                        half[at] = None;
                    }
                }
                rows.push(half);
                Ok(rows)
            },
            add_up,
        ),
    )
}

#[test]
fn column_order_does_not_change_scores() {
    let (beer, ale) = (some("beer"), some("beer OR ale"));
    for mode in [SCORE, FULL_SCORE, MAX_SCORE, MAX_FULL_SCORE] {
        for (title, body) in [("beer", "beer"), ("water", "ale"), ("mead", "mead"), ("x", "y")] {
            let one = request(
                mode,
                vec![some(title), some(body)],
                vec![beer.clone(), ale.clone()],
                &[4, 9],
                &[0, NOT, 1, AND],
            );
            let two = request(
                mode,
                vec![some(body), some(title)],
                vec![ale.clone(), beer.clone()],
                &[9, 4],
                &[1, NOT, 0, AND],
            );
            assert_eq!(ask(&mut None, &one), ask(&mut None, &two));
        }
    }
}

#[test]
fn queries_of_one_index_score_once() {
    let three = request(
        FULL_SCORE,
        vec![some("beer"), some("beer"), some("beer")],
        vec![some("beer"), some("mead"), some("beer")],
        &[4, 4, 9],
        &[0, 1, OR, 2, OR],
    );
    let two = request(
        FULL_SCORE,
        vec![some("beer"), some("beer")],
        vec![some("(beer) OR (mead)"), some("beer")],
        &[4, 9],
        &[0, 1, OR],
    );
    let expected = (12.0f32 + 0.5) + (4.0 + 9.0 / 8.0);
    assert_eq!(ask(&mut None, &three), Ok(expected.to_bits()));
    assert_eq!(ask(&mut None, &two), Ok(expected.to_bits()));
}

#[test]
fn calls_in_between_do_not_matter() {
    let ask_row = |row: Row, condition: &[i32]| {
        request(SCORE, row, vec![some("beer"), some("ale")], &[4, 9], condition)
    };
    let row = || vec![some("beer"), some("water")];
    let first = ask(&mut None, &ask_row(row(), &[0])).unwrap();
    let mut cache = None;
    let others = [
        request(FULL_SCORE, row(), vec![some("ale"), some("ale")], &[4, 9], &[0]),
        request(MAX_SCORE, row(), vec![some("beer"), some("ale")], &[4, 9], &[1]),
        request(SCORE, row(), vec![None, some("ale")], &[4, 9], &[0]),
        ask_row(vec![some("water"), some("ale")], &[0, 1, AND]),
    ];
    for other in &others {
        ask(&mut cache, other).unwrap();
        assert_eq!(ask(&mut cache, &ask_row(row(), &[0])), Ok(first));
    }
    // The score of a row does not depend on the condition.
    assert_eq!(ask(&mut cache, &ask_row(row(), &[0, NOT, 1, AND])), Ok(first));
    // A NULL document scores like one that does not match.
    assert_eq!(ask(&mut cache, &ask_row(vec![some("beer"), None], &[0])), Ok(first));
    // The greatest score does not depend on the documents.
    let max = |row: Row| request(MAX_SCORE, row, vec![some("beer"), some("ale")], &[4, 9], &[0]);
    assert_eq!(ask(&mut cache, &max(row())), ask(&mut None, &max(vec![None, None])));
}

#[test]
fn default_dense_ratio_is_filled_in() {
    let mut given = request(SCORE, vec![None], vec![some("q")], &[4], &[TRUE]);
    let slots = request_slots(&given, &SESSION).unwrap();
    given.dense_ratio = Some(SESSION.default_dense_ratio);
    assert!(same_slots(&slots, &request_slots(&given, &SESSION).unwrap()));
}

#[test]
fn conditions_that_cannot_run_meet_no_row() {
    let given = request(MAX_SCORE, vec![None], vec![some("beer")], &[4], &[NOT]);
    let outcome = score_many_bound(
        &mut None,
        &given,
        &SESSION,
        &(
            word_scores,
            |index: u32| index,
            words,
            |text: &String, _: &u32| text.clone(),
            holds_word,
        ),
        (
            |_: u32, _: u32| definition("title", None),
            |_: u32| "t".to_string(),
            |_: &String| -> Result<Vec<Row>, String> { Ok(Vec::new()) },
            add_up,
        ),
    );
    assert_eq!(outcome, Ok(0));
}

#[test]
fn requests_without_query_score_zero() {
    let beer = request(SCORE, vec![some("beer"), some("beer")], vec![some("beer"), None], &[4, 9], &[0]);
    let mut cache = None;
    for mode in [SCORE, FULL_SCORE, MAX_SCORE, MAX_FULL_SCORE] {
        for row in [vec![some("beer"), some("beer")], vec![None, some("x")]] {
            for condition in [&[TRUE][..], &[0, NOT][..]] {
                let given = request(mode, row.clone(), vec![None, None], &[4, 9], condition);
                assert_eq!(ask(&mut cache, &given), Ok(0));
                assert_eq!(ask(&mut None, &given), Ok(0));
            }
        }
        assert_ne!(ask(&mut cache, &beer), Ok(0));
    }
}

#[test]
fn rows_without_match_score_zero() {
    for row in [vec![some("mead"), some("mead")], vec![some("water"), some("ale")]] {
        let given = request(SCORE, row, vec![some("beer"), some("beer")], &[4, 9], &[0, 1, OR]);
        assert_eq!(ask(&mut None, &given), Ok(0));
    }
}
