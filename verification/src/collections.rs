//! The hash tables of the scorer.
//!
//! Texts and rows are looked up in tables of `rustc_hash`. What such a table
//! holds is named here, and the few operations that the scorer needs are stated
//! over these names. The order in which a table is walked is left open.

use rustc_hash::{FxBuildHasher, FxHashMap, FxHashSet};
use vstd::prelude::*;

verus! {

/// The hasher of the tables.
#[verifier::external_type_specification]
#[verifier::external_body]
pub struct ExFxBuildHasher(FxBuildHasher);

/// The texts in a set.
pub uninterp spec fn text_set(set: FxHashSet<String>) -> Set<Seq<char>>;

/// The score of each text in a table.
pub uninterp spec fn score_map(map: FxHashMap<String, u32>) -> Map<Seq<char>, u32>;

/// The score of each row in a table.
pub uninterp spec fn row_map(map: FxHashMap<Vec<Option<String>>, u32>) -> Map<
    Seq<Option<Seq<char>>>,
    u32,
>;

/// `FxHashSet::default`: a set without texts.
#[verifier::external_body]
pub(crate) fn new_text_set() -> (set: FxHashSet<String>)
    ensures
        text_set(set) == Set::<Seq<char>>::empty(),
{
    FxHashSet::default()
}

/// `FxHashSet::insert`: adds one text and leaves the others.
#[verifier::external_body]
pub(crate) fn insert_text(set: &mut FxHashSet<String>, text: String)
    ensures
        text_set(*final(set)) == text_set(*old(set)).insert(text@),
{
    set.insert(text);
}

/// `FxHashSet::contains`: whether the text is in the set.
#[verifier::external_body]
pub(crate) fn contains_text(set: &FxHashSet<String>, text: &String) -> (found: bool)
    ensures
        found == text_set(*set).contains(text@),
{
    set.contains(text)
}

/// `FxHashMap::get`: the score of a text, where the table has one.
#[verifier::external_body]
pub(crate) fn text_score(map: &FxHashMap<String, u32>, text: &String) -> (score: Option<u32>)
    ensures
        score == if score_map(*map).contains_key(text@) {
            Some(score_map(*map)[text@])
        } else {
            None
        },
{
    map.get(text).copied()
}

/// `FxHashMap::keys`: every text of the table, once, in an order left open.
#[verifier::external_body]
pub(crate) fn scored_texts(map: &FxHashMap<String, u32>) -> (texts: Vec<String>)
    ensures
        forall|text: Seq<char>| #[trigger]
            score_map(*map).contains_key(text) <==> texts.deep_view().contains(text),
        texts.deep_view().no_duplicates(),
{
    map.keys().cloned().collect()
}

/// The text is in one of the sets.
pub open spec fn in_some_set(sets: Seq<FxHashSet<String>>, text: Seq<char>) -> bool {
    exists|i: int| 0 <= i < sets.len() && text_set(#[trigger] sets[i]).contains(text)
}

/// The texts that are in one of the sets.
pub open spec fn found_texts(sets: Seq<FxHashSet<String>>) -> Set<Seq<char>> {
    Set::new(|text: Seq<char>| in_some_set(sets, text))
}

/// Looks for a text in several sets.
pub fn in_any(sets: &Vec<FxHashSet<String>>, text: &String) -> (found: bool)
    ensures
        found == in_some_set(sets@, text@),
{
    let mut at: usize = 0;
    while at < sets.len()
        invariant
            at <= sets@.len(),
            forall|i: int| 0 <= i < at ==> !text_set(#[trigger] sets@[i]).contains(text@),
        decreases sets@.len() - at,
    {
        if contains_text(&sets[at], text) {
            return true;
        }
        at = at + 1;
    }
    false
}

/// `FxHashMap::retain` with `in_any`: keeps the texts that are in one of the
/// sets, with their scores, and drops the others.
#[verifier::external_body]
pub(crate) fn retain_found(map: &mut FxHashMap<String, u32>, sets: &Vec<FxHashSet<String>>)
    ensures
        score_map(*final(map)) == score_map(*old(map)).restrict(found_texts(sets@)),
{
    map.retain(|text, _| in_any(sets, text));
}

/// No row has a score.
pub open spec fn no_rows() -> Map<Seq<Option<Seq<char>>>, u32> {
    Map::empty()
}

/// `FxHashMap::default`: a table without rows.
#[verifier::external_body]
pub(crate) fn new_row_map() -> (map: FxHashMap<Vec<Option<String>>, u32>)
    ensures
        row_map(map) == no_rows(),
{
    FxHashMap::default()
}

/// `FxHashMap::insert`: gives a row its score, in place of one it may have had.
#[verifier::external_body]
pub(crate) fn insert_row(
    map: &mut FxHashMap<Vec<Option<String>>, u32>,
    row: Vec<Option<String>>,
    score: u32,
)
    ensures
        row_map(*final(map)) == row_map(*old(map)).insert(row.deep_view(), score),
{
    map.insert(row, score);
}

/// `FxHashMap::get`: the score of a row, where the table has one.
#[verifier::external_body]
pub(crate) fn row_score(
    map: &FxHashMap<Vec<Option<String>>, u32>,
    row: &Vec<Option<String>>,
) -> (score: Option<u32>)
    ensures
        score == if row_map(*map).contains_key(row.deep_view()) {
            Some(row_map(*map)[row.deep_view()])
        } else {
            None
        },
{
    map.get(row).copied()
}

} // verus!
