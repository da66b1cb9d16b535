//! Putting texts together.

use vstd::prelude::*;

verus! {

/// The parts one after the other, with a separator between any two.
pub open spec fn joined(parts: Seq<Seq<char>>, separator: Seq<char>) -> Seq<char>
    decreases parts.len(),
{
    if parts.len() == 0 {
        Seq::empty()
    } else {
        let before = if parts.len() == 1 {
            Seq::empty()
        } else {
            joined(parts.drop_last(), separator) + separator
        };
        before + parts.last()
    }
}

/// A text between two others.
pub open spec fn enclosed(open: Seq<char>, inner: Seq<char>, close: Seq<char>) -> Seq<char> {
    open + inner + close
}

/// Puts a text between two others.
pub fn enclose(open: &str, inner: &str, close: &str) -> (whole: String)
    ensures
        whole@ == enclosed(open@, inner@, close@),
{
    let mut whole = open.to_owned();
    whole.append(inner);
    whole.append(close);
    whole
}

/// Puts one text behind another.
pub fn prefixed(prefix: &str, rest: &str) -> (whole: String)
    ensures
        whole@ == prefix@ + rest@,
{
    let mut whole = prefix.to_owned();
    whole.append(rest);
    whole
}

/// Joins texts with a separator.
pub fn join(parts: &Vec<String>, separator: &str) -> (whole: String)
    ensures
        whole@ == joined(parts.deep_view(), separator@),
{
    let ghost all = parts.deep_view();
    let mut whole = String::new();
    let mut at: usize = 0;
    while at < parts.len()
        invariant
            at <= parts@.len(),
            all == parts.deep_view(),
            whole@ == joined(all.take(at as int), separator@),
        decreases parts@.len() - at,
    {
        proof {
            assert(all.take(at + 1).drop_last() =~= all.take(at as int));
            assert(all.take(at + 1).last() == parts@[at as int]@);
            assert(Seq::<char>::empty() + parts@[at as int]@ =~= parts@[at as int]@);
        }
        if at > 0 {
            whole.append(separator);
        }
        whole.append(parts[at].as_str());
        assert(whole@ =~= joined(all.take(at + 1), separator@));
        at = at + 1;
    }
    assert(all.take(at as int) =~= all);
    whole
}

/// Copies a list of texts.
pub fn copy_texts(texts: &Vec<String>) -> (copy: Vec<String>)
    ensures
        copy.deep_view() == texts.deep_view(),
{
    let mut copy: Vec<String> = Vec::new();
    let mut at: usize = 0;
    while at < texts.len()
        invariant
            at <= texts@.len(),
            copy@ =~= texts@.take(at as int),
        decreases texts@.len() - at,
    {
        copy.push(texts[at].clone());
        at = at + 1;
    }
    assert(copy@ =~= texts@);
    assert(copy.deep_view() =~= texts.deep_view());
    copy
}

/// Copies an optional list of texts.
pub fn copy_terms(terms: &Option<Vec<String>>) -> (copy: Option<Vec<String>>)
    ensures
        copy.deep_view() == terms.deep_view(),
{
    match terms {
        Some(texts) => Some(copy_texts(texts)),
        None => None,
    }
}

/// Compares two lists of texts.
pub fn same_texts(a: &Vec<String>, b: &Vec<String>) -> (same: bool)
    ensures
        same == (a.deep_view() == b.deep_view()),
{
    if a.len() != b.len() {
        assert(a.deep_view().len() != b.deep_view().len());
        return false;
    }
    let mut at: usize = 0;
    while at < a.len()
        invariant
            at <= a@.len(),
            a@.len() == b@.len(),
            forall|i: int| 0 <= i < at ==> (#[trigger] a@[i])@ == b@[i]@,
        decreases a@.len() - at,
    {
        if !a[at].eq(&b[at]) {
            assert(a.deep_view()[at as int] != b.deep_view()[at as int]);
            return false;
        }
        at = at + 1;
    }
    assert(a.deep_view() =~= b.deep_view());
    true
}

/// Compares two optional lists of texts.
pub fn same_terms(a: &Option<Vec<String>>, b: &Option<Vec<String>>) -> (same: bool)
    ensures
        same == (a.deep_view() == b.deep_view()),
{
    match (a, b) {
        (Some(x), Some(y)) => same_texts(x, y),
        (None, None) => true,
        _ => false,
    }
}

/// Joining nothing gives nothing, a single part stays as it is, and every further
/// part comes behind a separator.
pub proof fn law_parts_are_joined(
    parts: Seq<Seq<char>>,
    part: Seq<char>,
    separator: Seq<char>,
)
    ensures
        joined(Seq::<Seq<char>>::empty(), separator) == Seq::<char>::empty(),
        joined(seq![part], separator) == part,
        parts.len() > 0 ==> joined(parts.push(part), separator) == joined(parts, separator)
            + separator + part,
{
    reveal_with_fuel(joined, 2);
    assert(seq![part].last() == part);
    assert(joined(seq![part], separator) =~= part);
    assert(parts.push(part).drop_last() =~= parts);
    assert(parts.push(part).last() == part);
}

/// A joined text holds each of its parts in full.
pub proof fn law_joined_holds_each_part(
    parts: Seq<Seq<char>>,
    separator: Seq<char>,
    at: int,
) -> (start: int)
    requires
        0 <= at < parts.len(),
    ensures
        0 <= start,
        start + parts[at].len() <= joined(parts, separator).len(),
        joined(parts, separator).subrange(start, start + parts[at].len()) == parts[at],
        at == 0 ==> start == 0,
        at > 0 ==> start >= separator.len() && joined(parts, separator).subrange(
            start - separator.len(),
            start,
        ) == separator,
    decreases parts.len(),
{
    let whole = joined(parts, separator);
    let front = joined(parts.drop_last(), separator);
    if parts.len() == 1 {
        assert(whole =~= parts[0]);
        assert(whole.subrange(0, parts[0].len() as int) =~= parts[0]);
        0
    } else if at == parts.len() - 1 {
        let start = (front.len() + separator.len()) as int;
        assert(whole == front + separator + parts.last());
        assert(whole.subrange(start, start + parts[at].len()) =~= parts[at]);
        assert(whole.subrange(start - separator.len(), start) =~= separator);
        start
    } else {
        let start = law_joined_holds_each_part(parts.drop_last(), separator, at);
        assert(parts.drop_last()[at] == parts[at]);
        assert(whole == front + separator + parts.last());
        assert(whole.subrange(start, start + parts[at].len()) =~= front.subrange(
            start,
            start + parts[at].len(),
        ));
        if at > 0 {
            assert(whole.subrange(start - separator.len(), start) =~= front.subrange(
                start - separator.len(),
                start,
            ));
        }
        start
    }
}

/// A text between two others begins with the first and ends with the last.
pub proof fn law_enclosed_stands_between(open: Seq<char>, inner: Seq<char>, close: Seq<char>)
    ensures
        enclosed(open, inner, close).len() == open.len() + inner.len() + close.len(),
        enclosed(open, inner, close).take(open.len() as int) == open,
        enclosed(open, inner, close).subrange(open.len() as int, (open.len() + inner.len()) as int)
            == inner,
        enclosed(open, inner, close).skip((open.len() + inner.len()) as int) == close,
{
    let whole = enclosed(open, inner, close);
    assert(whole.take(open.len() as int) =~= open);
    assert(whole.subrange(open.len() as int, (open.len() + inner.len()) as int) =~= inner);
    assert(whole.skip((open.len() + inner.len()) as int) =~= close);
}

} // verus!
