use tin_search::truth::{program_runs, qualifies, AND, NOT, OR, TRUE};

const T: Option<bool> = Some(true);
const F: Option<bool> = Some(false);
const N: Option<bool> = None;

#[test]
fn conjunction_follows_sql() {
    let table = [
        (T, T, true),
        (T, F, false),
        (T, N, false),
        (F, N, false),
        (N, N, false),
        (N, T, false),
    ];
    for (left, right, accepted) in table {
        assert_eq!(qualifies(&[0, 1, AND], &[left, right]), accepted);
    }
}

#[test]
fn disjunction_follows_sql() {
    let table = [(T, T, true), (T, N, true), (N, T, true), (F, N, false), (F, F, false), (N, N, false)];
    for (left, right, accepted) in table {
        assert_eq!(qualifies(&[0, 1, OR], &[left, right]), accepted);
    }
}

#[test]
fn negation_keeps_null() {
    assert!(qualifies(&[0, NOT], &[F]));
    assert!(!qualifies(&[0, NOT], &[T]));
    assert!(!qualifies(&[0, NOT], &[N]));
    assert!(qualifies(&[0, NOT, NOT], &[T]));
}

#[test]
fn null_is_absorbed_by_the_deciding_side() {
    // NOT (NULL AND false) is true; NOT (NULL OR false) is NULL.
    assert!(qualifies(&[0, 1, AND, NOT], &[N, F]));
    assert!(!qualifies(&[0, 1, OR, NOT], &[N, F]));
    // De Morgan on the same rows.
    assert!(qualifies(&[0, NOT, 1, NOT, OR], &[N, F]));
    assert!(!qualifies(&[0, NOT, 1, NOT, AND], &[N, F]));
}

#[test]
fn constant_and_empty_programs() {
    assert!(qualifies(&[TRUE], &[]));
    assert!(!qualifies(&[], &[T]));
    assert!(!qualifies(&[TRUE, 0], &[N]));
    assert!(qualifies(&[0, TRUE], &[N]));
}

#[test]
fn programs_that_cannot_run_are_told_apart() {
    assert!(program_runs(&[], 0));
    assert!(program_runs(&[0, 1, AND, NOT, TRUE, OR], 2));
    assert!(!program_runs(&[NOT], 2));
    assert!(!program_runs(&[0, AND], 2));
    assert!(!program_runs(&[OR], 2));
    assert!(!program_runs(&[2], 2));
    assert!(!program_runs(&[-5], 2));
    assert!(program_runs(&[1], 2));
}
