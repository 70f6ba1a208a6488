use mastermind::code::{compare, universe, Code};
use mastermind::response::Response;

#[test]
fn test_universe() {
    assert_eq!(
        universe(3, 2),
        vec![
            vec![0, 0, 0],
            vec![0, 0, 1],
            vec![0, 1, 0],
            vec![0, 1, 1],
            vec![1, 0, 0],
            vec![1, 0, 1],
            vec![1, 1, 0],
            vec![1, 1, 1]
        ],
        "universe() must generate all codes with the given length and base"
    );
}

#[test]
fn test_compare_all_correct() {
    assert_eq!(
        compare(&vec![0], &vec![0]),
        Response(1, 0, 0),
        "Matching codes must generate a Response indicating that all \
        digits are equal"
    );
}

#[test]
fn test_compare_none_correct() {
    assert_eq!(
        compare(&vec![0], &vec![1]),
        Response(0, 0, 1),
        "Disjoint codes must generate a Response indicating neither \
        correct nor misplaced digits"
    )
}

#[test]
fn test_compare_misplaced_digits() {
    assert_eq!(
        compare(&vec![0, 1], &vec![1, 0]),
        Response(0, 2, 0),
        "Codes with equal digits in unequal positions must generate a
        Response indicating the number of misplaced digits"
    )
}

#[test]
fn test_compare_precedence() {
    assert_eq!(
        compare(&vec![0, 1], &vec![0, 0]),
        Response(1, 0, 1),
        "Any digit which matches exactly cannot count towards misplaced \
        digits in a Response (in this instance, the 0 on the left matches \
        a 0 on the right, so it cannot count as a misplaced match of the \
        other 0 on the right, as well)"
    )
}

#[test]
fn test_compare_misplace_exhaustion() {
    assert_eq!(
        compare(&vec![0, 2, 2], &vec![1, 0, 0]),
        Response(0, 1, 2),
        "Any digit which counts towards the number of misplaced digits in \
        a Response may count only once (in this instance, the 0 on the \
        left matches only _one_ of the 0s on the right)"
    )
}

#[test]
fn test_universe_count_and_distinctness() {
    let u = universe(2, 3);
    assert_eq!(u.len(), 9);
    for i in 0..u.len() {
        for j in (i + 1)..u.len() {
            assert_ne!(u[i], u[j], "all codes of a universe are pairwise distinct");
        }
    }
    assert_eq!(universe(1, 1), vec![vec![0]]);
}

#[test]
fn test_compare_self_is_all_correct() {
    let x: Code = vec![3, 1, 4, 1, 5];
    assert_eq!(compare(&x, &x), Response(5, 0, 0));
}

#[test]
fn test_compare_counts_sum_to_length() {
    let pairs: Vec<(Code, Code)> = vec![
        (vec![0, 1, 2], vec![2, 1, 0]),
        (vec![1, 1, 1], vec![1, 2, 3]),
        (vec![0, 2, 2], vec![1, 0, 0]),
        (vec![5, 5, 5, 5], vec![5, 4, 3, 5]),
    ];
    for (left, right) in pairs {
        let r = compare(&left, &right);
        assert_eq!(r.0 + r.1 + r.2, left.len());
    }
}

#[test]
fn test_compare_terminal_only_on_equal_codes() {
    let x: Code = vec![2, 0, 1];
    let y: Code = vec![2, 1, 0];
    let unequal = compare(&x, &y);
    assert!(unequal.1 != 0 || unequal.2 != 0);
    let equal = compare(&x, &x);
    assert_eq!((equal.1, equal.2), (0, 0));
}

#[test]
fn test_compare_laws_over_a_whole_universe() {
    let u = universe(2, 3);
    for x in &u {
        for y in &u {
            let r = compare(x, y);
            assert_eq!(r.0 + r.1 + r.2, 2, "the counts always partition the code");
            assert_eq!(
                r.1 == 0 && r.2 == 0,
                x == y,
                "a response is terminal exactly for equal codes"
            );
        }
    }
}

#[test]
fn test_compare_disjoint_colours_all_wrong() {
    assert_eq!(compare(&vec![0, 1, 2], &vec![3, 4, 5]), Response(0, 0, 3));
}
