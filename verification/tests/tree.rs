use mastermind::code::Code;
use mastermind::code::universe;
use mastermind::response::Response;
use mastermind::tree::rank::by_depth;
use mastermind::tree::{generate, generate_exhaustively, RefTree, Tree};

#[test]
fn test_generate() {
    let c00: Code = vec![0, 0];
    let c01: Code = vec![0, 1];

    let actual = generate(
        &vec![c00.clone(), c01.clone()],
        &vec![c00.clone(), c01.clone()],
        3,
    );

    let expected = RefTree {
        guess: c00,
        children: vec![
            (
                Response(1, 0, 1),
                Some(RefTree {
                    guess: c01,
                    children: vec![(Response(2, 0, 0), None)],
                }),
            ),
            (Response(2, 0, 0), None),
        ],
    };

    assert_eq!(actual, Some(expected));
}

fn expected_two_by_two_tree() -> RefTree {
    // the depth-optimal tree over the universe {00, 01, 10, 11}
    RefTree {
        guess: vec![0, 0],
        children: vec![
            (
                Response(0, 0, 2),
                Some(RefTree {
                    guess: vec![1, 1],
                    children: vec![(Response(2, 0, 0), None)],
                }),
            ),
            (
                Response(1, 0, 1),
                Some(RefTree {
                    guess: vec![0, 1],
                    children: vec![
                        (
                            Response(0, 2, 0),
                            Some(RefTree {
                                guess: vec![1, 0],
                                children: vec![(Response(2, 0, 0), None)],
                            }),
                        ),
                        (Response(2, 0, 0), None),
                    ],
                }),
            ),
            (Response(2, 0, 0), None),
        ],
    }
}

#[test]
fn test_generate_two_by_two_is_depth_three() {
    let u = universe(2, 2);
    let best = generate(&u, &u, u.len() + 1).expect("a tree must exist under the loose bound");
    assert_eq!(by_depth(&best), 3);
    assert_eq!(best, expected_two_by_two_tree());
}

#[test]
fn test_generate_two_by_two_optimality_bound() {
    // depth 3 is optimal: demanding a strictly better tree finds none
    let u = universe(2, 2);
    assert_eq!(generate(&u, &u, 3), None);
    let best = generate(&u, &u, 4).expect("a tree of depth 3 beats the bound 4");
    assert_eq!(by_depth(&best), 3);
}

#[test]
fn test_generate_zero_bound_yields_none() {
    let u = universe(2, 2);
    assert_eq!(generate(&u, &u, 0), None);
}

#[test]
fn test_generate_exhaustively_two_by_two() {
    let tree = generate_exhaustively(2, 2);
    assert_eq!(tree, expected_two_by_two_tree().to_tree());
}

#[test]
fn test_generate_singleton_universe() {
    let u = universe(1, 1);
    let best = generate(&u, &u, 2).expect("the lone code is identified at once");
    assert_eq!(
        best,
        RefTree {
            guess: vec![0],
            children: vec![(Response(1, 0, 0), None)],
        }
    );
    assert_eq!(by_depth(&best), 1);
}

#[test]
fn test_generate_exhaustively_one_colour() {
    // with a single colour the lone code is identified by its own guess
    assert_eq!(
        generate_exhaustively(3, 1),
        Tree {
            guess: vec![0, 0, 0],
            children: vec![(Response(3, 0, 0), None)],
        }
    );
}

#[test]
fn test_to_tree_copies_shape() {
    let rt = expected_two_by_two_tree();
    let t = rt.to_tree();
    let expected = Tree {
        guess: vec![0, 0],
        children: vec![
            (
                Response(0, 0, 2),
                Some(Tree {
                    guess: vec![1, 1],
                    children: vec![(Response(2, 0, 0), None)],
                }),
            ),
            (
                Response(1, 0, 1),
                Some(Tree {
                    guess: vec![0, 1],
                    children: vec![
                        (
                            Response(0, 2, 0),
                            Some(Tree {
                                guess: vec![1, 0],
                                children: vec![(Response(2, 0, 0), None)],
                            }),
                        ),
                        (Response(2, 0, 0), None),
                    ],
                }),
            ),
            (Response(2, 0, 0), None),
        ],
    };
    assert_eq!(t, expected);
}

#[test]
fn test_generate_exhaustively_three_by_two() {
    // over codes of three binary pegs the optimum takes three guesses
    let u = universe(3, 2);
    let best = generate(&u, &u, u.len() + 1).expect("a tree must exist under the loose bound");
    assert_eq!(by_depth(&best), 3);
    assert_eq!(generate(&u, &u, 3), None);
}
