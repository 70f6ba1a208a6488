use mastermind::response::Response;
use mastermind::tree::rank::by_depth;
use mastermind::tree::RefTree;

#[test]
fn test_by_depth() {
    let arbitrary = vec![0];
    assert_eq!(
        3,
        by_depth(&RefTree {
            guess: arbitrary.clone(),
            children: vec![
                (
                    Response(0, 0, 0),
                    Some(RefTree {
                        guess: arbitrary.clone(),
                        children: vec![(Response(2, 0, 0), None)],
                    })
                ),
                (
                    Response(1, 0, 0),
                    Some(RefTree {
                        guess: arbitrary.clone(),
                        children: vec![
                            (
                                Response(1, 0, 0),
                                Some(RefTree {
                                    guess: arbitrary.clone(),
                                    children: vec![(Response(2, 0, 0), None)],
                                })
                            ),
                            (Response(2, 0, 0), None),
                        ],
                    })
                ),
                (Response(2, 0, 0), None),
            ],
        })
    );
}

#[test]
fn test_by_depth_minimum_value() {
    assert_eq!(
        1,
        by_depth(&RefTree { guess: vec![0], children: vec![] })
    );
}

#[test]
fn test_by_depth_one_iff_all_leaves() {
    let all_leaves = RefTree {
        guess: vec![0, 1],
        children: vec![(Response(2, 0, 0), None), (Response(1, 0, 1), None)],
    };
    assert_eq!(1, by_depth(&all_leaves));

    let one_subtree = RefTree {
        guess: vec![0, 1],
        children: vec![
            (
                Response(0, 2, 0),
                Some(RefTree { guess: vec![1, 0], children: vec![] })
            ),
            (Response(2, 0, 0), None),
        ],
    };
    assert!(by_depth(&one_subtree) >= 2);
}
