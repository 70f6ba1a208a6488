use mastermind::code::{universe, Code};
use mastermind::response::Response;
use mastermind::tree::morphology::{answers_by_response, IsomorphCache};

#[test]
fn test_answers_by_response() {
    let c01: Code = vec![0, 1];
    let c10: Code = vec![1, 0];
    let c11: Code = vec![1, 1];

    assert_eq!(
        answers_by_response(&c11, &vec![c01.clone(), c10.clone(), c11.clone()]),
        vec![
            (Response(1, 0, 1), vec![c01, c10]),
            (Response(2, 0, 0), vec![c11]),
        ]
    );
}

#[test]
fn test_isomorph_cache_is_new_morph() {
    let c00 = vec![0, 0];
    let c11 = vec![1, 1];
    let c22 = vec![2, 2];
    let answers = universe(2, 2);
    let mut cache = IsomorphCache::new();

    assert!(
        cache.is_new_morph(&answers_by_response(&c00, &answers)),
        "The first entry of a morphology is always new"
    );

    assert!(
        !cache.is_new_morph(&answers_by_response(&c11, &answers)),
        "Guess 11 against answers [00, 01, 10, 11] is isomorphic to guess
        00, which is already cached."
    );

    assert!(
        cache.is_new_morph(&answers_by_response(&c22, &answers)),
        "Guess 22 against answers [00, 01, 01, 11] is not isomorphic to
        guess 00, and so it is new."
    );
}

#[test]
fn test_answers_by_response_keys_are_sorted_and_complete() {
    let guess: Code = vec![0, 0];
    let answers = universe(2, 2);
    let morph = answers_by_response(&guess, &answers);

    // one entry per distinct response, ascending, none empty
    for w in morph.windows(2) {
        assert!(w[0].0 < w[1].0);
    }
    let mut grouped = 0;
    for (_, group) in &morph {
        assert!(!group.is_empty());
        grouped += group.len();
    }
    assert_eq!(grouped, answers.len());
}
