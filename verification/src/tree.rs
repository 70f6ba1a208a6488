pub mod morphology;
pub mod rank;

use vstd::prelude::*;

use crate::code::{codes_equal, copy_code, response_spec, universe, universe_spec, Code};
use crate::code::{code_seq, lemma_code_seq_wf, lemma_response_terminal_iff};
use crate::response::{is_correct, is_correct_spec, resp_lt_spec, Response};
use crate::tree::morphology::{
    answers_by_response, answers_with, lemma_answers_with_elem_len, lemma_answers_with_le,
    lemma_answers_with_members, lemma_answers_with_nonempty, lemma_answers_with_strict,
    lemma_singleton_partition, morph_view, partition_ok, sig_of, view_has_key, IsomorphCache,
};
use crate::tree::rank::{by_depth, depth, lemma_subdepth_le, lemma_subdepth_zero, subdepth};
use vstd::arithmetic::power::{lemma_pow_positive, pow};

verus! {

broadcast use vstd::std_specs::vec::group_vec_axioms;

/// A strategy tree that owns its codes outright: the final, fully
/// materialised output of a search.
#[derive(Debug, PartialEq, Eq)]
pub struct Tree {
    pub guess: Code,
    pub children: Vec<(Response, Option<Tree>)>,
}

/// A strategy tree as the search builds it. The node plays `guess`; for each
/// feedback the guess can draw from the answers still possible here,
/// `children` holds one entry, in ascending response order: a terminal
/// feedback maps to `None` (the secret is the guess), any other maps to the
/// subtree that handles it.
#[derive(Debug, PartialEq, Eq)]
pub struct RefTree {
    pub guess: Code,
    pub children: Vec<(Response, Option<RefTree>)>,
}

/// The mathematical shadow of a strategy tree: guesses as digit sequences,
/// children as an association sequence.
pub struct TreeShape {
    pub guess: Seq<usize>,
    pub children: Seq<(Response, Option<TreeShape>)>,
}

/// The shape of a search-time tree.
pub open spec fn ref_shape(t: &RefTree) -> TreeShape
    decreases t,
{
    TreeShape { guess: t.guess@, children: ref_shapes(t.children@) }
}

pub open spec fn ref_shapes(cs: Seq<(Response, Option<RefTree>)>) -> Seq<
    (Response, Option<TreeShape>),
>
    decreases cs,
{
    if cs.len() == 0 {
        Seq::empty()
    } else {
        ref_shapes(cs.drop_last()).push(
            (
                cs.last().0,
                match cs.last().1 {
                    Option::None => Option::None,
                    Option::Some(sub) => Option::Some(ref_shape(&sub)),
                },
            ),
        )
    }
}

/// The shape of a materialised tree.
pub open spec fn tree_shape(t: &Tree) -> TreeShape
    decreases t,
{
    TreeShape { guess: t.guess@, children: tree_shapes(t.children@) }
}

pub open spec fn tree_shapes(cs: Seq<(Response, Option<Tree>)>) -> Seq<
    (Response, Option<TreeShape>),
>
    decreases cs,
{
    if cs.len() == 0 {
        Seq::empty()
    } else {
        tree_shapes(cs.drop_last()).push(
            (
                cs.last().0,
                match cs.last().1 {
                    Option::None => Option::None,
                    Option::Some(sub) => Option::Some(tree_shape(&sub)),
                },
            ),
        )
    }
}

/// The shape of a child entry of a search-time tree.
pub open spec fn ref_child_shape(p: (Response, Option<RefTree>)) -> (Response, Option<TreeShape>) {
    (
        p.0,
        match p.1 {
            Option::None => Option::None,
            Option::Some(sub) => Option::Some(ref_shape(&sub)),
        },
    )
}

/// Shaping child entries is elementwise.
pub proof fn lemma_ref_shapes_index(cs: Seq<(Response, Option<RefTree>)>)
    ensures
        ref_shapes(cs).len() == cs.len(),
        forall|i: int| 0 <= i < cs.len() ==> ref_shapes(cs)[i] == ref_child_shape(#[trigger] cs[i]),
    decreases cs,
{
    if cs.len() > 0 {
        lemma_ref_shapes_index(cs.drop_last());
        assert forall|i: int| 0 <= i < cs.len() implies ref_shapes(cs)[i] == ref_child_shape(
            #[trigger] cs[i],
        ) by {
            if i < cs.len() - 1 {
                assert(cs.drop_last()[i] == cs[i]);
                assert(ref_shapes(cs)[i] == ref_shapes(cs.drop_last())[i]);
            } else {
                assert(cs[i] == cs.last());
            }
        }
    }
}

pub proof fn lemma_ref_shapes_push(cs: Seq<(Response, Option<RefTree>)>, p: (Response, Option<RefTree>))
    ensures
        ref_shapes(cs.push(p)) == ref_shapes(cs).push(ref_child_shape(p)),
{
    assert(cs.push(p).drop_last() =~= cs);
    assert(cs.push(p).last() == p);
}

/// The shape of a child entry of a materialised tree.
pub open spec fn tree_child_shape(p: (Response, Option<Tree>)) -> (Response, Option<TreeShape>) {
    (
        p.0,
        match p.1 {
            Option::None => Option::None,
            Option::Some(sub) => Option::Some(tree_shape(&sub)),
        },
    )
}

/// Shaping child entries is elementwise.
pub proof fn lemma_tree_shapes_index(cs: Seq<(Response, Option<Tree>)>)
    ensures
        tree_shapes(cs).len() == cs.len(),
        forall|i: int| 0 <= i < cs.len() ==> tree_shapes(cs)[i] == tree_child_shape(#[trigger] cs[i]),
    decreases cs,
{
    if cs.len() > 0 {
        lemma_tree_shapes_index(cs.drop_last());
        assert forall|i: int| 0 <= i < cs.len() implies tree_shapes(cs)[i] == tree_child_shape(
            #[trigger] cs[i],
        ) by {
            if i < cs.len() - 1 {
                assert(cs.drop_last()[i] == cs[i]);
                assert(tree_shapes(cs)[i] == tree_shapes(cs.drop_last())[i]);
            } else {
                assert(cs[i] == cs.last());
            }
        }
    }
}

pub proof fn lemma_tree_shapes_push(cs: Seq<(Response, Option<Tree>)>, p: (Response, Option<Tree>))
    ensures
        tree_shapes(cs.push(p)) == tree_shapes(cs).push(tree_child_shape(p)),
{
    assert(cs.push(p).drop_last() =~= cs);
    assert(cs.push(p).last() == p);
}

/// The guesses that remain once `g` has been played: `gs` without every copy
/// of `g`, in their original order.
pub open spec fn remove_seq(gs: Seq<Seq<usize>>, g: Seq<usize>) -> Seq<Seq<usize>> {
    gs.filter(|x: Seq<usize>| x != g)
}

proof fn lemma_remove_seq_push(gs: Seq<Seq<usize>>, x: Seq<usize>, g: Seq<usize>)
    ensures
        remove_seq(gs.push(x), g) == if x != g {
            remove_seq(gs, g).push(x)
        } else {
            remove_seq(gs, g)
        },
{
    reveal(Seq::filter);
    assert(gs.push(x).drop_last() =~= gs);
    assert(gs.push(x).last() == x);
}

proof fn lemma_remove_seq_le(gs: Seq<Seq<usize>>, g: Seq<usize>)
    ensures
        remove_seq(gs, g).len() <= gs.len(),
    decreases gs.len(),
{
    reveal(Seq::filter);
    if gs.len() > 0 {
        lemma_remove_seq_le(gs.drop_last(), g);
    }
}

/// Taking a guess out of the pool makes the pool strictly smaller.
proof fn lemma_remove_seq_len(gs: Seq<Seq<usize>>, g: Seq<usize>)
    requires
        gs.contains(g),
    ensures
        remove_seq(gs, g).len() < gs.len(),
    decreases gs.len(),
{
    reveal(Seq::filter);
    if gs.last() == g {
        lemma_remove_seq_le(gs.drop_last(), g);
    } else {
        let k = choose|k: int| 0 <= k < gs.len() && gs[k] == g;
        assert(gs.drop_last()[k] == g);
        assert(gs.drop_last().contains(g));
        lemma_remove_seq_len(gs.drop_last(), g);
    }
}

/// The remaining pool inherits any length bound that holds of every guess.
proof fn lemma_remove_seq_elem_len(gs: Seq<Seq<usize>>, g: Seq<usize>, n: nat)
    requires
        forall|i: int| 0 <= i < gs.len() ==> (#[trigger] gs[i]).len() == n,
    ensures
        forall|i: int|
            0 <= i < remove_seq(gs, g).len() ==> (#[trigger] remove_seq(gs, g)[i]).len() == n,
    decreases gs.len(),
{
    reveal(Seq::filter);
    if gs.len() > 0 {
        assert(forall|k: int| 0 <= k < gs.len() - 1 ==> #[trigger] gs.drop_last()[k] == gs[k]);
        lemma_remove_seq_elem_len(gs.drop_last(), g, n);
        assert(gs.last() == gs[gs.len() - 1]);
        let whole = remove_seq(gs, g);
        let sub = remove_seq(gs.drop_last(), g);
        assert forall|i: int| 0 <= i < whole.len() implies (#[trigger] whole[i]).len() == n by {
            if gs.last() != g {
                assert(whole == sub.push(gs.last()));
                if i < sub.len() {
                    assert(whole[i] == sub[i]);
                } else {
                    assert(whole[i] == gs.last());
                }
            } else {
                assert(whole == sub);
                assert(whole[i] == sub[i]);
            }
        }
    }
}

/// A code other than the one played stays in the pool.
proof fn lemma_remove_seq_keeps(gs: Seq<Seq<usize>>, g: Seq<usize>, x: Seq<usize>)
    requires
        gs.contains(x),
        x != g,
    ensures
        remove_seq(gs, g).contains(x),
    decreases gs.len(),
{
    reveal(Seq::filter);
    let whole = remove_seq(gs, g);
    let sub = remove_seq(gs.drop_last(), g);
    if gs.last() == x {
        assert(whole == sub.push(x));
        assert(whole[whole.len() - 1] == x);
    } else {
        let k = choose|k: int| 0 <= k < gs.len() && gs[k] == x;
        assert(gs.drop_last()[k] == x);
        assert(gs.drop_last().contains(x));
        lemma_remove_seq_keeps(gs.drop_last(), g, x);
        let j = choose|j: int| 0 <= j < sub.len() && sub[j] == x;
        if gs.last() != g {
            assert(whole == sub.push(gs.last()));
        } else {
            assert(whole == sub);
        }
        assert(whole[j] == x);
    }
}

/// Whether every member of `xs` occurs in `pool`.
pub open spec fn all_in(xs: Seq<Seq<usize>>, pool: Seq<Seq<usize>>) -> bool {
    forall|k: int| 0 <= k < xs.len() ==> pool.contains(#[trigger] xs[k])
}

/// Whether a signature reports a terminal response class.
spec fn sig_terminal(sig: Seq<(Response, usize)>) -> bool {
    exists|i: int| 0 <= i < sig.len() && is_correct_spec((#[trigger] sig[i]).0)
}

/// Whether the cache holds some signature with a terminal response class.
spec fn seen_terminal(seen: Seq<Seq<(Response, usize)>>) -> bool {
    exists|si: int| 0 <= si < seen.len() && sig_terminal(#[trigger] seen[si])
}

/// Whether the two pools share a code.
spec fn pools_meet(a: Seq<Seq<usize>>, b: Seq<Seq<usize>>) -> bool {
    exists|x: Seq<usize>| a.contains(x) && b.contains(x)
}

/// Whether some child entry is keyed by the response `r`.
pub open spec fn shape_has_key(cs: Seq<(Response, Option<TreeShape>)>, r: Response) -> bool {
    exists|i: int| 0 <= i < cs.len() && (#[trigger] cs[i]).0 == r
}

/// What it means for a tree to solve `answers` playing guesses from
/// `guesses`: the node's guess is drawn from the pool; its child keys ascend
/// strictly and are exactly the responses the guess draws from some answer;
/// a terminal response ends in a leaf, and every other leads to a subtree
/// that solves the answers of its feedback class without replaying the
/// guess.
pub open spec fn tree_ok(t: TreeShape, guesses: Seq<Seq<usize>>, answers: Seq<Seq<usize>>) -> bool
    decreases t,
{
    &&& guesses.contains(t.guess)
    &&& (forall|i: int, j: int|
        0 <= i < j < t.children.len() ==> resp_lt_spec(t.children[i].0, t.children[j].0))
    &&& (forall|i: int|
        0 <= i < t.children.len() ==> answers_with(
            answers,
            t.guess,
            (#[trigger] t.children[i]).0,
        ).len() > 0)
    &&& (forall|k: int|
        0 <= k < answers.len() ==> shape_has_key(
            t.children,
            response_spec(t.guess, #[trigger] answers[k]),
        ))
    &&& (forall|i: int|
        0 <= i < t.children.len() ==> match (#[trigger] t.children[i]).1 {
            Option::None => is_correct_spec(t.children[i].0),
            Option::Some(sub) => !is_correct_spec(t.children[i].0) && tree_ok(
                sub,
                remove_seq(guesses, t.guess),
                answers_with(answers, t.guess, t.children[i].0),
            ),
        })
}

/// Whether some answer of `answers` draws the response `r` from `guess`.
pub open spec fn response_drawn(guess: Seq<usize>, answers: Seq<Seq<usize>>, r: Response) -> bool {
    exists|k: int| 0 <= k < answers.len() && response_spec(guess, #[trigger] answers[k]) == r
}

/// At every valid node the child keys are exactly the responses its guess
/// draws from its answer set, and a leaf hangs only under a terminal
/// response.
pub proof fn lemma_tree_node_keys(t: TreeShape, guesses: Seq<Seq<usize>>, answers: Seq<Seq<usize>>)
    requires
        tree_ok(t, guesses, answers),
    ensures
        forall|i: int|
            0 <= i < t.children.len() ==> response_drawn(
                t.guess,
                answers,
                (#[trigger] t.children[i]).0,
            ),
        forall|k: int|
            0 <= k < answers.len() ==> shape_has_key(
                t.children,
                response_spec(t.guess, #[trigger] answers[k]),
            ),
        forall|i: int|
            0 <= i < t.children.len() && (#[trigger] t.children[i]).1 is None ==> is_correct_spec(
                t.children[i].0,
            ),
{
    assert forall|i: int| 0 <= i < t.children.len() implies response_drawn(
        t.guess,
        answers,
        (#[trigger] t.children[i]).0,
    ) by {
        assert(answers_with(answers, t.guess, t.children[i].0).len() > 0);
        lemma_answers_with_nonempty(answers, t.guess, t.children[i].0);
    }
}

/// The guesses still playable after `guess`: every code of `guesses` other
/// than `guess`, in their original order.
fn remove_code(guesses: &Vec<Code>, guess: &Code) -> (rest: Vec<Code>)
    ensures
        rest.deep_view() == remove_seq(guesses.deep_view(), guess@),
{
    let ghost gd = guesses.deep_view();
    let mut rest: Vec<Code> = Vec::new();
    let n = guesses.len();
    for i in 0..n
        invariant
            gd == guesses.deep_view(),
            n == guesses@.len(),
            rest.deep_view() == remove_seq(gd.take(i as int), guess@),
    {
        let ghost before = rest.deep_view();
        if !codes_equal(&guesses[i], guess) {
            rest.push(copy_code(&guesses[i]));
            proof {
                assert(guesses@[i as int]@ == gd[i as int]);
                assert(rest.deep_view() =~~= before.push(gd[i as int]));
            }
        }
        proof {
            assert(gd.take(i + 1) =~= gd.take(i as int).push(gd[i as int]));
            lemma_remove_seq_push(gd.take(i as int), gd[i as int], guess@);
            assert(guesses@[i as int]@ == gd[i as int]);
        }
    }
    proof {
        assert(gd.take(n as int) =~= gd);
    }
    rest
}

/// A candidate node built over a full partition of the answers, whose every
/// non-terminal class got a valid subtree below the bound, is itself a valid
/// tree of bounded depth.
proof fn lemma_candidate_ok(
    candidate: &RefTree,
    morph: Seq<(Response, Vec<Vec<usize>>)>,
    gd: Seq<Seq<usize>>,
    ad: Seq<Seq<usize>>,
    bound: int,
)
    requires
        1 <= bound <= usize::MAX,
        gd.contains(candidate.guess@),
        partition_ok(morph_view(morph), candidate.guess@, ad),
        candidate.children@.len() == morph.len(),
        forall|ci: int|
            0 <= ci < morph.len() ==> (#[trigger] candidate.children@[ci]).0 == morph[ci].0,
        forall|ci: int|
            0 <= ci < morph.len() ==> match (#[trigger] candidate.children@[ci]).1 {
                Option::None => is_correct_spec(morph[ci].0),
                Option::Some(sub) => !is_correct_spec(morph[ci].0) && tree_ok(
                    ref_shape(&sub),
                    remove_seq(gd, candidate.guess@),
                    answers_with(ad, candidate.guess@, morph[ci].0),
                ) && depth(ref_shape(&sub)) + 1 < bound,
            },
    ensures
        tree_ok(ref_shape(candidate), gd, ad),
        depth(ref_shape(candidate)) <= usize::MAX,
        bound >= 2 ==> depth(ref_shape(candidate)) < bound,
{
    lemma_ref_shapes_index(candidate.children@);
    let shaped = ref_shapes(candidate.children@);
    let t = ref_shape(candidate);
    let p = morph_view(morph);
    assert forall|i: int| 0 <= i < shaped.len() implies (#[trigger] shaped[i]).0 == morph[i].0 by {
        assert(shaped[i] == ref_child_shape(candidate.children@[i]));
    }
    assert forall|i: int, j: int| 0 <= i < j < shaped.len() implies resp_lt_spec(
        shaped[i].0,
        shaped[j].0,
    ) by {
        assert(p[i].0 == morph[i].0);
        assert(p[j].0 == morph[j].0);
        assert(resp_lt_spec(p[i].0, p[j].0));
    }
    assert forall|i: int| 0 <= i < shaped.len() implies answers_with(
        ad,
        t.guess,
        (#[trigger] shaped[i]).0,
    ).len() > 0 by {
        assert(p[i].1 == answers_with(ad, t.guess, p[i].0));
        assert(p[i].1.len() > 0);
        assert(p[i].0 == morph[i].0);
    }
    assert forall|k: int| 0 <= k < ad.len() implies shape_has_key(
        t.children,
        response_spec(t.guess, #[trigger] ad[k]),
    ) by {
        assert(view_has_key(p, response_spec(t.guess, ad[k])));
        let i = choose|i: int|
            0 <= i < p.len() && (#[trigger] p[i]).0 == response_spec(t.guess, ad[k]);
        assert(shaped[i].0 == response_spec(t.guess, ad[k]));
    }
    assert forall|i: int| 0 <= i < t.children.len() implies match (#[trigger] t.children[i]).1 {
        Option::None => is_correct_spec(t.children[i].0),
        Option::Some(sub) => !is_correct_spec(t.children[i].0) && tree_ok(
            sub,
            remove_seq(gd, t.guess),
            answers_with(ad, t.guess, t.children[i].0),
        ),
    } by {
        assert(shaped[i] == ref_child_shape(candidate.children@[i]));
        match candidate.children@[i].1 {
            Option::None => {},
            Option::Some(sub) => {
                assert(shaped[i].1 == Option::Some(ref_shape(&sub)));
            },
        }
    }
    let d: nat = if bound >= 2 {
        (bound - 2) as nat
    } else {
        0
    };
    assert forall|i: int|
        0 <= i < shaped.len() && (#[trigger] shaped[i]).1 is Some implies depth(
        shaped[i].1->Some_0,
    ) <= d by {
        assert(shaped[i] == ref_child_shape(candidate.children@[i]));
        match candidate.children@[i].1 {
            Option::None => {},
            Option::Some(sub) => {
                assert(depth(ref_shape(&sub)) + 1 < bound);
            },
        }
    }
    lemma_subdepth_le(shaped, d);
    assert(depth(t) == 1 + subdepth(shaped));
}

/// Searches for the best strategy tree that tells the remaining `answers`
/// apart playing guesses from `guesses`: among the candidate guesses whose
/// every non-terminal feedback class can itself be solved within the budget,
/// the first of lowest worst-case depth is kept, and only trees of depth
/// strictly below `optimal_rank` are acceptable. `None` when no candidate
/// beats the bound; when every answer is itself still playable and the bound
/// exceeds the number of answers, the search is guaranteed to succeed. One
/// guess per partition signature is pursued: an isomorphic later guess would
/// yield a tree of the same depth.
pub fn generate(guesses: &Vec<Code>, answers: &Vec<Code>, optimal_rank: usize) -> (best: Option<
    RefTree,
>)
    requires
        forall|i: int, k: int|
            0 <= i < guesses@.len() && 0 <= k < answers@.len() ==> (#[trigger] guesses@[i])@.len()
                == (#[trigger] answers@[k])@.len(),
    ensures
        match best {
            Option::Some(t) => tree_ok(ref_shape(&t), guesses.deep_view(), answers.deep_view())
                && depth(ref_shape(&t)) < optimal_rank,
            Option::None => true,
        },
        optimal_rank == 0 ==> best is None,
        answers.deep_view().len() == 1 && guesses.deep_view().contains(answers.deep_view()[0])
            && optimal_rank >= 2 ==> (best matches Some(t) && depth(ref_shape(&t)) == 1),
        answers.deep_view().len() >= 1 && all_in(answers.deep_view(), guesses.deep_view())
            && optimal_rank > answers.deep_view().len() ==> best is Some,
    decreases guesses@.len(),
{
    if optimal_rank == 0 {
        // no tree can undercut a zero budget
        return Option::None;
    }
    let ghost gd = guesses.deep_view();
    let ghost ad = answers.deep_view();
    // the one case whose success the search can promise: a lone answer that
    // is itself playable is identified by guessing it
    let ghost lone_answer = ad.len() == 1 && gd.contains(ad[0]) && optimal_rank >= 2;
    let ghost lone_sig: Seq<(Response, usize)> = seq![(response_spec(ad[0], ad[0]), 1usize)];
    // whenever every answer is playable and the bound is loose, some guess
    // must succeed: guessing an answer always splits off its terminal class
    let ghost viable = ad.len() >= 1 && all_in(ad, gd) && optimal_rank > ad.len();

    let mut cache = IsomorphCache::new();
    // local_optimal_rank <= optimal_rank and shrinks as better trees are found
    let mut local_optimal_rank = optimal_rank;
    let mut optimal_tree: Option<RefTree> = Option::None;

    let ng = guesses.len();
    for gi in 0..ng
        invariant
            ng == guesses@.len(),
            gd == guesses.deep_view(),
            ad == answers.deep_view(),
            forall|i: int, k: int|
                0 <= i < ng && 0 <= k < answers@.len() ==> (#[trigger] guesses@[i])@.len() == (
                #[trigger] answers@[k])@.len(),
            lone_answer == (ad.len() == 1 && gd.contains(ad[0]) && optimal_rank >= 2),
            lone_sig == seq![(response_spec(ad[0], ad[0]), 1usize)],
            1 <= local_optimal_rank <= optimal_rank,
            match optimal_tree {
                Option::Some(t) => tree_ok(ref_shape(&t), gd, ad) && depth(ref_shape(&t))
                    < optimal_rank && depth(ref_shape(&t)) == local_optimal_rank,
                Option::None => local_optimal_rank == optimal_rank,
            },
            lone_answer ==> (cache.seen().contains(lone_sig) ==> local_optimal_rank == 1
                && optimal_tree is Some),
            lone_answer ==> (gd.take(gi as int).contains(ad[0]) ==> local_optimal_rank == 1
                && optimal_tree is Some),
            viable == (ad.len() >= 1 && all_in(ad, gd) && optimal_rank > ad.len()),
            viable ==> (seen_terminal(cache.seen()) ==> optimal_tree is Some),
            viable ==> (pools_meet(gd.take(gi as int), ad) ==> optimal_tree is Some),
    {
        let guess = &guesses[gi];
        let ghost g = guess@;
        let ghost seen0 = cache.seen();
        proof {
            assert(guesses@[gi as int]@ == gd[gi as int]);
            assert(gd.contains(g));
        }
        let morph = answers_by_response(guess, answers);
        proof {
            if lone_answer {
                assert(ad =~= seq![ad[0]]);
                lemma_singleton_partition(morph@, g, ad[0]);
                assert(answers@[0]@ == ad[0]);
                assert(g.len() == ad[0].len());
                assert(g.len() <= usize::MAX) by {
                    assert(vstd::std_specs::vec::spec_vec_len(&guesses@[gi as int])
                        == guesses@[gi as int]@.len());
                }
                lemma_response_terminal_iff(g, ad[0]);
                lemma_response_terminal_iff(ad[0], ad[0]);
                if g == ad[0] {
                    assert(sig_of(morph@) =~= lone_sig);
                } else {
                    assert(!is_correct_spec(response_spec(g, ad[0])));
                    assert(is_correct_spec(response_spec(ad[0], ad[0])));
                    assert(sig_of(morph@) != lone_sig) by {
                        if sig_of(morph@) == lone_sig {
                            assert(sig_of(morph@)[0] == lone_sig[0]);
                        }
                    }
                }
            }
            if viable {
                // this guess's signature reports a terminal class exactly
                // when the guess is itself one of the answers
                assert(g.len() <= usize::MAX) by {
                    assert(vstd::std_specs::vec::spec_vec_len(&guesses@[gi as int])
                        == guesses@[gi as int]@.len());
                }
                if ad.contains(g) {
                    let k = choose|k: int| 0 <= k < ad.len() && ad[k] == g;
                    lemma_response_terminal_iff(g, ad[k]);
                    assert(view_has_key(morph_view(morph@), response_spec(g, ad[k])));
                    let i = choose|i: int|
                        0 <= i < morph_view(morph@).len() && (#[trigger] morph_view(
                            morph@,
                        )[i]).0 == response_spec(g, ad[k]);
                    assert(sig_of(morph@)[i].0 == morph@[i].0);
                    assert(is_correct_spec(sig_of(morph@)[i].0));
                    assert(sig_terminal(sig_of(morph@)));
                }
                if sig_terminal(sig_of(morph@)) {
                    let i = choose|i: int|
                        0 <= i < sig_of(morph@).len() && is_correct_spec(
                            (#[trigger] sig_of(morph@)[i]).0,
                        );
                    assert(morph@[i].0 == sig_of(morph@)[i].0);
                    assert(morph_view(morph@)[i].1 == answers_with(ad, g, morph@[i].0));
                    assert(morph_view(morph@)[i].1.len() > 0);
                    lemma_answers_with_nonempty(ad, g, morph@[i].0);
                    let k = choose|k: int|
                        0 <= k < ad.len() && response_spec(g, #[trigger] ad[k]) == morph@[i].0;
                    assert(answers@[k]@ == ad[k]);
                    assert(g.len() == ad[k].len());
                    lemma_response_terminal_iff(g, ad[k]);
                    assert(g == ad[k]);
                    assert(ad.contains(g));
                }
            }
        }

        if cache.is_new_morph(&morph) {
            let remaining_guesses = remove_code(guesses, guess);
            let ghost rg = remaining_guesses.deep_view();
            proof {
                lemma_remove_seq_len(gd, g);
            }

            let mut children: Vec<(Response, Option<RefTree>)> = Vec::new();
            let mut abandoned = false;
            let nm = morph.len();
            let mut mi: usize = 0;
            while mi < nm
                invariant_except_break
                    !abandoned,
                    mi <= nm,
                    nm == morph@.len(),
                    gd == guesses.deep_view(),
                    ad == answers.deep_view(),
                    g == gd[gi as int],
                    0 <= gi < gd.len(),
                    forall|i: int, k: int|
                        0 <= i < gd.len() && 0 <= k < ad.len() ==> (#[trigger] gd[i]).len() == (
                        #[trigger] ad[k]).len(),
                    partition_ok(morph_view(morph@), g, ad),
                    rg == remaining_guesses.deep_view(),
                    rg == remove_seq(gd, g),
                    rg.len() < gd.len(),
                    1 <= local_optimal_rank <= optimal_rank,
                    optimal_tree is None ==> local_optimal_rank == optimal_rank,
                    viable == (ad.len() >= 1 && all_in(ad, gd) && optimal_rank > ad.len()),
                    forall|k2: int| 0 <= k2 < answers@.len() ==> (#[trigger] answers@[k2])@ == ad[k2],
                    g == guesses@[gi as int]@,
                    children@.len() == mi,
                    forall|ci: int|
                        0 <= ci < mi ==> (#[trigger] children@[ci]).0 == morph@[ci].0,
                    forall|ci: int|
                        0 <= ci < mi ==> match (#[trigger] children@[ci]).1 {
                            Option::None => is_correct_spec(morph@[ci].0),
                            Option::Some(sub) => !is_correct_spec(morph@[ci].0) && tree_ok(
                                ref_shape(&sub),
                                remove_seq(gd, g),
                                answers_with(ad, g, morph@[ci].0),
                            ) && depth(ref_shape(&sub)) + 1 < local_optimal_rank,
                        },
                ensures
                    abandoned ==> mi < nm && !is_correct_spec(morph@[mi as int].0),
                    viable && ad.contains(g) && optimal_tree is None ==> !abandoned,
                    abandoned || (mi == nm && children@.len() == nm && (forall|ci: int|
                        0 <= ci < nm ==> (#[trigger] children@[ci]).0 == morph@[ci].0) && (forall|
                        ci: int,
                    |
                        0 <= ci < nm ==> match (#[trigger] children@[ci]).1 {
                            Option::None => is_correct_spec(morph@[ci].0),
                            Option::Some(sub) => !is_correct_spec(morph@[ci].0) && tree_ok(
                                ref_shape(&sub),
                                remove_seq(gd, g),
                                answers_with(ad, g, morph@[ci].0),
                            ) && depth(ref_shape(&sub)) + 1 < local_optimal_rank,
                        })),
                decreases nm - mi,
            {
                let pair = &morph[mi];
                if is_correct(&pair.0) {
                    children.push((pair.0, Option::None));
                } else {
                    proof {
                        // the class is nonempty, so answers exist and share the
                        // guess's length, and so do the remaining guesses
                        assert(morph_view(morph@)[mi as int].1 == answers_with(
                            ad,
                            g,
                            morph@[mi as int].0,
                        ));
                        assert(morph_view(morph@)[mi as int].1.len() > 0);
                        lemma_answers_with_le(ad, g, morph@[mi as int].0);
                        assert(ad.len() > 0);
                        assert forall|i: int| 0 <= i < gd.len() implies (#[trigger] gd[i]).len()
                            == g.len() by {
                            assert(gd[i].len() == ad[0].len());
                            assert(gd[gi as int].len() == ad[0].len());
                        }
                        assert forall|k: int| 0 <= k < ad.len() implies (#[trigger] ad[k]).len()
                            == g.len() by {
                            assert(gd[gi as int].len() == ad[k].len());
                        }
                        lemma_remove_seq_elem_len(gd, g, g.len());
                        lemma_answers_with_elem_len(ad, g, morph@[mi as int].0, g.len());
                        assert(pair.1.deep_view() == answers_with(ad, g, morph@[mi as int].0));
                        assert forall|i2: int, k2: int|
                            0 <= i2 < remaining_guesses@.len() && 0 <= k2
                                < pair.1@.len() implies (#[trigger] remaining_guesses@[i2])@.len()
                            == (#[trigger] pair.1@[k2])@.len() by {
                            assert(remaining_guesses@[i2]@ == rg[i2]);
                            assert(pair.1@[k2]@ == pair.1.deep_view()[k2]);
                            assert(rg[i2].len() == g.len());
                            assert(pair.1.deep_view()[k2].len() == g.len());
                        }
                    }
                    let child = generate(&remaining_guesses, &pair.1, local_optimal_rank - 1);
                    match child {
                        Option::None => {
                            proof {
                                if viable && ad.contains(g) && optimal_tree is None {
                                    // with every answer playable and the bound
                                    // still loose, the subtree search cannot
                                    // fail: its class is again all playable,
                                    // strictly smaller, under a loose bound
                                    let group = pair.1.deep_view();
                                    let key = morph@[mi as int].0;
                                    lemma_answers_with_members(ad, g, key);
                                    assert(g.len() <= usize::MAX) by {
                                        assert(vstd::std_specs::vec::spec_vec_len(
                                            &guesses@[gi as int],
                                        ) == guesses@[gi as int]@.len());
                                    }
                                    assert forall|k2: int|
                                        0 <= k2 < group.len() implies rg.contains(
                                        #[trigger] group[k2],
                                    ) by {
                                        assert(ad.contains(group[k2]));
                                        assert(response_spec(g, group[k2]) == key);
                                        assert(group[k2].len() == g.len());
                                        lemma_response_terminal_iff(g, group[k2]);
                                        assert(group[k2] != g);
                                        let k3 = choose|k3: int|
                                            0 <= k3 < ad.len() && ad[k3] == group[k2];
                                        assert(gd.contains(ad[k3]));
                                        lemma_remove_seq_keeps(gd, g, group[k2]);
                                    }
                                    assert(all_in(group, rg));
                                    lemma_response_terminal_iff(g, g);
                                    assert(response_spec(g, g) != key);
                                    lemma_answers_with_strict(ad, g, key, g);
                                    assert(group.len() < ad.len());
                                    assert(local_optimal_rank - 1 > group.len());
                                    assert(false);
                                }
                            }
                            // no subtree of this class beats the budget, so no
                            // tree rooted at this guess can beat it either
                            abandoned = true;
                            break;
                        },
                        Option::Some(sub) => {
                            children.push((pair.0, Option::Some(sub)));
                        },
                    }
                }
                mi = mi + 1;
            }
            proof {
                if lone_answer && g == ad[0] {
                    // the lone class is terminal, so this guess is never
                    // abandoned
                    assert(is_correct_spec(morph@[0].0));
                    assert(!abandoned);
                }
            }
            if !abandoned {
                let candidate = RefTree { guess: copy_code(guess), children };
                proof {
                    lemma_candidate_ok(&candidate, morph@, gd, ad, local_optimal_rank as int);
                }
                let candidate_rank = by_depth(&candidate);
                proof {
                    assert(candidate_rank >= 1);
                    if lone_answer && g == ad[0] {
                        // the candidate is a single leaf: its depth is one
                        lemma_ref_shapes_index(candidate.children@);
                        assert(candidate.children@.len() == 1);
                        assert(candidate.children@[0].1 is None) by {
                            match candidate.children@[0].1 {
                                Option::None => {},
                                Option::Some(sub) => {
                                    assert(!is_correct_spec(morph@[0].0));
                                },
                            }
                        }
                        lemma_subdepth_zero(ref_shapes(candidate.children@));
                        assert(depth(ref_shape(&candidate)) == 1);
                        assert(candidate_rank == 1);
                    }
                }
                if candidate_rank < local_optimal_rank {
                    proof {
                        assert(depth(ref_shape(&candidate)) == 1 + subdepth(
                            ref_shapes(candidate.children@),
                        ));
                    }
                    optimal_tree = Option::Some(candidate);
                    // shrink the bound so the remaining guesses must beat this tree
                    local_optimal_rank = candidate_rank;
                }
                proof {
                    if lone_answer && g == ad[0] {
                        assert(local_optimal_rank == 1);
                    }
                    if viable && ad.contains(g) {
                        // either a tree was already found, or this candidate
                        // beat the untouched bound and was taken
                        assert(optimal_tree is Some);
                    }
                }
            }
            proof {
                if viable {
                    assert(cache.seen() == seen0.push(sig_of(morph@)));
                    if ad.contains(g) {
                        assert(optimal_tree is Some);
                    }
                    if seen_terminal(cache.seen()) {
                        let si = choose|si: int|
                            0 <= si < cache.seen().len() && sig_terminal(
                                #[trigger] cache.seen()[si],
                            );
                        if si < seen0.len() {
                            assert(cache.seen()[si] == seen0[si]);
                            assert(seen_terminal(seen0));
                        } else {
                            assert(sig_terminal(sig_of(morph@)));
                            assert(ad.contains(g));
                        }
                        assert(optimal_tree is Some);
                    }
                    if pools_meet(gd.take(gi + 1), ad) {
                        let x = choose|x: Seq<usize>|
                            gd.take(gi + 1).contains(x) && ad.contains(x);
                        let j = choose|j: int|
                            0 <= j < gi + 1 && #[trigger] gd.take(gi + 1)[j] == x;
                        if j < gi {
                            assert(gd.take(gi as int)[j] == x);
                            assert(gd.take(gi as int).contains(x));
                            assert(pools_meet(gd.take(gi as int), ad));
                        } else {
                            assert(g == x);
                            assert(ad.contains(g));
                        }
                        assert(optimal_tree is Some);
                    }
                }
                if lone_answer {
                    assert(cache.seen() == seen0.push(sig_of(morph@)));
                    if cache.seen().contains(lone_sig) && !seen0.contains(lone_sig) {
                        let si = choose|si: int|
                            0 <= si < cache.seen().len() && cache.seen()[si] == lone_sig;
                        if si < seen0.len() {
                            assert(seen0[si] == lone_sig);
                            assert(seen0.contains(lone_sig));
                        }
                        assert(sig_of(morph@) == lone_sig);
                        assert(g == ad[0]);
                    }
                    if gd.take(gi + 1).contains(ad[0]) {
                        let j = choose|j: int|
                            0 <= j < gi + 1 && #[trigger] gd.take(gi + 1)[j] == ad[0];
                        if j < gi {
                            assert(gd.take(gi as int)[j] == ad[0]);
                            assert(gd.take(gi as int).contains(ad[0]));
                        } else {
                            assert(gd[gi as int] == ad[0]);
                        }
                    }
                }
            }
        } else {
            proof {
                if viable {
                    // the cache already holds this signature, unchanged
                    assert(seen0.contains(sig_of(morph@)));
                    if pools_meet(gd.take(gi + 1), ad) {
                        let x = choose|x: Seq<usize>|
                            gd.take(gi + 1).contains(x) && ad.contains(x);
                        let j = choose|j: int|
                            0 <= j < gi + 1 && #[trigger] gd.take(gi + 1)[j] == x;
                        if j < gi {
                            assert(gd.take(gi as int)[j] == x);
                            assert(gd.take(gi as int).contains(x));
                            assert(pools_meet(gd.take(gi as int), ad));
                        } else {
                            assert(g == x);
                            assert(ad.contains(g));
                            assert(sig_terminal(sig_of(morph@)));
                            let si = choose|si: int|
                                0 <= si < seen0.len() && seen0[si] == sig_of(morph@);
                            assert(sig_terminal(seen0[si]));
                            assert(seen_terminal(seen0));
                        }
                        assert(optimal_tree is Some);
                    }
                }
                if lone_answer {
                    // the cache already holds this signature
                    assert(seen0.contains(sig_of(morph@)));
                    if gd.take(gi + 1).contains(ad[0]) {
                        let j = choose|j: int|
                            0 <= j < gi + 1 && #[trigger] gd.take(gi + 1)[j] == ad[0];
                        if j < gi {
                            assert(gd.take(gi as int)[j] == ad[0]);
                            assert(gd.take(gi as int).contains(ad[0]));
                        } else {
                            assert(gd[gi as int] == ad[0]);
                            assert(g == ad[0]);
                            assert(seen0.contains(lone_sig));
                        }
                    }
                }
            }
        }
    }
    proof {
        assert(gd.take(ng as int) =~= gd);
        if viable {
            assert(ad.contains(ad[0]));
            assert(gd.contains(ad[0]));
            assert(pools_meet(gd, ad));
        }
    }

    optimal_tree
}

/// Searches the whole universe of codes of the given length and base for a
/// depth-optimal strategy tree. The starting bound of one more than the size
/// of the universe is loose enough that the search always succeeds: any
/// answer, guessed, splits off its own terminal class, so a valid tree never
/// needs more guesses than there are answers.
pub fn generate_exhaustively(code_length: usize, code_base: usize) -> (best: Tree)
    requires
        code_length >= 1,
        code_base >= 1,
        pow(code_base as int, code_length as nat) < usize::MAX,
    ensures
        tree_ok(
            tree_shape(&best),
            universe_spec(code_length, code_base),
            universe_spec(code_length, code_base),
        ),
        depth(tree_shape(&best)) <= pow(code_base as int, code_length as nat),
        pow(code_base as int, code_length as nat) == 1 ==> depth(tree_shape(&best)) == 1,
{
    let u = universe(code_length, code_base);
    let ghost ud = u.deep_view();
    proof {
        lemma_pow_positive(code_base as int, code_length as nat);
        assert(ud.len() >= 1);
        assert forall|k: int| 0 <= k < ud.len() implies ud.contains(#[trigger] ud[k]) by {
            assert(ud[k] == ud[k]);
        }
        assert(all_in(ud, ud));
        if pow(code_base as int, code_length as nat) == 1 {
            assert(ud.contains(ud[0]));
        }
    }
    proof {
        assert forall|i: int, k: int|
            0 <= i < u@.len() && 0 <= k < u@.len() implies (#[trigger] u@[i])@.len() == (
        #[trigger] u@[k])@.len() by {
            assert(ud[i] == code_seq(i as nat, code_length as nat, code_base));
            assert(ud[k] == code_seq(k as nat, code_length as nat, code_base));
            lemma_code_seq_wf(i as nat, code_length as nat, code_base);
            lemma_code_seq_wf(k as nat, code_length as nat, code_base);
            assert(u@[i]@ == ud[i]);
            assert(u@[k]@ == ud[k]);
        }
    }
    // a sentinel bound: strictly larger than any optimal tree's depth
    let bound = u.len() + 1;
    let found = generate(&u, &u, bound);
    found.unwrap().to_tree()
}

impl RefTree {
    /// A fully owned duplicate of this tree, shape for shape.
    pub fn to_tree(&self) -> (t: Tree)
        ensures
            tree_shape(&t) == ref_shape(self),
        decreases self,
    {
        proof {
            lemma_ref_shapes_index(self.children@);
        }
        let mut children: Vec<(Response, Option<Tree>)> = Vec::new();
        let n = self.children.len();
        for ci in 0..n
            invariant
                n == self.children@.len(),
                children@.len() == ci,
                tree_shapes(children@) == ref_shapes(self.children@.take(ci as int)),
        {
            let pair = &self.children[ci];
            let sub: Option<Tree> = match &pair.1 {
                Option::None => Option::None,
                Option::Some(r) => Option::Some(r.to_tree()),
            };
            proof {
                lemma_tree_shapes_push(children@, (pair.0, sub));
            }
            children.push((pair.0, sub));
            proof {
                assert(self.children@.take(ci + 1) =~= self.children@.take(ci as int).push(
                    self.children@[ci as int],
                ));
                lemma_ref_shapes_push(self.children@.take(ci as int), self.children@[ci as int]);
                assert(tree_child_shape((pair.0, sub)) == ref_child_shape(
                    self.children@[ci as int],
                ));
            }
        }
        proof {
            assert(self.children@.take(n as int) =~= self.children@);
        }
        Tree { guess: copy_code(&self.guess), children }
    }
}

} // verus!
