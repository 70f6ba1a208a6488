use vstd::prelude::*;

use crate::code::{compare, copy_code, response_spec, Code};
use crate::response::{resp_lt, resp_lt_spec, Response};

verus! {

broadcast use vstd::std_specs::vec::group_vec_axioms;

/// The answers of `answers` that draw the feedback `r` from `guess`, in
/// their original order.
pub open spec fn answers_with(
    answers: Seq<Seq<usize>>,
    guess: Seq<usize>,
    r: Response,
) -> Seq<Seq<usize>> {
    answers.filter(|a: Seq<usize>| response_spec(guess, a) == r)
}

/// A partition as the mathematics sees it: each key with the contents of its
/// group.
pub open spec fn morph_view(m: Seq<(Response, Vec<Vec<usize>>)>) -> Seq<
    (Response, Seq<Seq<usize>>),
> {
    Seq::new(m.len(), |i: int| (m[i].0, m[i].1.deep_view()))
}

/// Whether some entry of the partition is keyed by the response `r`.
pub open spec fn has_key(m: Seq<(Response, Vec<Vec<usize>>)>, r: Response) -> bool {
    exists|i: int| 0 <= i < m.len() && (#[trigger] m[i]).0 == r
}

/// Whether some entry of the partition view is keyed by the response `r`.
pub open spec fn view_has_key(p: Seq<(Response, Seq<Seq<usize>>)>, r: Response) -> bool {
    exists|i: int| 0 <= i < p.len() && (#[trigger] p[i]).0 == r
}

/// What it means for `p` to partition `answers` by the response each answer
/// draws from `guess`: keys ascend strictly, every key is drawn by some
/// answer, every answer's response appears as a key, and each key's group
/// holds exactly the answers that draw it, in their original order.
pub open spec fn partition_ok(
    p: Seq<(Response, Seq<Seq<usize>>)>,
    guess: Seq<usize>,
    answers: Seq<Seq<usize>>,
) -> bool {
    &&& (forall|i: int, j: int| 0 <= i < j < p.len() ==> resp_lt_spec(p[i].0, p[j].0))
    &&& (forall|i: int|
        0 <= i < p.len() ==> (#[trigger] p[i]).1 == answers_with(answers, guess, p[i].0))
    &&& (forall|i: int| 0 <= i < p.len() ==> (#[trigger] p[i]).1.len() > 0)
    &&& (forall|k: int|
        0 <= k < answers.len() ==> view_has_key(p, response_spec(guess, #[trigger] answers[k])))
}

/// The signature of a partition: each response key with the size of its
/// group. Two guesses whose partitions of one answer set have equal
/// signatures are isomorphic for a depth rank: they split the answers into
/// classes of the same sizes under the same feedback labels.
pub open spec fn sig_of(m: Seq<(Response, Vec<Vec<usize>>)>) -> Seq<(Response, usize)> {
    Seq::new(m.len(), |i: int| (m[i].0, m[i].1@.len() as usize))
}

/// Decides equality of two signatures.
fn sigs_equal(a: &Vec<(Response, usize)>, b: &Vec<(Response, usize)>) -> (eq: bool)
    ensures
        eq == (a@ == b@),
{
    if a.len() != b.len() {
        return false;
    }
    let n = a.len();
    for i in 0..n
        invariant
            n == a@.len() == b@.len(),
            forall|j: int| 0 <= j < i ==> a@[j] == b@[j],
    {
        if a[i].0 != b[i].0 || a[i].1 != b[i].1 {
            proof {
                assert(a@[i as int] != b@[i as int]);
            }
            return false;
        }
    }
    proof {
        assert(a@ =~= b@);
    }
    true
}

/// Remembers the partition signatures already offered at one recursion frame
/// of the search, so that only one guess of each isomorphism class is
/// pursued. The cache is local to its frame and dropped with it.
#[derive(Debug)]
pub struct IsomorphCache {
    cache: Vec<Vec<(Response, usize)>>,
}

impl IsomorphCache {
    /// The signatures this cache holds, in the order they were accepted.
    pub closed spec fn seen(&self) -> Seq<Seq<(Response, usize)>> {
        Seq::new(self.cache@.len(), |i: int| self.cache@[i]@)
    }

    /// An empty cache, for the start of a frame.
    pub fn new() -> (c: IsomorphCache)
        ensures
            c.seen() == Seq::<Seq<(Response, usize)>>::empty(),
    {
        let c = IsomorphCache { cache: Vec::new() };
        proof {
            assert(c.seen() =~= Seq::<Seq<(Response, usize)>>::empty());
        }
        c
    }

    /// True, and the signature is remembered, when no guess with this
    /// partition signature was offered at this frame before; false, and the
    /// cache is unchanged, otherwise.
    pub fn is_new_morph(&mut self, morphology: &Vec<(Response, Vec<Code>)>) -> (novel: bool)
        ensures
            novel == !old(self).seen().contains(sig_of(morphology@)),
            novel ==> final(self).seen() == old(self).seen().push(sig_of(morphology@)),
            !novel ==> final(self).seen() == old(self).seen(),
    {
        let mut sig: Vec<(Response, usize)> = Vec::new();
        let m = morphology.len();
        for i in 0..m
            invariant
                m == morphology@.len(),
                sig@.len() == i,
                forall|j: int|
                    0 <= j < i ==> sig@[j] == (morphology@[j].0, morphology@[j].1@.len() as usize),
        {
            sig.push((morphology[i].0, morphology[i].1.len()));
        }
        proof {
            assert(sig@ =~= sig_of(morphology@));
        }

        let n = self.cache.len();
        for j in 0..n
            invariant
                *self == *old(self),
                n == self.cache@.len(),
                sig@ == sig_of(morphology@),
                forall|j2: int| 0 <= j2 < j ==> self.seen()[j2] != sig@,
        {
            if sigs_equal(&self.cache[j], &sig) {
                proof {
                    assert(self.seen()[j as int] == sig_of(morphology@));
                    assert(self.seen().contains(sig_of(morphology@)));
                }
                return false;
            }
        }
        proof {
            assert(!self.seen().contains(sig_of(morphology@))) by {
                if self.seen().contains(sig_of(morphology@)) {
                    let j = choose|j: int|
                        0 <= j < self.seen().len() && self.seen()[j] == sig_of(morphology@);
                }
            }
        }
        let ghost before = self.seen();
        self.cache.push(sig);
        proof {
            assert(self.seen() =~= before.push(sig_of(morphology@)));
        }
        true
    }
}

/// Appending an answer extends exactly the group of its own response and no
/// other.
proof fn lemma_answers_with_push(
    answers: Seq<Seq<usize>>,
    a: Seq<usize>,
    guess: Seq<usize>,
    r: Response,
)
    ensures
        answers_with(answers.push(a), guess, r) == if response_spec(guess, a) == r {
            answers_with(answers, guess, r).push(a)
        } else {
            answers_with(answers, guess, r)
        },
{
    reveal(Seq::filter);
    assert(answers.push(a).drop_last() =~= answers);
    assert(answers.push(a).last() == a);
}

/// When no answer draws `r`, the group of `r` is empty.
proof fn lemma_answers_with_empty(answers: Seq<Seq<usize>>, guess: Seq<usize>, r: Response)
    requires
        forall|k: int| 0 <= k < answers.len() ==> response_spec(guess, #[trigger] answers[k]) != r,
    ensures
        answers_with(answers, guess, r) == Seq::<Seq<usize>>::empty(),
    decreases answers.len(),
{
    reveal(Seq::filter);
    if answers.len() > 0 {
        assert(forall|k: int|
            0 <= k < answers.len() - 1 ==> #[trigger] answers.drop_last()[k] == answers[k]);
        lemma_answers_with_empty(answers.drop_last(), guess, r);
        assert(answers.last() == answers[answers.len() - 1]);
    }
    assert(answers_with(answers, guess, r) =~= Seq::<Seq<usize>>::empty());
}

/// A response has a nonempty group exactly when some answer draws it.
pub proof fn lemma_answers_with_nonempty(answers: Seq<Seq<usize>>, guess: Seq<usize>, r: Response)
    ensures
        answers_with(answers, guess, r).len() > 0 <==> exists|k: int|
            0 <= k < answers.len() && response_spec(guess, #[trigger] answers[k]) == r,
    decreases answers.len(),
{
    reveal(Seq::filter);
    if answers.len() == 0 {
    } else {
        lemma_answers_with_nonempty(answers.drop_last(), guess, r);
        assert(forall|k: int|
            0 <= k < answers.len() - 1 ==> #[trigger] answers.drop_last()[k] == answers[k]);
        if answers_with(answers, guess, r).len() > 0 {
            if response_spec(guess, answers.last()) == r {
                assert(response_spec(guess, answers[answers.len() - 1]) == r);
            } else {
                let k = choose|k: int|
                    0 <= k < answers.drop_last().len() && response_spec(
                        guess,
                        #[trigger] answers.drop_last()[k],
                    ) == r;
                assert(response_spec(guess, answers[k]) == r);
            }
        } else {
            if exists|k: int|
                0 <= k < answers.len() && response_spec(guess, #[trigger] answers[k]) == r {
                let k = choose|k: int|
                    0 <= k < answers.len() && response_spec(guess, #[trigger] answers[k]) == r;
                if k < answers.len() - 1 {
                    assert(response_spec(guess, answers.drop_last()[k]) == r);
                } else {
                    assert(answers.last() == answers[k]);
                }
            }
        }
    }
}

/// Over a single answer, a partition has exactly one entry: the answer's
/// own response, with the answer as its whole group.
pub proof fn lemma_singleton_partition(
    m: Seq<(Response, Vec<Vec<usize>>)>,
    guess: Seq<usize>,
    a: Seq<usize>,
)
    requires
        partition_ok(morph_view(m), guess, seq![a]),
    ensures
        m.len() == 1,
        m[0].0 == response_spec(guess, a),
        m[0].1@.len() == 1,
{
    let p = morph_view(m);
    let ans: Seq<Seq<usize>> = seq![a];
    assert(ans[0] == a);
    assert forall|i: int| 0 <= i < p.len() implies (#[trigger] p[i]).0 == response_spec(
        guess,
        a,
    ) by {
        assert(p[i].1 == answers_with(ans, guess, p[i].0));
        assert(p[i].1.len() > 0);
        lemma_answers_with_nonempty(ans, guess, p[i].0);
        let k = choose|k: int|
            0 <= k < ans.len() && response_spec(guess, #[trigger] ans[k]) == p[i].0;
        assert(k == 0);
    }
    assert(view_has_key(p, response_spec(guess, ans[0])));
    let i0 = choose|i: int|
        0 <= i < p.len() && (#[trigger] p[i]).0 == response_spec(guess, ans[0]);
    assert(p.len() >= 1);
    if p.len() >= 2 {
        assert(resp_lt_spec(p[0].0, p[1].0));
        assert(false);
    }
    assert(p[0].1 == answers_with(ans, guess, p[0].0));
    assert(answers_with(ans, guess, p[0].0) == Seq::<Seq<usize>>::empty().push(a)) by {
        reveal(Seq::filter);
        assert(ans.drop_last() =~= Seq::<Seq<usize>>::empty());
        assert(ans.last() == a);
        assert(answers_with(Seq::<Seq<usize>>::empty(), guess, p[0].0) == Seq::<
            Seq<usize>,
        >::empty());
    }
    assert(p[0].1.len() == 1);
    assert(p[0] == (m[0].0, m[0].1.deep_view()));
}

/// A group draws on the answer set alone: each of its members is an answer,
/// and one that draws exactly the group's response.
pub proof fn lemma_answers_with_members(answers: Seq<Seq<usize>>, guess: Seq<usize>, r: Response)
    ensures
        forall|i: int|
            0 <= i < answers_with(answers, guess, r).len() ==> answers.contains(
                #[trigger] answers_with(answers, guess, r)[i],
            ),
        forall|i: int|
            0 <= i < answers_with(answers, guess, r).len() ==> response_spec(
                guess,
                #[trigger] answers_with(answers, guess, r)[i],
            ) == r,
    decreases answers.len(),
{
    reveal(Seq::filter);
    if answers.len() > 0 {
        lemma_answers_with_members(answers.drop_last(), guess, r);
        assert(answers.last() == answers[answers.len() - 1]);
        let whole = answers_with(answers, guess, r);
        let sub = answers_with(answers.drop_last(), guess, r);
        assert forall|i: int| 0 <= i < whole.len() implies answers.contains(#[trigger] whole[i])
            && response_spec(guess, whole[i]) == r by {
            if response_spec(guess, answers.last()) == r && i == sub.len() {
                assert(whole == sub.push(answers.last()));
                assert(whole[i] == answers[answers.len() - 1]);
            } else {
                if response_spec(guess, answers.last()) == r {
                    assert(whole == sub.push(answers.last()));
                    assert(whole[i] == sub[i]);
                } else {
                    assert(whole == sub);
                    assert(whole[i] == sub[i]);
                }
                assert(answers.drop_last().contains(whole[i]));
                let j = choose|j: int|
                    0 <= j < answers.drop_last().len() && answers.drop_last()[j] == whole[i];
                assert(answers[j] == whole[i]);
            }
        }
    }
}

/// A response the given answer does not draw has a group missing at least
/// that answer.
pub proof fn lemma_answers_with_strict(
    answers: Seq<Seq<usize>>,
    guess: Seq<usize>,
    r: Response,
    x: Seq<usize>,
)
    requires
        answers.contains(x),
        response_spec(guess, x) != r,
    ensures
        answers_with(answers, guess, r).len() < answers.len(),
    decreases answers.len(),
{
    reveal(Seq::filter);
    if answers.last() == x {
        lemma_answers_with_le(answers.drop_last(), guess, r);
    } else {
        let k = choose|k: int| 0 <= k < answers.len() && answers[k] == x;
        assert(answers.drop_last()[k] == x);
        assert(answers.drop_last().contains(x));
        lemma_answers_with_strict(answers.drop_last(), guess, r, x);
    }
}

/// A group never holds more than the whole answer set.
pub proof fn lemma_answers_with_le(answers: Seq<Seq<usize>>, guess: Seq<usize>, r: Response)
    ensures
        answers_with(answers, guess, r).len() <= answers.len(),
    decreases answers.len(),
{
    reveal(Seq::filter);
    if answers.len() > 0 {
        lemma_answers_with_le(answers.drop_last(), guess, r);
    }
}

/// A group inherits any length bound that holds of every answer.
pub proof fn lemma_answers_with_elem_len(
    answers: Seq<Seq<usize>>,
    guess: Seq<usize>,
    r: Response,
    n: nat,
)
    requires
        forall|k: int| 0 <= k < answers.len() ==> (#[trigger] answers[k]).len() == n,
    ensures
        forall|i: int|
            0 <= i < answers_with(answers, guess, r).len() ==> (#[trigger] answers_with(
                answers,
                guess,
                r,
            )[i]).len() == n,
    decreases answers.len(),
{
    reveal(Seq::filter);
    if answers.len() > 0 {
        assert(forall|k: int|
            0 <= k < answers.len() - 1 ==> #[trigger] answers.drop_last()[k] == answers[k]);
        lemma_answers_with_elem_len(answers.drop_last(), guess, r, n);
        assert(answers.last() == answers[answers.len() - 1]);
        let whole = answers_with(answers, guess, r);
        let sub = answers_with(answers.drop_last(), guess, r);
        assert forall|i: int| 0 <= i < whole.len() implies (#[trigger] whole[i]).len() == n by {
            if response_spec(guess, answers.last()) == r {
                assert(whole == sub.push(answers.last()));
                if i < sub.len() {
                    assert(whole[i] == sub[i]);
                } else {
                    assert(whole[i] == answers.last());
                }
            } else {
                assert(whole == sub);
                assert(whole[i] == sub[i]);
            }
        }
    }
}

/// Files the answer numbered `k`, whose response is `r`, into a partition of
/// the `k` answers before it: either into the group already keyed by `r`, or
/// into a fresh group opened where the key order puts it.
#[verifier::rlimit(50)]
fn add_answer(
    morph: &mut Vec<(Response, Vec<Code>)>,
    r: Response,
    answer: &Code,
    Ghost(g): Ghost<Seq<usize>>,
    Ghost(ad): Ghost<Seq<Seq<usize>>>,
    Ghost(k): Ghost<int>,
)
    requires
        0 <= k < ad.len(),
        ad[k] == answer@,
        r == response_spec(g, answer@),
        forall|i: int, j: int|
            0 <= i < j < old(morph)@.len() ==> resp_lt_spec(
                old(morph)@[i].0,
                old(morph)@[j].0,
            ),
        forall|i: int|
            0 <= i < old(morph)@.len() ==> (#[trigger] old(morph)@[i]).1.deep_view()
                == answers_with(ad.take(k), g, old(morph)@[i].0),
        forall|i: int| 0 <= i < old(morph)@.len() ==> (#[trigger] old(morph)@[i]).1@.len() > 0,
        forall|k2: int|
            0 <= k2 < k ==> has_key(old(morph)@, response_spec(g, #[trigger] ad[k2])),
    ensures
        forall|i: int, j: int|
            0 <= i < j < final(morph)@.len() ==> resp_lt_spec(
                final(morph)@[i].0,
                final(morph)@[j].0,
            ),
        forall|i: int|
            0 <= i < final(morph)@.len() ==> (#[trigger] final(morph)@[i]).1.deep_view()
                == answers_with(ad.take(k + 1), g, final(morph)@[i].0),
        forall|i: int| 0 <= i < final(morph)@.len() ==> (#[trigger] final(morph)@[i]).1@.len()
            > 0,
        forall|k2: int|
            0 <= k2 < k + 1 ==> has_key(final(morph)@, response_spec(g, #[trigger] ad[k2])),
{
    let ghost prefix = ad.take(k);
    let ghost q = ad.take(k + 1);
    proof {
        assert(q =~= prefix.push(answer@));
    }
    let ghost old_morph = morph@;

    // find the slot where this response belongs
    let mut pos: usize = 0;
    while pos < morph.len()
        invariant_except_break
            pos <= morph@.len(),
            morph@ == old_morph,
            forall|i: int| 0 <= i < pos ==> resp_lt_spec((#[trigger] morph@[i]).0, r),
        ensures
            pos <= morph@.len(),
            morph@ == old_morph,
            forall|i: int| 0 <= i < pos ==> resp_lt_spec((#[trigger] morph@[i]).0, r),
            pos < morph@.len() ==> !resp_lt_spec(morph@[pos as int].0, r),
        decreases morph@.len() - pos,
    {
        if !resp_lt(&morph[pos].0, &r) {
            break;
        }
        pos = pos + 1;
    }

    let hit = pos < morph.len() && morph[pos].0 == r;
    if hit {
        // the response is already a key: extend its group
        let mut entry = morph.remove(pos);
        entry.1.push(copy_code(answer));
        morph.insert(pos, entry);
        proof {
            assert(morph@ =~= old_morph.update(pos as int, morph@[pos as int]));
            assert(morph@[pos as int].0 == r);
            assert(morph@[pos as int].1.deep_view() =~~= old_morph[pos as int].1.deep_view().push(
                answer@,
            ));
            assert forall|i: int| 0 <= i < morph@.len() implies (#[trigger] morph@[i]).0
                == old_morph[i].0 by {
                if i != pos {
                    assert(morph@[i] == old_morph[i]);
                }
            }
            assert forall|i: int, j: int| 0 <= i < j < morph@.len() implies resp_lt_spec(
                morph@[i].0,
                morph@[j].0,
            ) by {
                assert(resp_lt_spec(old_morph[i].0, old_morph[j].0));
            }
            assert forall|i: int| 0 <= i < morph@.len() implies (
            #[trigger] morph@[i]).1.deep_view() == answers_with(q, g, morph@[i].0) by {
                lemma_answers_with_push(prefix, answer@, g, morph@[i].0);
                if i != pos {
                    assert(morph@[i] == old_morph[i]);
                    if i < pos {
                        assert(resp_lt_spec(morph@[i].0, r));
                    } else {
                        assert(resp_lt_spec(r, morph@[i].0));
                    }
                    assert(morph@[i].0 != r);
                }
            }
            assert forall|i: int| 0 <= i < morph@.len() implies (#[trigger] morph@[i]).1@.len()
                > 0 by {
                if i != pos {
                    assert(morph@[i] == old_morph[i]);
                }
            }
            assert forall|k2: int| 0 <= k2 < k + 1 implies has_key(
                morph@,
                response_spec(g, #[trigger] ad[k2]),
            ) by {
                if k2 == k {
                    assert(morph@[pos as int].0 == response_spec(g, ad[k2]));
                } else {
                    let i = choose|i: int|
                        0 <= i < old_morph.len() && (#[trigger] old_morph[i]).0 == response_spec(
                            g,
                            ad[k2],
                        );
                    assert(morph@[i].0 == response_spec(g, ad[k2]));
                }
            }
        }
    } else {
        // a new response class: open its group where the order puts it
        proof {
            if pos < morph@.len() {
                assert(resp_lt_spec(r, morph@[pos as int].0));
            }
            assert forall|i: int| 0 <= i < morph@.len() implies (#[trigger] morph@[i]).0 != r by {
                if i < pos {
                    assert(resp_lt_spec(morph@[i].0, r));
                } else {
                    assert(resp_lt_spec(r, morph@[pos as int].0));
                    if i > pos {
                        assert(resp_lt_spec(morph@[pos as int].0, morph@[i].0));
                    }
                }
            }
            assert forall|k2: int| 0 <= k2 < prefix.len() implies response_spec(
                g,
                #[trigger] prefix[k2],
            ) != r by {
                assert(prefix[k2] == ad[k2]);
                assert(has_key(old_morph, response_spec(g, ad[k2])));
                let i = choose|i: int|
                    0 <= i < old_morph.len() && (#[trigger] old_morph[i]).0 == response_spec(
                        g,
                        ad[k2],
                    );
            }
            lemma_answers_with_empty(prefix, g, r);
        }
        let mut group: Vec<Code> = Vec::new();
        group.push(copy_code(answer));
        morph.insert(pos, (r, group));
        proof {
            assert(morph@ =~= old_morph.insert(pos as int, morph@[pos as int]));
            assert(morph@[pos as int].0 == r);
            assert(morph@[pos as int].1.deep_view() =~~= Seq::<Seq<usize>>::empty().push(answer@));
            assert forall|i: int, j: int| 0 <= i < j < morph@.len() implies resp_lt_spec(
                morph@[i].0,
                morph@[j].0,
            ) by {
                if j < pos {
                } else if i < pos && j == pos {
                    assert(resp_lt_spec(old_morph[i].0, r));
                } else if i < pos && j > pos {
                    assert(morph@[j] == old_morph[j - 1]);
                } else if i == pos {
                    assert(morph@[j] == old_morph[j - 1]);
                    assert(resp_lt_spec(r, old_morph[pos as int].0));
                    if j - 1 > pos {
                        assert(resp_lt_spec(old_morph[pos as int].0, old_morph[j - 1].0));
                    }
                } else {
                    assert(morph@[i] == old_morph[i - 1]);
                    assert(morph@[j] == old_morph[j - 1]);
                }
            }
            assert forall|i: int| 0 <= i < morph@.len() implies (
            #[trigger] morph@[i]).1.deep_view() == answers_with(q, g, morph@[i].0) by {
                lemma_answers_with_push(prefix, answer@, g, morph@[i].0);
                if i < pos {
                    assert(morph@[i] == old_morph[i]);
                    assert(morph@[i].0 != r);
                } else if i > pos {
                    assert(morph@[i] == old_morph[i - 1]);
                    assert(morph@[i].0 != r);
                }
            }
            assert forall|i: int| 0 <= i < morph@.len() implies (#[trigger] morph@[i]).1@.len()
                > 0 by {
                if i < pos {
                    assert(morph@[i] == old_morph[i]);
                } else if i > pos {
                    assert(morph@[i] == old_morph[i - 1]);
                }
            }
            assert forall|k2: int| 0 <= k2 < k + 1 implies has_key(
                morph@,
                response_spec(g, #[trigger] ad[k2]),
            ) by {
                if k2 == k {
                    assert(morph@[pos as int].0 == response_spec(g, ad[k2]));
                } else {
                    assert(has_key(old_morph, response_spec(g, ad[k2])));
                    let i = choose|i: int|
                        0 <= i < old_morph.len() && (#[trigger] old_morph[i]).0 == response_spec(
                            g,
                            ad[k2],
                        );
                    let inew: int = if i < pos {
                        i
                    } else {
                        i + 1
                    };
                    assert(morph@[inew] == old_morph[i]);
                    assert(morph@[inew].0 == response_spec(g, ad[k2]));
                }
            }
        }
    }
}

/// Partitions `answers` by the response each would draw from `guess`: one
/// entry per distinct response, keys in ascending order, each group holding
/// the answers of its class in their original order.
#[verifier::rlimit(50)]
pub fn answers_by_response(guess: &Code, answers: &Vec<Code>) -> (morph: Vec<(Response, Vec<Code>)>)
    requires
        forall|k: int| 0 <= k < answers@.len() ==> (#[trigger] answers@[k])@.len() == guess@.len(),
    ensures
        partition_ok(morph_view(morph@), guess@, answers.deep_view()),
{
    let ghost g = guess@;
    let ghost ad = answers.deep_view();
    let mut morph: Vec<(Response, Vec<Code>)> = Vec::new();
    let n = answers.len();
    for k in 0..n
        invariant
            n == answers@.len(),
            g == guess@,
            ad == answers.deep_view(),
            ad.len() == n,
            forall|k2: int| 0 <= k2 < n ==> (#[trigger] answers@[k2])@.len() == g.len(),
            forall|i: int, j: int|
                0 <= i < j < morph@.len() ==> resp_lt_spec(morph@[i].0, morph@[j].0),
            forall|i: int|
                0 <= i < morph@.len() ==> (#[trigger] morph@[i]).1.deep_view() == answers_with(
                    ad.take(k as int),
                    g,
                    morph@[i].0,
                ),
            forall|i: int| 0 <= i < morph@.len() ==> (#[trigger] morph@[i]).1@.len() > 0,
            forall|k2: int|
                0 <= k2 < k ==> has_key(morph@, response_spec(g, #[trigger] ad[k2])),
    {
        let r = compare(guess, &answers[k]);
        proof {
            assert(answers@[k as int]@ == ad[k as int]);
        }
        add_answer(&mut morph, r, &answers[k], Ghost(g), Ghost(ad), Ghost(k as int));
    }
    proof {
        assert(ad.take(n as int) =~= ad);
        let p = morph_view(morph@);
        assert(p.len() == morph@.len());
        assert forall|i: int, j: int| 0 <= i < j < p.len() implies resp_lt_spec(
            p[i].0,
            p[j].0,
        ) by {
            assert(resp_lt_spec(morph@[i].0, morph@[j].0));
        }
        assert forall|i: int| 0 <= i < p.len() implies (#[trigger] p[i]).1 == answers_with(
            ad,
            g,
            p[i].0,
        ) by {
            assert(morph@[i].1.deep_view() == answers_with(ad.take(n as int), g, morph@[i].0));
        }
        assert forall|i: int| 0 <= i < p.len() implies (#[trigger] p[i]).1.len() > 0 by {
            assert(morph@[i].1@.len() > 0);
            assert(p[i].1 == morph@[i].1.deep_view());
        }
        assert forall|k: int| 0 <= k < ad.len() implies view_has_key(
            p,
            response_spec(g, #[trigger] ad[k]),
        ) by {
            assert(has_key(morph@, response_spec(g, ad[k])));
            let i = choose|i: int|
                0 <= i < morph@.len() && (#[trigger] morph@[i]).0 == response_spec(g, ad[k]);
            assert(p[i].0 == response_spec(g, ad[k]));
        }
    }
    morph
}

} // verus!

