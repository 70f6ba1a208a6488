use vstd::prelude::*;

use vstd::arithmetic::div_mod::{
    lemma_fundamental_div_mod, lemma_fundamental_div_mod_converse, lemma_multiply_divide_lt,
};
use vstd::arithmetic::mul::lemma_mul_inequality;
use vstd::arithmetic::power::{lemma_pow_increases, pow};

use crate::response::{is_correct_spec, Response};

verus! {

/// An ordered sequence of digits, each in `[0, base)`; a possible secret or
/// guess.
pub type Code = Vec<usize>;

/// Number of positions at or after `i` where the two codes agree.
pub open spec fn correct_from(l: Seq<usize>, r: Seq<usize>, i: int) -> nat
    decreases l.len() - i,
{
    if i < 0 || i >= l.len() {
        0
    } else if l[i] == r[i] {
        1 + correct_from(l, r, i + 1)
    } else {
        correct_from(l, r, i + 1)
    }
}

/// Number of positions where guess and secret agree: the correct count.
pub open spec fn correct_of(l: Seq<usize>, r: Seq<usize>) -> nat {
    correct_from(l, r, 0)
}

/// Availability mask for the misplaced pass: a position takes part only if
/// the codes differ there.
pub open spec fn diff_mask(l: Seq<usize>, r: Seq<usize>) -> Seq<bool> {
    Seq::new(l.len(), |i: int| l[i] != r[i])
}

/// Index of the first available position of `r` at or after `j` holding the
/// digit `v`.
pub open spec fn first_match(r: Seq<usize>, rmask: Seq<bool>, v: usize, j: int) -> Option<int>
    decreases r.len() - j,
{
    if j < 0 || j >= r.len() {
        None
    } else if rmask[j] && r[j] == v {
        Some(j)
    } else {
        first_match(r, rmask, v, j + 1)
    }
}

/// Greedy misplaced matching, scanning guess positions at or after `i`: each
/// available guess digit consumes the first available secret position with
/// the same digit, if one remains.
pub open spec fn greedy_from(
    l: Seq<usize>,
    r: Seq<usize>,
    lmask: Seq<bool>,
    rmask: Seq<bool>,
    i: int,
) -> nat
    decreases l.len() - i,
{
    if i < 0 || i >= l.len() {
        0
    } else if !lmask[i] {
        greedy_from(l, r, lmask, rmask, i + 1)
    } else {
        match first_match(r, rmask, l[i], 0) {
            None => greedy_from(l, r, lmask, rmask, i + 1),
            Some(j) => 1 + greedy_from(l, r, lmask, rmask.update(j, false), i + 1),
        }
    }
}

/// The misplaced count: greedy matching over the positions left available by
/// the correct pass.
pub open spec fn misplaced_of(l: Seq<usize>, r: Seq<usize>) -> nat {
    greedy_from(l, r, diff_mask(l, r), diff_mask(l, r), 0)
}

/// The wrong count: whatever neither pass accounted for.
pub open spec fn wrong_of(l: Seq<usize>, r: Seq<usize>) -> nat {
    (l.len() - correct_of(l, r) - misplaced_of(l, r)) as nat
}

/// The full feedback triple for a guess `l` against a secret `r`.
pub open spec fn response_spec(l: Seq<usize>, r: Seq<usize>) -> Response {
    Response(
        correct_of(l, r) as usize,
        misplaced_of(l, r) as usize,
        wrong_of(l, r) as usize,
    )
}

/// Number of `true` entries of `mask` at or after `i`.
pub open spec fn count_true_from(mask: Seq<bool>, i: int) -> nat
    decreases mask.len() - i,
{
    if i < 0 || i >= mask.len() {
        0
    } else if mask[i] {
        1 + count_true_from(mask, i + 1)
    } else {
        count_true_from(mask, i + 1)
    }
}

proof fn lemma_correct_from_le(l: Seq<usize>, r: Seq<usize>, i: int)
    requires
        0 <= i <= l.len(),
    ensures
        correct_from(l, r, i) <= l.len() - i,
    decreases l.len() - i,
{
    if i < l.len() {
        lemma_correct_from_le(l, r, i + 1);
    }
}

/// Positions that the correct pass consumed and positions the misplaced pass
/// may use split the code exactly.
proof fn lemma_mask_correct_split(l: Seq<usize>, r: Seq<usize>, i: int)
    requires
        l.len() == r.len(),
        0 <= i <= l.len(),
    ensures
        count_true_from(diff_mask(l, r), i) + correct_from(l, r, i) == l.len() - i,
    decreases l.len() - i,
{
    if i < l.len() {
        lemma_mask_correct_split(l, r, i + 1);
    }
}

/// The greedy pass matches at most one digit per available guess position.
proof fn lemma_greedy_le(l: Seq<usize>, r: Seq<usize>, lmask: Seq<bool>, rmask: Seq<bool>, i: int)
    requires
        0 <= i <= l.len(),
        lmask.len() == l.len(),
    ensures
        greedy_from(l, r, lmask, rmask, i) <= count_true_from(lmask, i),
    decreases l.len() - i,
{
    if i < l.len() {
        if !lmask[i] {
            lemma_greedy_le(l, r, lmask, rmask, i + 1);
        } else {
            match first_match(r, rmask, l[i], 0) {
                None => lemma_greedy_le(l, r, lmask, rmask, i + 1),
                Some(j) => lemma_greedy_le(l, r, lmask, rmask.update(j, false), i + 1),
            }
        }
    }
}

/// The three counts partition the code: correct + misplaced + wrong equals
/// the code length.
pub proof fn lemma_compare_sum(l: Seq<usize>, r: Seq<usize>)
    requires
        l.len() == r.len(),
    ensures
        correct_of(l, r) + misplaced_of(l, r) <= l.len(),
        correct_of(l, r) + misplaced_of(l, r) + wrong_of(l, r) == l.len(),
{
    lemma_greedy_le(l, r, diff_mask(l, r), diff_mask(l, r), 0);
    lemma_mask_correct_split(l, r, 0);
}

proof fn lemma_correct_from_all(l: Seq<usize>, r: Seq<usize>, i: int)
    requires
        l.len() == r.len(),
        0 <= i <= l.len(),
    ensures
        correct_from(l, r, i) == l.len() - i <==> (forall|k: int| i <= k < l.len() ==> l[k] == r[k]),
    decreases l.len() - i,
{
    if i < l.len() {
        lemma_correct_from_all(l, r, i + 1);
        lemma_correct_from_le(l, r, i + 1);
    }
}

/// Comparing a code with itself reports every digit correct and nothing
/// misplaced or wrong.
pub proof fn lemma_compare_self(x: Seq<usize>)
    ensures
        correct_of(x, x) == x.len(),
        misplaced_of(x, x) == 0,
        wrong_of(x, x) == 0,
{
    lemma_correct_from_all(x, x, 0);
    assert(diff_mask(x, x) =~= Seq::new(x.len(), |i: int| false));
    lemma_greedy_le(x, x, diff_mask(x, x), diff_mask(x, x), 0);
    assert(count_true_from(diff_mask(x, x), 0) == 0) by {
        lemma_mask_correct_split(x, x, 0);
    }
}

/// A comparison is terminal precisely when the two codes are equal.
pub proof fn lemma_compare_terminal_iff(x: Seq<usize>, y: Seq<usize>)
    requires
        x.len() == y.len(),
    ensures
        (misplaced_of(x, y) == 0 && wrong_of(x, y) == 0) <==> x == y,
{
    if misplaced_of(x, y) == 0 && wrong_of(x, y) == 0 {
        lemma_compare_sum(x, y);
        lemma_correct_from_all(x, y, 0);
        assert(x =~= y);
    } else {
        if x == y {
            lemma_compare_self(x);
        }
    }
}

/// For codes short enough to exist in memory, terminality of the executable
/// response coincides with equality of the codes.
pub proof fn lemma_response_terminal_iff(x: Seq<usize>, y: Seq<usize>)
    requires
        x.len() == y.len(),
        x.len() <= usize::MAX,
    ensures
        is_correct_spec(response_spec(x, y)) <==> x == y,
{
    lemma_compare_sum(x, y);
    lemma_compare_terminal_iff(x, y);
}

/// The code numbered `i` among those of the given length over the given
/// base: the digits of `i` written as a base-`base` numeral of that width,
/// most significant digit first.
pub open spec fn code_seq(i: nat, length: nat, base: usize) -> Seq<usize>
    decreases length,
{
    if length == 0 {
        Seq::empty()
    } else {
        code_seq(i / (base as nat), (length - 1) as nat, base).push((i % (base as nat)) as usize)
    }
}

/// The number a code denotes as a base-`base` numeral, most significant
/// digit first.
pub open spec fn code_value(c: Seq<usize>, base: usize) -> nat
    decreases c.len(),
{
    if c.len() == 0 {
        0
    } else {
        code_value(c.drop_last(), base) * (base as nat) + (c.last() as nat)
    }
}

/// All codes of the given length over the given base, numbered in ascending
/// (lexicographic) order.
pub open spec fn universe_spec(length: usize, base: usize) -> Seq<Seq<usize>> {
    Seq::new(
        pow(base as int, length as nat) as nat,
        |i: int| code_seq(i as nat, length as nat, base),
    )
}

/// Every generated code has the requested length, and digits below the base.
pub proof fn lemma_code_seq_wf(i: nat, length: nat, base: usize)
    requires
        base >= 1,
    ensures
        code_seq(i, length, base).len() == length,
        forall|k: int| 0 <= k < length ==> code_seq(i, length, base)[k] < base,
    decreases length,
{
    if length > 0 {
        lemma_code_seq_wf(i / (base as nat), (length - 1) as nat, base);
    }
}

/// Reading a generated code back as a numeral recovers its number: the
/// numbering is injective.
pub proof fn lemma_code_value_inverse(i: nat, length: nat, base: usize)
    requires
        base >= 1,
        i < pow(base as int, length),
    ensures
        code_value(code_seq(i, length, base), base) == i,
    decreases length,
{
    reveal(pow);
    if length == 0 {
        assert(pow(base as int, 0) == 1);
    } else {
        let b = base as nat;
        let sub = code_seq(i / b, (length - 1) as nat, base);
        assert(pow(base as int, length) == base * pow(base as int, (length - 1) as nat));
        lemma_multiply_divide_lt(i as int, b as int, pow(base as int, (length - 1) as nat));
        assert((i / b) as int == i as int / b as int);
        lemma_code_value_inverse(i / b, (length - 1) as nat, base);
        let whole = code_seq(i, length, base);
        assert(whole == sub.push((i % b) as usize));
        assert(whole.drop_last() =~= sub);
        assert(whole.last() == (i % b) as usize);
        assert(code_value(whole, base) == code_value(sub, base) * b + i % b);
        lemma_fundamental_div_mod(i as int, b as int);
    }
}

/// Every well-formed code is generated: it is the code numbered by its own
/// value, and that value lies below `base^length`.
pub proof fn lemma_code_seq_complete(c: Seq<usize>, base: usize)
    requires
        base >= 1,
        forall|k: int| 0 <= k < c.len() ==> c[k] < base,
    ensures
        code_value(c, base) < pow(base as int, c.len()),
        code_seq(code_value(c, base), c.len(), base) == c,
    decreases c.len(),
{
    reveal(pow);
    let b = base as nat;
    if c.len() == 0 {
        assert(code_seq(0, 0, base) =~= c);
    } else {
        let d = c.drop_last();
        let last = c.last() as nat;
        lemma_code_seq_complete(d, base);
        let vd = code_value(d, base);
        let pd = pow(base as int, d.len());
        let v = code_value(c, base);
        assert(v == vd * b + last);
        assert(pow(base as int, c.len()) == b * pd);
        assert((vd as int) * (b as int) + (last as int) < (b as int) * pd) by (nonlinear_arith)
            requires
                vd < pd,
                (last as int) < (b as int),
                b >= 1,
        ;
        lemma_fundamental_div_mod_converse(v as int, b as int, vd as int, last as int);
        assert(code_seq(v, c.len(), base) =~= c);
    }
}

/// The universe misses nothing: every sequence of the right length whose
/// digits lie below the base occurs in it, at the index its value names.
pub proof fn lemma_universe_complete(c: Seq<usize>, length: usize, base: usize)
    requires
        base >= 1,
        c.len() == length,
        forall|k: int| 0 <= k < c.len() ==> c[k] < base,
    ensures
        code_value(c, base) < pow(base as int, length as nat),
        universe_spec(length, base)[code_value(c, base) as int] == c,
{
    lemma_code_seq_complete(c, base);
}

/// Computes `base^length`.
fn pow_exec(base: usize, length: usize) -> (p: usize)
    requires
        base >= 1,
        pow(base as int, length as nat) <= usize::MAX,
    ensures
        p as int == pow(base as int, length as nat),
{
    let mut acc: usize = 1;
    let mut j: usize = 0;
    proof {
        assert(pow(base as int, 0) == 1) by {
            reveal(pow);
        }
    }
    while j < length
        invariant
            base >= 1,
            j <= length,
            acc as int == pow(base as int, j as nat),
            pow(base as int, length as nat) <= usize::MAX,
        decreases length - j,
    {
        proof {
            assert(pow(base as int, (j + 1) as nat) == base * pow(base as int, j as nat)) by {
                reveal(pow);
            }
            lemma_pow_increases(base as nat, (j + 1) as nat, length as nat);
        }
        acc = acc * base;
        j = j + 1;
    }
    acc
}

/// The code numbered `i`: digits of `i` in the given base, most significant
/// first.
fn nth_code(i: usize, length: usize, base: usize) -> (code: Code)
    requires
        base >= 1,
    ensures
        code@ == code_seq(i as nat, length as nat, base),
    decreases length,
{
    if length == 0 {
        Vec::new()
    } else {
        let mut code = nth_code(i / base, length - 1, base);
        code.push(i % base);
        code
    }
}

/// Every code of the given length over the given base, each exactly once, in
/// ascending (lexicographic) order. There are `base^length` of them, and
/// they are pairwise distinct.
pub fn universe(length: usize, base: usize) -> (codes: Vec<Code>)
    requires
        length >= 1,
        base >= 1,
        pow(base as int, length as nat) <= usize::MAX,
    ensures
        codes.deep_view() == universe_spec(length, base),
        codes@.len() == pow(base as int, length as nat),
        forall|i: int, j: int|
            0 <= i < j < codes@.len() ==> codes.deep_view()[i] != codes.deep_view()[j],
{
    let total = pow_exec(base, length);
    let mut codes: Vec<Code> = Vec::new();
    for i in 0..total
        invariant
            total as int == pow(base as int, length as nat),
            base >= 1,
            codes@.len() == i,
            forall|k: int| 0 <= k < i ==> codes@[k]@ == code_seq(k as nat, length as nat, base),
    {
        codes.push(nth_code(i, length, base));
    }
    proof {
        assert(codes.deep_view() =~~= universe_spec(length, base));
        assert forall|i: int, j: int|
            0 <= i < j < codes@.len() implies codes.deep_view()[i] != codes.deep_view()[j] by {
            lemma_code_value_inverse(i as nat, length as nat, base);
            lemma_code_value_inverse(j as nat, length as nat, base);
        }
    }
    codes
}

/// Decides equality of two codes.
pub fn codes_equal(a: &Code, b: &Code) -> (eq: bool)
    ensures
        eq == (a@ == b@),
{
    if a.len() != b.len() {
        return false;
    }
    let n = a.len();
    for i in 0..n
        invariant
            n == a@.len() == b@.len(),
            forall|k: int| 0 <= k < i ==> a@[k] == b@[k],
    {
        if a[i] != b[i] {
            proof {
                assert(a@[i as int] != b@[i as int]);
            }
            return false;
        }
    }
    proof {
        assert(a@ =~= b@);
    }
    true
}

/// An owned duplicate of a code.
pub fn copy_code(c: &Code) -> (r: Code)
    ensures
        r@ == c@,
{
    let mut r: Code = Vec::new();
    let n = c.len();
    for i in 0..n
        invariant
            n == c@.len(),
            r@.len() == i,
            forall|k: int| 0 <= k < i ==> r@[k] == c@[k],
    {
        r.push(c[i]);
    }
    proof {
        assert(r@ =~= c@);
    }
    r
}

/// Finds the first available position of `right` holding the digit `v`.
fn find_first_available(right: &Vec<usize>, mask: &Vec<bool>, v: usize) -> (res: Option<usize>)
    requires
        mask@.len() == right@.len(),
    ensures
        match res {
            Some(j) => {
                &&& first_match(right@, mask@, v, 0) == Some(j as int)
                &&& j < right@.len()
                &&& mask@[j as int]
                &&& right@[j as int] == v
            },
            None => first_match(right@, mask@, v, 0) is None,
        },
{
    let len = right.len();
    for j in 0..len
        invariant
            len == right@.len(),
            mask@.len() == right@.len(),
            first_match(right@, mask@, v, 0) == first_match(right@, mask@, v, j as int),
    {
        if mask[j] && right[j] == v {
            return Some(j);
        }
    }
    None
}

/// Mastermind feedback for the guess `left` against the secret `right`: a
/// correct pass consumes every position where the codes agree, then a greedy
/// misplaced pass matches each remaining guess digit against the first
/// remaining secret position with the same digit.
pub fn compare(left: &Code, right: &Code) -> (res: Response)
    requires
        left@.len() == right@.len(),
    ensures
        res == response_spec(left@, right@),
        res.0 + res.1 + res.2 == left@.len(),
{
    let len = left.len();
    let ghost l = left@;
    let ghost r = right@;

    // count matching, "correct" digits; a masked-off (false) position is
    // consumed and takes no part in the misplaced pass
    let mut left_mask: Vec<bool> = Vec::new();
    let mut c: usize = 0;
    for index in 0..len
        invariant
            len == l.len() == r.len(),
            l == left@,
            r == right@,
            left_mask@.len() == index,
            forall|k: int| 0 <= k < index ==> left_mask@[k] == (l[k] != r[k]),
            c + correct_from(l, r, index as int) == correct_of(l, r),
            c <= index,
    {
        if left[index] == right[index] {
            c = c + 1;
            left_mask.push(false);
        } else {
            left_mask.push(true);
        }
    }
    assert(left_mask@ =~= diff_mask(l, r));

    // count misplaced digits
    let ghost lmask = left_mask@;
    let mut right_mask: Vec<bool> = Vec::new();
    for k in 0..len
        invariant
            len == l.len(),
            left_mask@ == lmask,
            lmask.len() == len,
            right_mask@.len() == k,
            forall|j: int| 0 <= j < k ==> right_mask@[j] == lmask[j],
    {
        right_mask.push(left_mask[k]);
    }
    assert(right_mask@ =~= lmask);

    let mut m: usize = 0;
    for li in 0..len
        invariant
            len == l.len() == r.len(),
            l == left@,
            r == right@,
            left_mask@ == lmask,
            lmask == diff_mask(l, r),
            right_mask@.len() == len,
            m + greedy_from(l, r, lmask, right_mask@, li as int) == misplaced_of(l, r),
            m <= li,
    {
        if left_mask[li] {
            // search the right code for the first available matching digit
            match find_first_available(right, &right_mask, left[li]) {
                Some(j) => {
                    m = m + 1;
                    right_mask.set(j, false);
                },
                None => {},
            }
        }
    }

    // wrong digits are all that remain
    proof {
        lemma_compare_sum(l, r);
    }
    let w = len - c - m;
    Response(c, m, w)
}

} // verus!
