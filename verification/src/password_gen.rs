//! The indexed candidate enumerator over a charset.
//!
//! Candidates are all strings over the charset with length in
//! `[min_size, max_size]`, enumerated length-major and then in positional
//! counting order, the rightmost character being the least significant
//! digit. The model below gives every candidate a unique index: `word_at`
//! is the `idx`-th word of one length, and `candidate_from` walks the
//! lengths in ascending order.

use vstd::prelude::*;

use crate::charsets::strictly_sorted_chars;
use crate::errors::Errors;
use crate::text::push_char;

verus! {

broadcast use vstd::seq_lib::group_seq_properties;


/// `base` raised to `exp`, over naturals.
pub open spec fn pow_nat(base: nat, exp: nat) -> nat
    decreases exp,
{
    if exp == 0 {
        1
    } else {
        base * pow_nat(base, (exp - 1) as nat)
    }
}

/// The number of words over an alphabet of `n` characters whose length `l`
/// satisfies `lo <= l < hi`.
pub open spec fn count_words(n: nat, lo: nat, hi: nat) -> nat
    decreases hi,
{
    if hi <= lo {
        0
    } else {
        count_words(n, lo, (hi - 1) as nat) + pow_nat(n, (hi - 1) as nat)
    }
}

/// The total number of candidates over `n` characters with length in
/// `[min, max]`.
pub open spec fn total_words(n: nat, min: nat, max: nat) -> nat {
    count_words(n, min, max + 1)
}

/// The `idx`-th word of length `len` over `cs`, counting positionally with
/// the rightmost character least significant.
pub open spec fn word_at(cs: Seq<char>, len: nat, idx: nat) -> Seq<char>
    decreases len,
{
    if len == 0 {
        Seq::empty()
    } else {
        word_at(cs, (len - 1) as nat, idx / cs.len()).push(cs[(idx % cs.len()) as int])
    }
}

/// The `k`-th candidate over `cs` when the remaining lengths are
/// `[len, max]`, lengths ascending.
pub open spec fn candidate_from(cs: Seq<char>, len: nat, max: nat, k: nat) -> Seq<char>
    decreases max + 1 - len,
{
    if len > max {
        Seq::empty()
    } else if k < pow_nat(cs.len(), len) {
        word_at(cs, len, k)
    } else {
        candidate_from(cs, len + 1, max, (k - pow_nat(cs.len(), len)) as nat)
    }
}

/// The `k`-th candidate of the whole enumeration over `cs` with lengths in
/// `[min, max]`.
pub open spec fn candidate_at(cs: Seq<char>, min: nat, max: nat, k: nat) -> Seq<char> {
    candidate_from(cs, min, max, k)
}

/// A positive base makes every power positive.
pub proof fn lemma_pow_nat_pos(base: nat, exp: nat)
    requires
        base >= 1,
    ensures
        pow_nat(base, exp) >= 1,
    decreases exp,
{
    if exp > 0 {
        lemma_pow_nat_pos(base, (exp - 1) as nat);
        assert(pow_nat(base, exp) == base * pow_nat(base, (exp - 1) as nat));
        assert(base * pow_nat(base, (exp - 1) as nat) >= 1) by (nonlinear_arith)
            requires
                base >= 1,
                pow_nat(base, (exp - 1) as nat) >= 1,
        ;
    }
}

/// With a positive base, powers are monotone in the exponent.
pub proof fn lemma_pow_nat_mono(base: nat, e1: nat, e2: nat)
    requires
        base >= 1,
        e1 <= e2,
    ensures
        pow_nat(base, e1) <= pow_nat(base, e2),
    decreases e2,
{
    if e1 < e2 {
        lemma_pow_nat_mono(base, e1, (e2 - 1) as nat);
        lemma_pow_nat_pos(base, (e2 - 1) as nat);
        assert(pow_nat(base, e2) == base * pow_nat(base, (e2 - 1) as nat));
        assert(base * pow_nat(base, (e2 - 1) as nat) >= pow_nat(base, (e2 - 1) as nat))
            by (nonlinear_arith)
            requires
                base >= 1,
                pow_nat(base, (e2 - 1) as nat) >= 0,
        ;
    }
}

/// Splitting one word-count at the low end: the words of length `lo` plus
/// the words of the remaining lengths.
pub proof fn lemma_count_words_lo(n: nat, lo: nat, hi: nat)
    requires
        lo < hi,
    ensures
        count_words(n, lo, hi) == pow_nat(n, lo) + count_words(n, lo + 1, hi),
    decreases hi,
{
    if hi == lo + 1 {
        assert(count_words(n, lo, hi) == count_words(n, lo, lo) + pow_nat(n, lo));
        assert(count_words(n, lo + 1, hi) == 0);
    } else {
        lemma_count_words_lo(n, lo, (hi - 1) as nat);
        assert(count_words(n, lo, hi) == count_words(n, lo, (hi - 1) as nat) + pow_nat(n, (hi
            - 1) as nat));
        assert(count_words(n, lo + 1, hi) == count_words(n, lo + 1, (hi - 1) as nat) + pow_nat(
            n, (hi - 1) as nat));
    }
}

/// Word counts are monotone in the upper length bound.
pub proof fn lemma_count_words_mono(n: nat, lo: nat, h1: nat, h2: nat)
    requires
        h1 <= h2,
    ensures
        count_words(n, lo, h1) <= count_words(n, lo, h2),
    decreases h2,
{
    if h1 < h2 {
        lemma_count_words_mono(n, lo, h1, (h2 - 1) as nat);
    }
}

/// Each single length contributes at least its own power to the count.
pub proof fn lemma_count_words_ge_pow(n: nat, lo: nat, hi: nat, mid: nat)
    requires
        lo <= mid < hi,
    ensures
        count_words(n, lo, hi) >= pow_nat(n, mid),
    decreases hi,
{
    if mid == hi - 1 {
    } else {
        lemma_count_words_ge_pow(n, lo, (hi - 1) as nat, mid);
    }
}

/// Counts the candidate space, with checked arithmetic: the exact total
/// `Σ_{l=min..max} n^l` when it is representable, and an arithmetic-overflow
/// error exactly when it is not.
pub fn password_generator_count(charset: &Vec<char>, min_size: usize, max_size: usize) -> (r:
    Result<usize, Errors>)
    ensures
        r matches Ok(t) ==> t as nat == total_words(charset@.len(), min_size as nat, max_size as nat),
        r is Ok <==> total_words(charset@.len(), min_size as nat, max_size as nat) <= usize::MAX,
        r is Err ==> r matches Err(Errors::MathError { .. }),
{
    let ghost n = charset@.len();
    let ghost total_spec = total_words(n, min_size as nat, max_size as nat);
    if min_size > max_size {
        proof {
            assert(count_words(n, min_size as nat, (max_size + 1) as nat) == 0);
        }
        return Ok(0);
    }
    let len = charset.len();
    let mut total: usize = 0;
    let mut i: usize = min_size;
    loop
        invariant_except_break
            total as nat == count_words(n, min_size as nat, i as nat),
        invariant
            min_size <= i <= max_size,
            n == charset@.len(),
            len == charset@.len(),
        ensures
            total as nat == total_words(n, min_size as nat, max_size as nat),
        decreases max_size - i,
    {
        // p = len^i, checked
        let mut p: usize = 1;
        let mut e: usize = 0;
        while e < i
            invariant
                e <= i,
                min_size <= i <= max_size,
                n == charset@.len(),
                len == charset@.len(),
                p as nat == pow_nat(n, e as nat),
            decreases i - e,
        {
            p = match p.checked_mul(len) {
                Some(v) => v,
                None => {
                    proof {
                        // the power that overflowed already exceeds usize::MAX,
                        // and the total dominates it
                        assert(pow_nat(n, (e + 1) as nat) == n * pow_nat(n, e as nat));
                        assert(n * pow_nat(n, e as nat) == pow_nat(n, e as nat) * n)
                            by (nonlinear_arith);
                        assert(pow_nat(n, (e + 1) as nat) > usize::MAX);
                        lemma_pow_nat_mono(n, (e + 1) as nat, i as nat);
                        lemma_count_words_ge_pow(n, min_size as nat, (max_size + 1) as nat,
                            i as nat);
                        assert(total_words(n, min_size as nat, max_size as nat) > usize::MAX);
                    }
                    return Err(Errors::MathError { message: String::from_str("arithmetic overflow") });
                },
            };
            e = e + 1;
            proof {
                assert(pow_nat(n, e as nat) == n * pow_nat(n, (e - 1) as nat));
                assert(n * pow_nat(n, (e - 1) as nat) == pow_nat(n, (e - 1) as nat) * n)
                    by (nonlinear_arith);
            }
        }
        proof {
            assert(count_words(n, min_size as nat, (i + 1) as nat) == count_words(n,
                min_size as nat, i as nat) + pow_nat(n, i as nat));
        }
        total = match total.checked_add(p) {
            Some(v) => v,
            None => {
                proof {
                    assert(count_words(n, min_size as nat, (i + 1) as nat) > usize::MAX);
                    lemma_count_words_mono(n, min_size as nat, (i + 1) as nat, (max_size
                        + 1) as nat);
                    assert(total_words(n, min_size as nat, max_size as nat) > usize::MAX);
                }
                return Err(Errors::MathError { message: String::from_str("arithmetic overflow") });
            },
        };
        if i == max_size {
            break ;
        }
        i = i + 1;
    }
    proof {
        assert(total as nat == total_words(n, min_size as nat, max_size as nat));
    }
    Ok(total)
}

/// Every digit of `ds` is a valid index into an alphabet of `n` characters.
pub open spec fn digits_in_range(ds: Seq<usize>, n: nat) -> bool {
    forall|i: int| 0 <= i < ds.len() ==> (ds[i] as nat) < n
}

/// The number encoded by `ds` in base `n`, the rightmost digit least
/// significant.
pub open spec fn digits_value(ds: Seq<usize>, n: nat) -> nat
    decreases ds.len(),
{
    if ds.len() == 0 {
        0
    } else {
        digits_value(ds.drop_last(), n) * n + (ds.last() as nat)
    }
}

/// A digit sequence in range encodes a number below `n^len`.
pub proof fn lemma_digits_value_bound(ds: Seq<usize>, n: nat)
    requires
        n >= 1,
        digits_in_range(ds, n),
    ensures
        digits_value(ds, n) < pow_nat(n, ds.len()),
    decreases ds.len(),
{
    if ds.len() > 0 {
        let front = ds.drop_last();
        assert(digits_in_range(front, n));
        lemma_digits_value_bound(front, n);
        assert(pow_nat(n, ds.len()) == n * pow_nat(n, (ds.len() - 1) as nat));
        assert(digits_value(front, n) * n + (ds.last() as nat) < n * pow_nat(n, (ds.len()
            - 1) as nat)) by (nonlinear_arith)
            requires
                digits_value(front, n) < pow_nat(n, (ds.len() - 1) as nat),
                (ds.last() as nat) < n,
                n >= 1,
        ;
    }
}

/// The word written by a digit sequence is exactly `word_at` of its value.
pub proof fn lemma_word_at_digits(cs: Seq<char>, ds: Seq<usize>)
    requires
        cs.len() >= 1,
        digits_in_range(ds, cs.len()),
    ensures
        word_at(cs, ds.len(), digits_value(ds, cs.len())) == ds.map_values(
            |d: usize| cs[d as int],
        ),
    decreases ds.len(),
{
    let n = cs.len();
    if ds.len() == 0 {
        assert(word_at(cs, 0, 0) =~= ds.map_values(|d: usize| cs[d as int]));
    } else {
        let front = ds.drop_last();
        let v = digits_value(ds, n);
        let vf = digits_value(front, n);
        assert(digits_in_range(front, n));
        lemma_digits_value_bound(front, n);
        assert(v == vf * n + ds.last());
        vstd::arithmetic::div_mod::lemma_fundamental_div_mod_converse(v as int, n as int,
            vf as int, ds.last() as int);
        assert(v as int % n as int == ds.last() as int);
        assert(v as int / n as int == vf as int);
        lemma_word_at_digits(cs, front);
        assert(word_at(cs, ds.len(), v) == word_at(cs, (ds.len() - 1) as nat, v / n).push(
            cs[(v % n) as int]));
        assert(front.map_values(|d: usize| cs[d as int]).push(cs[ds.last() as int]) =~= ds
            .map_values(|d: usize| cs[d as int]));
    }
}

/// A digit sequence of all zeros encodes zero.
pub proof fn lemma_zeros_value(ds: Seq<usize>, n: nat)
    requires
        forall|i: int| 0 <= i < ds.len() ==> ds[i] == 0,
    ensures
        digits_value(ds, n) == 0,
    decreases ds.len(),
{
    if ds.len() > 0 {
        assert forall|i: int| 0 <= i < ds.drop_last().len() implies ds.drop_last()[i] == 0 by {
            assert(ds.drop_last()[i] == ds[i]);
        }
        lemma_zeros_value(ds.drop_last(), n);
        assert(ds.last() == ds[ds.len() - 1]);
        assert(digits_value(ds, n) == digits_value(ds.drop_last(), n) * n + (ds.last() as nat));
        assert(digits_value(ds.drop_last(), n) * n == 0) by (nonlinear_arith)
            requires
                digits_value(ds.drop_last(), n) == 0,
        ;
    }
}

/// A digit sequence of all `n-1` encodes `n^len - 1`, the last value.
pub proof fn lemma_all_max_value(ds: Seq<usize>, n: nat)
    requires
        n >= 1,
        forall|i: int| 0 <= i < ds.len() ==> (ds[i] as nat) == n - 1,
    ensures
        digits_value(ds, n) == pow_nat(n, ds.len()) - 1,
    decreases ds.len(),
{
    if ds.len() > 0 {
        let front = ds.drop_last();
        lemma_all_max_value(front, n);
        assert(pow_nat(n, ds.len()) == n * pow_nat(n, (ds.len() - 1) as nat));
        assert((pow_nat(n, (ds.len() - 1) as nat) - 1) * n + (n - 1) == n * pow_nat(n, (
        ds.len() - 1) as nat) - 1) by (nonlinear_arith)
            requires
                n >= 1,
                pow_nat(n, (ds.len() - 1) as nat) >= 1,
        ;
        lemma_pow_nat_pos(n, (ds.len() - 1) as nat);
    }
}

/// Incrementing with a carry: bumping the digit left of position `p` and
/// zeroing the positions from `p` on - all of which held `n-1` - adds one
/// to the encoded value.
pub proof fn lemma_value_carry(ds: Seq<usize>, ds2: Seq<usize>, n: nat, p: int)
    requires
        n >= 1,
        ds.len() == ds2.len(),
        1 <= p <= ds.len(),
        digits_in_range(ds, n),
        forall|k: int| 0 <= k < p - 1 ==> ds2[k] == ds[k],
        ds2[p - 1] == ds[p - 1] + 1,
        forall|k: int| p <= k < ds.len() ==> (ds[k] as nat) == n - 1 && ds2[k] == 0,
    ensures
        digits_value(ds2, n) == digits_value(ds, n) + 1,
    decreases ds.len(),
{
    if p == ds.len() {
        assert(ds2.drop_last() =~= ds.drop_last());
        assert(ds2.last() == ds.last() + 1);
    } else {
        let f1 = ds.drop_last();
        let f2 = ds2.drop_last();
        assert(digits_in_range(f1, n));
        assert(f2[p - 1] == f1[p - 1] + 1);
        lemma_value_carry(f1, f2, n, p);
        assert((ds.last() as nat) == n - 1);
        assert(ds2.last() == 0);
        assert(digits_value(ds, n) == digits_value(f1, n) * n + (n - 1));
        assert(digits_value(ds2, n) == digits_value(f2, n) * n);
        assert((digits_value(f1, n) + 1) * n == digits_value(f1, n) * n + n)
            by (nonlinear_arith);
    }
}

/// Where a candidate index falls: the `d`-th word of length `len` sits at
/// overall index `count_words(min, len) + d`.
pub proof fn lemma_candidate_locate(cs: Seq<char>, min: nat, max: nat, len: nat, d: nat)
    requires
        cs.len() >= 1,
        min <= len <= max,
        d < pow_nat(cs.len(), len),
    ensures
        candidate_from(cs, min, max, count_words(cs.len(), min, len) + d) == word_at(cs, len, d),
    decreases len - min,
{
    let n = cs.len();
    if min == len {
        assert(count_words(n, min, len) == 0);
    } else {
        lemma_count_words_lo(n, min, len);
        lemma_pow_nat_pos(n, min);
        lemma_candidate_locate(cs, min + 1, max, len, d);
        assert(count_words(n, min, len) + d - pow_nat(n, min) == count_words(n, min + 1, len)
            + d);
    }
}

/// The lazy enumerator over a charset with a bounded length range.
///
/// `digits` is the next word to emit, as indices into `charset`, most
/// significant first; `generated_count` both counts the words already
/// produced and indexes the next one.
pub struct PasswordGenerator {
    charset: Vec<char>,
    min_size: usize,
    max_size: usize,
    digits: Vec<usize>,
    generated_count: usize,
    total_to_generate: usize,
}

impl PasswordGenerator {
    /// The charset enumerated over.
    pub closed spec fn spec_charset(&self) -> Seq<char> {
        self.charset@
    }

    /// The smallest emitted length.
    pub closed spec fn spec_min(&self) -> nat {
        self.min_size as nat
    }

    /// The largest emitted length.
    pub closed spec fn spec_max(&self) -> nat {
        self.max_size as nat
    }

    /// How many words were already emitted; also the index of the next one.
    pub closed spec fn spec_emitted(&self) -> nat {
        self.generated_count as nat
    }

    /// The size of the whole candidate space.
    pub closed spec fn spec_total(&self) -> nat {
        self.total_to_generate as nat
    }

    /// The generator's invariant: the cached total is the true total, and
    /// while words remain, `digits` encodes exactly the index of the next
    /// word to emit.
    pub closed spec fn wf(&self) -> bool {
        &&& 1 <= self.min_size <= self.max_size
        &&& self.charset@.len() >= 1
        &&& self.total_to_generate as nat == total_words(
            self.charset@.len(),
            self.min_size as nat,
            self.max_size as nat,
        )
        &&& self.generated_count <= self.total_to_generate
        &&& (self.generated_count < self.total_to_generate ==> {
            &&& self.min_size <= self.digits@.len() <= self.max_size
            &&& digits_in_range(self.digits@, self.charset@.len())
            &&& self.generated_count as nat == count_words(
                self.charset@.len(),
                self.min_size as nat,
                self.digits@.len(),
            ) + digits_value(self.digits@, self.charset@.len())
        })
    }

    /// Builds the enumerator positioned at the first word: `charset[0]`
    /// repeated `min_size` times.
    pub fn new(charset: Vec<char>, min_size: usize, max_size: usize) -> (r: Self)
        requires
            1 <= min_size <= max_size,
            charset@.len() >= 1,
            total_words(charset@.len(), min_size as nat, max_size as nat) <= usize::MAX,
        ensures
            r.wf(),
            r.spec_charset() == charset@,
            r.spec_min() == min_size as nat,
            r.spec_max() == max_size as nat,
            r.spec_emitted() == 0,
            r.spec_total() == total_words(charset@.len(), min_size as nat, max_size as nat),
    {
        let total = match password_generator_count(&charset, min_size, max_size) {
            Ok(t) => t,
            Err(_) => {
                proof {
                    assert(false);
                }
                0
            },
        };
        let mut digits: Vec<usize> = Vec::new();
        let mut i: usize = 0;
        while i < min_size
            invariant
                i <= min_size,
                digits@.len() == i,
                forall|k: int| 0 <= k < i ==> digits@[k] == 0,
            decreases min_size - i,
        {
            digits.push(0);
            i = i + 1;
        }
        proof {
            let n = charset@.len();
            lemma_zeros_value(digits@, n);
            assert(count_words(n, min_size as nat, min_size as nat) == 0);
            lemma_count_words_ge_pow(n, min_size as nat, (max_size + 1) as nat,
                min_size as nat);
            lemma_pow_nat_pos(n, min_size as nat);
        }
        PasswordGenerator {
            charset,
            min_size,
            max_size,
            digits,
            generated_count: 0,
            total_to_generate: total,
        }
    }

    /// Bounds that every well-formed generator obeys.
    pub proof fn lemma_bounds(&self)
        requires
            self.wf(),
        ensures
            self.spec_emitted() <= self.spec_total(),
            self.spec_total() <= usize::MAX,
            self.spec_charset().len() >= 1,
            1 <= self.spec_min() <= self.spec_max(),
    {
    }

    /// How many words were already emitted, as a runtime value.
    pub fn emitted_count(&self) -> (r: usize)
        ensures
            r as nat == self.spec_emitted(),
    {
        self.generated_count
    }

    /// How many words remain; the exact remaining count of the stream.
    pub fn remaining(&self) -> (r: usize)
        requires
            self.wf(),
        ensures
            r as nat == self.spec_total() - self.spec_emitted(),
    {
        self.total_to_generate - self.generated_count
    }

    /// Moves `digits` to the next word: bumps the rightmost position that
    /// is not the last charset character and clears everything to its
    /// right, or grows by one all-first position when the word is saturated.
    fn advance(&mut self)
        requires
            1 <= old(self).min_size <= old(self).max_size,
            old(self).charset@.len() >= 1,
            old(self).min_size <= old(self).digits@.len() <= old(self).max_size,
            digits_in_range(old(self).digits@, old(self).charset@.len()),
            count_words(old(self).charset@.len(), old(self).min_size as nat,
                old(self).digits@.len()) + digits_value(old(self).digits@,
                old(self).charset@.len()) + 1 < total_words(old(self).charset@.len(),
                old(self).min_size as nat, old(self).max_size as nat),
        ensures
            final(self).charset == old(self).charset,
            final(self).min_size == old(self).min_size,
            final(self).max_size == old(self).max_size,
            final(self).generated_count == old(self).generated_count,
            final(self).total_to_generate == old(self).total_to_generate,
            old(self).min_size <= final(self).digits@.len() <= old(self).max_size,
            digits_in_range(final(self).digits@, old(self).charset@.len()),
            count_words(old(self).charset@.len(), old(self).min_size as nat,
                final(self).digits@.len()) + digits_value(final(self).digits@,
                old(self).charset@.len()) == count_words(old(self).charset@.len(),
                old(self).min_size as nat, old(self).digits@.len()) + digits_value(
                old(self).digits@, old(self).charset@.len()) + 1,
    {
        let ghost n = self.charset@.len();
        let ghost ds0 = self.digits@;
        let ghost min = self.min_size as nat;
        let ghost max = self.max_size as nat;
        let ncs = self.charset.len();
        let len = self.digits.len();
        let mut p: usize = len;
        while p > 0 && self.digits[p - 1] == ncs - 1
            invariant
                p <= len,
                ncs == n,
                self.charset == old(self).charset,
                self.min_size == old(self).min_size,
                self.max_size == old(self).max_size,
                self.generated_count == old(self).generated_count,
                self.total_to_generate == old(self).total_to_generate,
                n == self.charset@.len(),
                len == self.digits@.len(),
                self.digits@ == ds0,
                digits_in_range(ds0, n),
                forall|k: int| p <= k < len ==> (ds0[k] as nat) == n - 1,
            decreases p,
        {
            p = p - 1;
        }
        if p == 0 {
            // the whole word is saturated: step to the first word one longer
            proof {
                lemma_all_max_value(ds0, n);
                assert(count_words(n, min, (len + 1) as nat) == count_words(n, min, len as nat)
                    + pow_nat(n, len as nat));
                if len as nat == max {
                    assert(count_words(n, min, len as nat) + digits_value(ds0, n) + 1
                        == total_words(n, min, max));
                    assert(false);
                }
            }
            let new_len = len + 1;
            let mut zeros: Vec<usize> = Vec::new();
            let mut i: usize = 0;
            while i < new_len
                invariant
                    i <= new_len,
                    zeros@.len() == i,
                    forall|k: int| 0 <= k < i ==> zeros@[k] == 0,
                decreases new_len - i,
            {
                zeros.push(0);
                i = i + 1;
            }
            self.digits = zeros;
            proof {
                lemma_zeros_value(self.digits@, n);
                assert(digits_in_range(self.digits@, n));
            }
        } else {
            // bump position p-1 and clear everything to its right
            let d = self.digits[p - 1];
            self.digits[p - 1] = d + 1;
            let mut q = p;
            while q < len
                invariant
                    p <= q <= len,
                    ncs == n,
                    1 <= p,
                    self.charset == old(self).charset,
                    self.min_size == old(self).min_size,
                    self.max_size == old(self).max_size,
                    self.generated_count == old(self).generated_count,
                    self.total_to_generate == old(self).total_to_generate,
                    n == self.charset@.len(),
                    len == self.digits@.len(),
                    ds0.len() == len,
                    (d as nat) < n - 1,
                    d == ds0[p - 1],
                    forall|k: int| 0 <= k < p - 1 ==> self.digits@[k] == ds0[k],
                    self.digits@[p - 1] == d + 1,
                    forall|k: int| p <= k < q ==> self.digits@[k] == 0,
                    forall|k: int| q <= k < len ==> self.digits@[k] == ds0[k],
                decreases len - q,
            {
                self.digits[q] = 0;
                q = q + 1;
            }
            proof {
                assert forall|k: int| 0 <= k < self.digits@.len() implies (self.digits@[k] as nat)
                    < n by {
                    if k < p - 1 {
                        assert(self.digits@[k] == ds0[k]);
                    } else if k == p - 1 {
                        assert(self.digits@[k] == d + 1);
                    } else {
                        assert(self.digits@[k] == 0);
                    }
                }
                lemma_value_carry(ds0, self.digits@, n, p as int);
            }
        }
    }

    /// Emits the next candidate, or nothing once the space is exhausted.
    ///
    /// The `k`-th emitted word is exactly `candidate_at(charset, min, max, k)`,
    /// so the stream yields every candidate exactly once, in order.
    pub fn next(&mut self) -> (r: Option<String>)
        requires
            old(self).wf(),
        ensures
            final(self).wf(),
            final(self).spec_charset() == old(self).spec_charset(),
            final(self).spec_min() == old(self).spec_min(),
            final(self).spec_max() == old(self).spec_max(),
            final(self).spec_total() == old(self).spec_total(),
            old(self).spec_emitted() < old(self).spec_total() ==> {
                &&& final(self).spec_emitted() == old(self).spec_emitted() + 1
                &&& r matches Some(s) && s@ == candidate_at(
                    old(self).spec_charset(),
                    old(self).spec_min(),
                    old(self).spec_max(),
                    old(self).spec_emitted(),
                )
            },
            old(self).spec_emitted() >= old(self).spec_total() ==> r is None && *final(self)
                == *old(self),
    {
        if self.generated_count == self.total_to_generate {
            return None;
        }
        let ghost n = self.charset@.len();
        let ghost min = self.min_size as nat;
        let ghost max = self.max_size as nat;
        let ghost k = self.generated_count as nat;
        // render the current word
        let mut s = String::new();
        let mut i: usize = 0;
        let len = self.digits.len();
        while i < len
            invariant
                i <= len,
                len == self.digits@.len(),
                n == self.charset@.len(),
                digits_in_range(self.digits@, n),
                s@.len() == i,
                forall|j: int| 0 <= j < i ==> s@[j] == self.charset@[self.digits@[j] as int],
            decreases len - i,
        {
            let d = self.digits[i];
            let c = self.charset[d];
            push_char(&mut s, c);
            i = i + 1;
        }
        proof {
            assert(s@ =~= self.digits@.map_values(|d: usize| self.charset@[d as int]));
            lemma_word_at_digits(self.charset@, self.digits@);
            lemma_digits_value_bound(self.digits@, n);
            lemma_candidate_locate(self.charset@, min, max, self.digits@.len(), digits_value(
                self.digits@, n));
            assert(s@ == candidate_at(self.charset@, min, max, k));
        }
        if self.generated_count + 1 < self.total_to_generate {
            self.advance();
        }
        self.generated_count = self.generated_count + 1;
        Some(s)
    }
}


/// `n^(e+1)` also peels a factor on the right.
pub proof fn lemma_pow_nat_right(base: nat, exp: nat)
    ensures
        pow_nat(base, exp + 1) == pow_nat(base, exp) * base,
{
    assert(pow_nat(base, exp + 1) == base * pow_nat(base, exp));
    assert(base * pow_nat(base, exp) == pow_nat(base, exp) * base) by (nonlinear_arith);
}

/// The base-`n` digits of `idx` written with `len` positions, most
/// significant first.
pub open spec fn digits_of(n: nat, len: nat, idx: nat) -> Seq<usize>
    decreases len,
{
    if len == 0 {
        Seq::empty()
    } else {
        digits_of(n, (len - 1) as nat, idx / n).push((idx % n) as usize)
    }
}

/// `digits_of` writes in-range digits that encode back to `idx`, and the
/// word at `idx` is its rendering through the charset.
pub proof fn lemma_digits_of_value(cs: Seq<char>, len: nat, idx: nat)
    requires
        1 <= cs.len() <= usize::MAX,
        idx < pow_nat(cs.len(), len),
    ensures
        digits_of(cs.len(), len, idx).len() == len,
        digits_in_range(digits_of(cs.len(), len, idx), cs.len()),
        digits_value(digits_of(cs.len(), len, idx), cs.len()) == idx,
        word_at(cs, len, idx) == digits_of(cs.len(), len, idx).map_values(
            |d: usize| cs[d as int],
        ),
    decreases len,
{
    let n = cs.len();
    let ds = digits_of(n, len, idx);
    if len == 0 {
        assert(pow_nat(n, 0) == 1);
        assert(word_at(cs, 0, idx) =~= ds.map_values(|d: usize| cs[d as int]));
    } else {
        lemma_pow_nat_right(n, (len - 1) as nat);
        vstd::arithmetic::div_mod::lemma_multiply_divide_lt(idx as int, n as int, pow_nat(n, (
        len - 1) as nat) as int);
        lemma_digits_of_value(cs, (len - 1) as nat, idx / n);
        let front = digits_of(n, (len - 1) as nat, idx / n);
        assert(ds == front.push((idx % n) as usize));
        assert(ds.drop_last() =~= front);
        vstd::arithmetic::div_mod::lemma_fundamental_div_mod(idx as int, n as int);
        assert(digits_value(ds, n) == digits_value(front, n) * n + (idx % n));
        assert((idx / n) * n + (idx % n) == idx) by (nonlinear_arith)
            requires
                n >= 1,
                idx as int == n as int * (idx as int / n as int) + idx as int % n as int,
        ;
        assert(digits_in_range(ds, n));
        lemma_word_at_digits(cs, ds);
    }
}

/// Distinct indices of one length give distinct words.
pub proof fn lemma_word_at_injective(cs: Seq<char>, len: nat, i1: nat, i2: nat)
    requires
        1 <= cs.len() <= usize::MAX,
        strictly_sorted_chars(cs),
        i1 < pow_nat(cs.len(), len),
        i2 < pow_nat(cs.len(), len),
        i1 != i2,
    ensures
        word_at(cs, len, i1) != word_at(cs, len, i2),
{
    let n = cs.len();
    lemma_digits_of_value(cs, len, i1);
    lemma_digits_of_value(cs, len, i2);
    let ds1 = digits_of(n, len, i1);
    let ds2 = digits_of(n, len, i2);
    let w1 = ds1.map_values(|d: usize| cs[d as int]);
    let w2 = ds2.map_values(|d: usize| cs[d as int]);
    if w1 == w2 {
        assert forall|k: int| 0 <= k < len implies ds1[k] == ds2[k] by {
            assert(w1[k] == cs[ds1[k] as int]);
            assert(w2[k] == cs[ds2[k] as int]);
            if ds1[k] != ds2[k] {
                if ds1[k] < ds2[k] {
                    assert((cs[ds1[k] as int] as u32) < (cs[ds2[k] as int] as u32));
                } else {
                    assert((cs[ds2[k] as int] as u32) < (cs[ds1[k] as int] as u32));
                }
            }
        }
        assert(ds1 =~= ds2);
        assert(false);
    }
}

/// Every word of one length has that length.
pub proof fn lemma_word_at_len(cs: Seq<char>, len: nat, idx: nat)
    requires
        cs.len() >= 1,
    ensures
        word_at(cs, len, idx).len() == len,
    decreases len,
{
    if len > 0 {
        lemma_word_at_len(cs, (len - 1) as nat, idx / cs.len());
        assert(word_at(cs, len, idx) == word_at(cs, (len - 1) as nat, idx / cs.len()).push(
            cs[(idx % cs.len()) as int]));
    }
}

/// Every character of a word comes from the charset.
pub proof fn lemma_word_at_chars(cs: Seq<char>, len: nat, idx: nat)
    requires
        cs.len() >= 1,
        idx < pow_nat(cs.len(), len),
    ensures
        forall|i: int|
            0 <= i < word_at(cs, len, idx).len() ==> cs.contains(#[trigger] word_at(cs, len,
            idx)[i]),
    decreases len,
{
    let n = cs.len();
    if len > 0 {
        lemma_pow_nat_right(n, (len - 1) as nat);
        vstd::arithmetic::div_mod::lemma_multiply_divide_lt(idx as int, n as int, pow_nat(n, (
        len - 1) as nat) as int);
        lemma_word_at_chars(cs, (len - 1) as nat, idx / n);
        lemma_word_at_len(cs, (len - 1) as nat, idx / n);
        let w = word_at(cs, len, idx);
        let front = word_at(cs, (len - 1) as nat, idx / n);
        assert forall|i: int| 0 <= i < w.len() implies cs.contains(#[trigger] w[i]) by {
            if i < len - 1 {
                assert(w[i] == front[i]);
            } else {
                assert(w[i] == cs[(idx % n) as int]);
                assert((idx % n) < cs.len());
            }
        }
    }
}

/// Enumerator completeness, shape part: every candidate index below the
/// total yields a word whose length lies in `[min, max]` and whose
/// characters all come from the charset.
pub proof fn lemma_enumerator_complete(cs: Seq<char>, min: nat, max: nat, k: nat)
    requires
        cs.len() >= 1,
        min <= max,
        k < total_words(cs.len(), min, max),
    ensures
        min <= candidate_at(cs, min, max, k).len() <= max,
        forall|i: int|
            0 <= i < candidate_at(cs, min, max, k).len() ==> cs.contains(
                #[trigger] candidate_at(cs, min, max, k)[i],
            ),
    decreases max + 1 - min,
{
    let n = cs.len();
    if k < pow_nat(n, min) {
        lemma_word_at_len(cs, min, k);
        lemma_word_at_chars(cs, min, k);
    } else {
        lemma_count_words_lo(n, min, max + 1);
        if min == max {
            assert(count_words(n, min + 1, max + 1) == 0);
            assert(false);
        }
        lemma_enumerator_complete(cs, min + 1, max, (k - pow_nat(n, min)) as nat);
    }
}

/// Enumerator completeness, distinctness part: two different candidate
/// indices always yield different words, so the enumeration has no
/// repetitions.
pub proof fn lemma_enumerator_distinct(cs: Seq<char>, min: nat, max: nat, k1: nat, k2: nat)
    requires
        1 <= cs.len() <= usize::MAX,
        strictly_sorted_chars(cs),
        min <= max,
        k1 < k2 < total_words(cs.len(), min, max),
    ensures
        candidate_at(cs, min, max, k1) != candidate_at(cs, min, max, k2),
    decreases max + 1 - min,
{
    let n = cs.len();
    if k2 < pow_nat(n, min) {
        lemma_word_at_injective(cs, min, k1, k2);
    } else if k1 < pow_nat(n, min) {
        lemma_word_at_len(cs, min, k1);
        lemma_count_words_lo(n, min, max + 1);
        if min == max {
            assert(count_words(n, min + 1, max + 1) == 0);
            assert(false);
        }
        lemma_enumerator_complete(cs, min + 1, max, (k2 - pow_nat(n, min)) as nat);
        assert(candidate_at(cs, min, max, k1).len() == min);
        assert(candidate_at(cs, min, max, k2).len() >= min + 1);
    } else {
        lemma_count_words_lo(n, min, max + 1);
        if min == max {
            assert(count_words(n, min + 1, max + 1) == 0);
            assert(false);
        }
        lemma_enumerator_distinct(cs, min + 1, max, (k1 - pow_nat(n, min)) as nat, (k2
            - pow_nat(n, min)) as nat);
    }
}


/// Strict lexicographic order on equal-length character sequences, by
/// code point.
pub open spec fn lex_lt_chars(a: Seq<char>, b: Seq<char>) -> bool
    decreases a.len(),
{
    if a.len() == 0 {
        b.len() > 0
    } else if b.len() == 0 {
        false
    } else {
        (a[0] as u32) < (b[0] as u32) || (a[0] == b[0] && lex_lt_chars(a.drop_first(),
        b.drop_first()))
    }
}

/// The leftmost digit is the most significant: peeling it off the front.
pub proof fn lemma_digits_value_first(ds: Seq<usize>, n: nat)
    requires
        ds.len() > 0,
    ensures
        digits_value(ds, n) == (ds[0] as nat) * pow_nat(n, (ds.len() - 1) as nat)
            + digits_value(ds.drop_first(), n),
    decreases ds.len(),
{
    if ds.len() == 1 {
        assert(ds.drop_last() =~= Seq::<usize>::empty());
        assert(ds.drop_first() =~= Seq::<usize>::empty());
        assert(digits_value(ds, n) == digits_value(ds.drop_last(), n) * n + (ds.last() as nat));
        assert(digits_value(Seq::<usize>::empty(), n) * n == 0) by (nonlinear_arith)
            requires
                digits_value(Seq::<usize>::empty(), n) == 0,
        ;
        assert(ds[0] == ds.last());
        assert((ds[0] as nat) * pow_nat(n, 0) == (ds[0] as nat) * 1);
    } else {
        let f = ds.drop_last();
        let m = ds.drop_first();
        lemma_digits_value_first(f, n);
        assert(f[0] == ds[0]);
        assert(f.drop_first() =~= m.drop_last());
        assert(m.last() == ds.last());
        let l2 = (ds.len() - 2) as nat;
        lemma_pow_nat_right(n, l2);
        // value(ds) = value(f)*n + last
        //           = (ds[0]*n^(len-2) + value(mid))*n + last
        //           = ds[0]*n^(len-1) + (value(mid)*n + last)
        assert(((ds[0] as nat) * pow_nat(n, l2) + digits_value(m.drop_last(), n)) * n == (
        ds[0] as nat) * (pow_nat(n, l2) * n) + digits_value(m.drop_last(), n) * n)
            by (nonlinear_arith);
        assert(digits_value(m, n) == digits_value(m.drop_last(), n) * n + (m.last() as nat));
    }
}

/// Digit sequences of one length in range have values below `n^len`, so
/// the leading digit decides the order; a smaller value renders to a
/// lexicographically smaller word under a sorted charset.
pub proof fn lemma_digits_lex(cs: Seq<char>, ds1: Seq<usize>, ds2: Seq<usize>)
    requires
        cs.len() >= 1,
        strictly_sorted_chars(cs),
        ds1.len() == ds2.len(),
        digits_in_range(ds1, cs.len()),
        digits_in_range(ds2, cs.len()),
        digits_value(ds1, cs.len()) < digits_value(ds2, cs.len()),
    ensures
        lex_lt_chars(
            ds1.map_values(|d: usize| cs[d as int]),
            ds2.map_values(|d: usize| cs[d as int]),
        ),
    decreases ds1.len(),
{
    let n = cs.len();
    let w1 = ds1.map_values(|d: usize| cs[d as int]);
    let w2 = ds2.map_values(|d: usize| cs[d as int]);
    if ds1.len() == 0 {
        assert(false);
    } else {
        lemma_digits_value_first(ds1, n);
        lemma_digits_value_first(ds2, n);
        let p = pow_nat(n, (ds1.len() - 1) as nat);
        let r1 = digits_value(ds1.drop_first(), n);
        let r2 = digits_value(ds2.drop_first(), n);
        assert(digits_in_range(ds1.drop_first(), n));
        assert(digits_in_range(ds2.drop_first(), n));
        lemma_digits_value_bound(ds1.drop_first(), n);
        lemma_digits_value_bound(ds2.drop_first(), n);
        assert(w1[0] == cs[ds1[0] as int]);
        assert(w2[0] == cs[ds2[0] as int]);
        if ds1[0] > ds2[0] {
            // impossible: the leading digit dominates
            assert((ds1[0] as nat) * p >= ((ds2[0] as nat) + 1) * p) by (nonlinear_arith)
                requires
                    (ds1[0] as nat) >= (ds2[0] as nat) + 1,
                    p >= 0,
            ;
            assert(((ds2[0] as nat) + 1) * p == (ds2[0] as nat) * p + p) by (nonlinear_arith);
            assert(false);
        } else if ds1[0] < ds2[0] {
            assert((cs[ds1[0] as int] as u32) < (cs[ds2[0] as int] as u32));
            assert(lex_lt_chars(w1, w2));
        } else {
            assert(r1 < r2);
            lemma_digits_lex(cs, ds1.drop_first(), ds2.drop_first());
            assert(ds1.drop_first().map_values(|d: usize| cs[d as int]) =~= w1.drop_first());
            assert(ds2.drop_first().map_values(|d: usize| cs[d as int]) =~= w2.drop_first());
            assert(w1[0] == w2[0]);
            assert(lex_lt_chars(w1, w2));
        }
    }
}

/// Within one length the enumeration is strictly lexicographic under the
/// charset's own (sorted) order.
pub proof fn lemma_word_at_lex(cs: Seq<char>, len: nat, i1: nat, i2: nat)
    requires
        1 <= cs.len() <= usize::MAX,
        strictly_sorted_chars(cs),
        i1 < i2 < pow_nat(cs.len(), len),
    ensures
        lex_lt_chars(word_at(cs, len, i1), word_at(cs, len, i2)),
{
    let n = cs.len();
    lemma_digits_of_value(cs, len, i1);
    lemma_digits_of_value(cs, len, i2);
    lemma_digits_lex(cs, digits_of(n, len, i1), digits_of(n, len, i2));
}

/// Enumerator ordering: emitted words are grouped by length ascending, and
/// within one length the order is strictly lexicographic under the
/// charset's own ordering.
pub proof fn lemma_enumerator_ordered(cs: Seq<char>, min: nat, max: nat, k1: nat, k2: nat)
    requires
        1 <= cs.len() <= usize::MAX,
        strictly_sorted_chars(cs),
        min <= max,
        k1 < k2 < total_words(cs.len(), min, max),
    ensures
        candidate_at(cs, min, max, k1).len() <= candidate_at(cs, min, max, k2).len(),
        candidate_at(cs, min, max, k1).len() == candidate_at(cs, min, max, k2).len()
            ==> lex_lt_chars(candidate_at(cs, min, max, k1), candidate_at(cs, min, max, k2)),
    decreases max + 1 - min,
{
    let n = cs.len();
    if k2 < pow_nat(n, min) {
        lemma_word_at_lex(cs, min, k1, k2);
        lemma_word_at_len(cs, min, k1);
        lemma_word_at_len(cs, min, k2);
    } else if k1 < pow_nat(n, min) {
        lemma_word_at_len(cs, min, k1);
        lemma_count_words_lo(n, min, max + 1);
        if min == max {
            assert(count_words(n, min + 1, max + 1) == 0);
            assert(false);
        }
        lemma_enumerator_complete(cs, min + 1, max, (k2 - pow_nat(n, min)) as nat);
    } else {
        lemma_count_words_lo(n, min, max + 1);
        if min == max {
            assert(count_words(n, min + 1, max + 1) == 0);
            assert(false);
        }
        lemma_enumerator_ordered(cs, min + 1, max, (k1 - pow_nat(n, min)) as nat, (k2
            - pow_nat(n, min)) as nat);
    }
}

} // verus!
