//! Exponent vectors of monomials.
//!
//! A [`MultiIndex`] is the vector of non-negative exponents of a monomial,
//! one slot per variable.  Trailing zero exponents are trimmed so that two
//! vectors denoting the same monomial have the same stored form; the all-zero
//! constant monomial is stored as the single slot `[0]`.  Semantically a
//! multi-index is the total function [`exp_at`] from slot to exponent, zero
//! beyond the stored length; comparisons, sums and differences are all
//! specified pointwise through it.

use vstd::prelude::*;
use vstd::arithmetic::mul::*;

verus! {

/// The exponent at slot `i`, reading zero beyond the stored length.
pub open spec fn exp_at(s: Seq<usize>, i: int) -> nat {
    if 0 <= i < s.len() {
        s[i] as nat
    } else {
        0
    }
}

/// Two exponent vectors denote the same monomial.
pub open spec fn mono_eq(a: Seq<usize>, b: Seq<usize>) -> bool {
    forall|i: int| exp_at(a, i) == exp_at(b, i)
}

/// Lexicographic order on monomials: the first differing slot decides,
/// the larger exponent wins.
pub open spec fn mono_lt(a: Seq<usize>, b: Seq<usize>) -> bool {
    exists|i: int|
        {
            &&& 0 <= i
            &&& exp_at(a, i) < exp_at(b, i)
            &&& forall|j: int| 0 <= j < i ==> exp_at(a, j) == exp_at(b, j)
        }
}

/// The monomial has no variable at all: every exponent is zero.
pub open spec fn mono_is_zero(s: Seq<usize>) -> bool {
    forall|i: int| exp_at(s, i) == 0
}

/// Canonical stored form: at least one slot, and no trailing zero slot
/// except in the constant monomial `[0]`.
pub open spec fn mono_canon(s: Seq<usize>) -> bool {
    &&& s.len() >= 1
    &&& (s.len() == 1 || s[s.len() - 1] != 0)
}

/// `a` can be subtracted from `b`: after zero-padding, every exponent of
/// `a` is at most the corresponding exponent of `b`, so `b - a` is
/// well-defined.  In particular the zero index is subtractable from every
/// index, the zero index itself included.
pub open spec fn mono_subtractable(a: Seq<usize>, b: Seq<usize>) -> bool {
    forall|i: int| exp_at(a, i) <= exp_at(b, i)
}

/// `m` is the slot-wise sum of `a` and `b`, i.e. the product monomial.
pub open spec fn mono_sum_is(a: Seq<usize>, b: Seq<usize>, m: Seq<usize>) -> bool {
    forall|i: int| #[trigger] exp_at(m, i) == exp_at(a, i) + exp_at(b, i)
}

/// Total degree: the sum of the exponents.
pub open spec fn mono_weight(s: Seq<usize>) -> nat
    decreases s.len(),
{
    if s.len() == 0 {
        0
    } else {
        (mono_weight(s.drop_last()) + s.last()) as nat
    }
}

/// An exponent vector in canonical trimmed form.
#[derive(Debug, PartialEq, Eq)]
pub struct MultiIndex {
    pub exponents: Vec<usize>,
}

impl View for MultiIndex {
    type V = Seq<usize>;

    open spec fn view(&self) -> Seq<usize> {
        self.exponents@
    }
}

impl Clone for MultiIndex {
    /// A clone denotes the same monomial, in the same stored form.
    fn clone(&self) -> (r: Self)
        ensures
            r@ == self@,
    {
        let exponents = self.exponents.clone();
        proof {
            assert(exponents@ =~= self.exponents@);
        }
        MultiIndex { exponents }
    }
}

impl MultiIndex {
    /// Well-formed: the stored vector is canonical.
    pub open spec fn wf(&self) -> bool {
        mono_canon(self@)
    }

    /// Build a multi-index from raw exponents, trimming trailing zeros;
    /// an all-zero input becomes the canonical constant index `[0]`.
    pub fn new(exponents: &Vec<usize>) -> (r: Self)
        ensures
            r.wf(),
            mono_eq(r@, exponents@),
            mono_canon(exponents@) ==> r@ == exponents@,
    {
        let mut end: usize = exponents.len();
        while end > 0 && exponents[end - 1] == 0
            invariant
                end <= exponents.len(),
                forall|i: int| end <= i < exponents.len() ==> exponents@[i] == 0,
            decreases end,
        {
            end = end - 1;
        }
        if end == 0 {
            let r = MultiIndex { exponents: vec![0] };
            assert(forall|i: int| exp_at(r@, i) == 0);
            r
        } else {
            let mut v: Vec<usize> = Vec::new();
            let mut k: usize = 0;
            while k < end
                invariant
                    k <= end,
                    end <= exponents.len(),
                    v@ =~= exponents@.take(k as int),
                decreases end - k,
            {
                v.push(exponents[k]);
                k = k + 1;
            }
            assert(v@ =~= exponents@.take(end as int));
            let r = MultiIndex { exponents: v };
            assert(r@[end - 1] != 0);
            assert(mono_eq(r@, exponents@)) by {
                assert(forall|i: int|
                    0 <= i < exponents@.len() && i >= end ==> exponents@[i] == 0);
            }
            proof {
                if mono_canon(exponents@) {
                    assert(end == exponents@.len());
                    assert(r@ =~= exponents@);
                }
            }
            r
        }
    }

    /// The canonical zero index `[0]`.
    pub fn zero() -> (r: Self)
        ensures
            r.wf(),
            mono_is_zero(r@),
    {
        let r = MultiIndex { exponents: vec![0] };
        assert(forall|i: int| exp_at(r@, i) == 0);
        r
    }

    /// Number of stored slots.
    pub fn len(&self) -> (r: usize)
        ensures
            r == self@.len(),
    {
        self.exponents.len()
    }

    /// Whether no slot is stored at all.
    pub fn is_empty(&self) -> (r: bool)
        ensures
            r == (self@.len() == 0),
    {
        self.exponents.len() == 0
    }

    /// Whether this is the zero index, i.e. the constant monomial.
    pub fn is_zero(&self) -> (r: bool)
        requires
            self.wf(),
        ensures
            r == mono_is_zero(self@),
    {
        let r = self.exponents.len() == 1 && self.exponents[0] == 0;
        proof {
            if r {
                assert(forall|i: int| exp_at(self@, i) == 0);
            } else {
                if self@.len() == 1 {
                    assert(exp_at(self@, 0) != 0);
                } else {
                    assert(exp_at(self@, self@.len() - 1) != 0);
                }
            }
        }
        r
    }

    /// Total degree of the monomial.
    pub fn weight(&self) -> (r: usize)
        requires
            mono_weight(self@) <= usize::MAX,
        ensures
            r == mono_weight(self@),
    {
        let mut sum: usize = 0;
        let mut k: usize = 0;
        proof {
            lemma_mono_weight_prefix(self@, 0);
        }
        while k < self.exponents.len()
            invariant
                k <= self@.len(),
                sum == mono_weight(self@.take(k as int)),
                mono_weight(self@) <= usize::MAX,
            decreases self@.len() - k,
        {
            proof {
                lemma_mono_weight_prefix(self@, k + 1);
                assert(self@.take(k + 1).drop_last() =~= self@.take(k as int));
                assert(mono_weight(self@.take(k + 1)) == mono_weight(self@.take(k as int))
                    + self@[k as int]);
                lemma_mono_weight_take_le(self@, k + 1);
            }
            sum = sum + self.exponents[k];
            k = k + 1;
        }
        proof {
            assert(self@.take(self@.len() as int) =~= self@);
        }
        sum
    }

    /// Whether every exponent of `self` is at most the corresponding
    /// exponent of `rhs`; then `rhs - self` is defined.
    pub fn is_subtractable_by(&self, rhs: &Self) -> (r: bool)
        requires
            self.wf(),
            rhs.wf(),
        ensures
            r == mono_subtractable(self@, rhs@),
    {
        let n = self.exponents.len();
        let mut k: usize = 0;
        while k < n
            invariant
                k <= n,
                n == self@.len(),
                forall|i: int| 0 <= i < k ==> exp_at(self@, i) <= exp_at(rhs@, i),
            decreases n - k,
        {
            let rv = if k < rhs.exponents.len() {
                rhs.exponents[k]
            } else {
                0
            };
            if self.exponents[k] > rv {
                assert(exp_at(self@, k as int) > exp_at(rhs@, k as int));
                return false;
            }
            k = k + 1;
        }
        assert(forall|i: int| exp_at(self@, i) <= exp_at(rhs@, i)) by {
            assert(forall|i: int| i >= n ==> exp_at(self@, i) == 0);
        }
        true
    }

    /// Whether `rhs` can be subtracted from `self` slot-wise: every
    /// exponent of `rhs` is at most the corresponding exponent of `self`.
    pub fn check_sub(&self, rhs: &Self) -> (r: bool)
        ensures
            r == forall|i: int| exp_at(rhs@, i) <= exp_at(self@, i),
    {
        let n = if self.exponents.len() >= rhs.exponents.len() {
            self.exponents.len()
        } else {
            rhs.exponents.len()
        };
        let mut k: usize = 0;
        while k < n
            invariant
                k <= n,
                n >= self@.len(),
                n >= rhs@.len(),
                forall|i: int| 0 <= i < k ==> exp_at(rhs@, i) <= exp_at(self@, i),
            decreases n - k,
        {
            let a = if k < self.exponents.len() {
                self.exponents[k]
            } else {
                0
            };
            let b = if k < rhs.exponents.len() {
                rhs.exponents[k]
            } else {
                0
            };
            if b > a {
                assert(exp_at(rhs@, k as int) > exp_at(self@, k as int));
                return false;
            }
            k = k + 1;
        }
        assert forall|i: int| exp_at(rhs@, i) <= exp_at(self@, i) by {
            if i >= n {
                assert(exp_at(rhs@, i) == 0);
            }
        }
        true
    }

    /// Slot-wise sum: the exponent vector of the product monomial.
    pub fn add(&self, rhs: &Self) -> (r: Self)
        requires
            self.wf(),
            rhs.wf(),
            forall|i: int| exp_at(self@, i) + exp_at(rhs@, i) <= usize::MAX,
        ensures
            r.wf(),
            mono_sum_is(self@, rhs@, r@),
    {
        let n = if self.exponents.len() >= rhs.exponents.len() {
            self.exponents.len()
        } else {
            rhs.exponents.len()
        };
        let mut v: Vec<usize> = Vec::new();
        let mut k: usize = 0;
        while k < n
            invariant
                k <= n,
                n >= self@.len(),
                n >= rhs@.len(),
                n == self@.len() || n == rhs@.len(),
                v@.len() == k,
                forall|i: int| 0 <= i < k ==> v@[i] == exp_at(self@, i) + exp_at(rhs@, i),
                forall|i: int| exp_at(self@, i) + exp_at(rhs@, i) <= usize::MAX,
            decreases n - k,
        {
            let a = if k < self.exponents.len() {
                self.exponents[k]
            } else {
                0
            };
            let b = if k < rhs.exponents.len() {
                rhs.exponents[k]
            } else {
                0
            };
            assert(a == exp_at(self@, k as int) && b == exp_at(rhs@, k as int));
            v.push(a + b);
            k = k + 1;
        }
        let r = Self::new(&v);
        proof {
            assert(forall|i: int| 0 <= i < n ==> exp_at(v@, i) == exp_at(self@, i) + exp_at(
                rhs@,
                i,
            ));
            assert(forall|i: int| i >= n ==> exp_at(v@, i) == 0 && exp_at(self@, i) == 0
                && exp_at(rhs@, i) == 0);
            assert(mono_sum_is(self@, rhs@, v@));
        }
        r
    }

    /// Slot-wise difference: the exponent vector of the quotient monomial.
    /// Defined exactly when `rhs` can be subtracted from `self`.
    pub fn sub(&self, rhs: &Self) -> (r: Self)
        requires
            self.wf(),
            rhs.wf(),
            mono_subtractable(rhs@, self@),
        ensures
            r.wf(),
            mono_sum_is(rhs@, r@, self@),
    {
        let n = self.exponents.len();
        let mut v: Vec<usize> = Vec::new();
        let mut k: usize = 0;
        while k < n
            invariant
                k <= n,
                n == self@.len(),
                v@.len() == k,
                mono_subtractable(rhs@, self@),
                forall|i: int| 0 <= i < k ==> v@[i] == exp_at(self@, i) - exp_at(rhs@, i),
            decreases n - k,
        {
            let b = if k < rhs.exponents.len() {
                rhs.exponents[k]
            } else {
                0
            };
            assert(b == exp_at(rhs@, k as int) && b <= exp_at(self@, k as int));
            v.push(self.exponents[k] - b);
            k = k + 1;
        }
        let r = Self::new(&v);
        proof {
            assert(forall|i: int| i >= n ==> exp_at(rhs@, i) == 0) by {
                assert(forall|i: int| i >= n ==> exp_at(self@, i) == 0);
            }
            assert(forall|i: int| #[trigger] exp_at(self@, i) == exp_at(rhs@, i) + exp_at(v@, i));
            assert(mono_sum_is(rhs@, r@, self@));
        }
        r
    }

    /// Both vectors padded with zero slots to the larger of the two
    /// lengths; the padded forms denote the same monomials as the inputs.
    pub fn resize(&self, rhs: &Self) -> (r: (Self, Self))
        ensures
            r.0@.len() == r.1@.len(),
            r.0@.len() == if self@.len() >= rhs@.len() {
                self@.len()
            } else {
                rhs@.len()
            },
            mono_eq(r.0@, self@),
            mono_eq(r.1@, rhs@),
    {
        let n = if self.exponents.len() >= rhs.exponents.len() {
            self.exponents.len()
        } else {
            rhs.exponents.len()
        };
        let a = self.pad_to(n);
        let b = rhs.pad_to(n);
        (a, b)
    }

    /// A copy padded with zero slots to length `n`.
    fn pad_to(&self, n: usize) -> (r: Self)
        requires
            n >= self@.len(),
        ensures
            r@.len() == n,
            mono_eq(r@, self@),
    {
        let mut v = self.exponents.clone();
        proof {
            assert(v@ =~= self.exponents@);
        }
        while v.len() < n
            invariant
                v@.len() <= n,
                v@.len() >= self@.len(),
                forall|i: int| #[trigger] exp_at(v@, i) == exp_at(self@, i),
            decreases n - v@.len(),
        {
            let ghost oldv = v@;
            v.push(0);
            proof {
                assert forall|i: int| #[trigger] exp_at(v@, i) == exp_at(self@, i) by {
                    if i == oldv.len() {
                        assert(exp_at(self@, i) == 0);
                    } else {
                        assert(exp_at(v@, i) == exp_at(oldv, i));
                    }
                }
            }
        }
        MultiIndex { exponents: v }
    }

    /// Strict lexicographic comparison of the monomials.
    pub fn lt(&self, rhs: &Self) -> (r: bool)
        ensures
            r == mono_lt(self@, rhs@),
    {
        let n = if self.exponents.len() >= rhs.exponents.len() {
            self.exponents.len()
        } else {
            rhs.exponents.len()
        };
        let mut k: usize = 0;
        while k < n
            invariant
                k <= n,
                n >= self@.len(),
                n >= rhs@.len(),
                forall|j: int| 0 <= j < k ==> exp_at(self@, j) == exp_at(rhs@, j),
            decreases n - k,
        {
            let a = if k < self.exponents.len() {
                self.exponents[k]
            } else {
                0
            };
            let b = if k < rhs.exponents.len() {
                rhs.exponents[k]
            } else {
                0
            };
            if a < b {
                assert(exp_at(self@, k as int) < exp_at(rhs@, k as int));
                return true;
            }
            if a > b {
                proof {
                    assert(exp_at(self@, k as int) > exp_at(rhs@, k as int));
                    lemma_mono_lt_excludes(self@, rhs@, k as int);
                }
                return false;
            }
            k = k + 1;
        }
        proof {
            assert(forall|i: int| i >= n ==> exp_at(self@, i) == 0 && exp_at(rhs@, i) == 0);
            assert(mono_eq(self@, rhs@));
            lemma_mono_eq_not_lt(self@, rhs@);
        }
        false
    }

    /// Whether the two vectors denote the same monomial.
    pub fn eq_mono(&self, rhs: &Self) -> (r: bool)
        ensures
            r == mono_eq(self@, rhs@),
    {
        let n = if self.exponents.len() >= rhs.exponents.len() {
            self.exponents.len()
        } else {
            rhs.exponents.len()
        };
        let mut k: usize = 0;
        while k < n
            invariant
                k <= n,
                n >= self@.len(),
                n >= rhs@.len(),
                forall|j: int| 0 <= j < k ==> exp_at(self@, j) == exp_at(rhs@, j),
            decreases n - k,
        {
            let a = if k < self.exponents.len() {
                self.exponents[k]
            } else {
                0
            };
            let b = if k < rhs.exponents.len() {
                rhs.exponents[k]
            } else {
                0
            };
            if a != b {
                assert(exp_at(self@, k as int) != exp_at(rhs@, k as int));
                return false;
            }
            k = k + 1;
        }
        assert(forall|i: int| i >= n ==> exp_at(self@, i) == 0 && exp_at(rhs@, i) == 0);
        true
    }
}

/// Weight of a prefix decomposes one slot at a time.
pub proof fn lemma_mono_weight_prefix(s: Seq<usize>, k: int)
    requires
        0 <= k <= s.len(),
    ensures
        k > 0 ==> mono_weight(s.take(k)) == mono_weight(s.take(k - 1)) + s[k - 1],
        mono_weight(s.take(0)) == 0,
{
    if k > 0 {
        assert(s.take(k).drop_last() =~= s.take(k - 1));
        assert(s.take(k).last() == s[k - 1]);
    }
}

/// The weight of a prefix is at most the weight of the whole vector.
pub proof fn lemma_mono_weight_take_le(s: Seq<usize>, k: int)
    requires
        0 <= k <= s.len(),
    ensures
        mono_weight(s.take(k)) <= mono_weight(s),
    decreases s.len() - k,
{
    if k == s.len() {
        assert(s.take(k) =~= s);
    } else {
        lemma_mono_weight_prefix(s, k + 1);
        lemma_mono_weight_take_le(s, k + 1);
    }
}

/// A monomial is never lexicographically below one it dominates at the first
/// differing slot.
proof fn lemma_mono_lt_excludes(a: Seq<usize>, b: Seq<usize>, k: int)
    requires
        0 <= k,
        exp_at(a, k) > exp_at(b, k),
        forall|j: int| 0 <= j < k ==> exp_at(a, j) == exp_at(b, j),
    ensures
        !mono_lt(a, b),
{
    if mono_lt(a, b) {
        let i = choose|i: int|
            {
                &&& 0 <= i
                &&& exp_at(a, i) < exp_at(b, i)
                &&& forall|j: int| 0 <= j < i ==> exp_at(a, j) == exp_at(b, j)
            };
        if i < k {
            assert(exp_at(a, i) == exp_at(b, i));
        } else if i == k {
        } else {
            assert(exp_at(a, k) == exp_at(b, k));
        }
    }
}

/// Equal monomials are not ordered.
pub proof fn lemma_mono_eq_not_lt(a: Seq<usize>, b: Seq<usize>)
    requires
        mono_eq(a, b),
    ensures
        !mono_lt(a, b),
        !mono_lt(b, a),
{
    if mono_lt(a, b) {
        let i = choose|i: int|
            {
                &&& 0 <= i
                &&& exp_at(a, i) < exp_at(b, i)
                &&& forall|j: int| 0 <= j < i ==> exp_at(a, j) == exp_at(b, j)
            };
        assert(exp_at(a, i) == exp_at(b, i));
    }
    if mono_lt(b, a) {
        let i = choose|i: int|
            {
                &&& 0 <= i
                &&& exp_at(b, i) < exp_at(a, i)
                &&& forall|j: int| 0 <= j < i ==> exp_at(b, j) == exp_at(a, j)
            };
        assert(exp_at(a, i) == exp_at(b, i));
    }
}

/// The lexicographic order is transitive.
pub proof fn lemma_mono_lt_trans(a: Seq<usize>, b: Seq<usize>, c: Seq<usize>)
    requires
        mono_lt(a, b),
        mono_lt(b, c),
    ensures
        mono_lt(a, c),
{
    let i1 = choose|i: int|
        {
            &&& 0 <= i
            &&& exp_at(a, i) < exp_at(b, i)
            &&& forall|j: int| 0 <= j < i ==> exp_at(a, j) == exp_at(b, j)
        };
    let i2 = choose|i: int|
        {
            &&& 0 <= i
            &&& exp_at(b, i) < exp_at(c, i)
            &&& forall|j: int| 0 <= j < i ==> exp_at(b, j) == exp_at(c, j)
        };
    if i1 < i2 {
        assert(exp_at(a, i1) < exp_at(c, i1));
        assert(forall|j: int| 0 <= j < i1 ==> exp_at(a, j) == exp_at(c, j));
    } else {
        assert(exp_at(a, i2) < exp_at(c, i2));
        assert(forall|j: int| 0 <= j < i2 ==> exp_at(a, j) == exp_at(c, j));
    }
}

/// Two monomials are ordered one way or the other, or they are equal.
pub proof fn lemma_mono_trichotomy(a: Seq<usize>, b: Seq<usize>)
    ensures
        mono_lt(a, b) || mono_lt(b, a) || mono_eq(a, b),
{
    if !mono_eq(a, b) {
        let i = choose|i: int| exp_at(a, i) != exp_at(b, i);
        assert(0 <= i) by {
            if i < 0 {
                assert(exp_at(a, i) == 0 && exp_at(b, i) == 0);
            }
        }
        lemma_mono_first_diff(a, b, i);
    }
}

/// From any differing slot, an ordering follows.
proof fn lemma_mono_first_diff(a: Seq<usize>, b: Seq<usize>, i: int)
    requires
        0 <= i,
        exp_at(a, i) != exp_at(b, i),
    ensures
        mono_lt(a, b) || mono_lt(b, a),
    decreases i,
{
    if forall|j: int| 0 <= j < i ==> exp_at(a, j) == exp_at(b, j) {
        if exp_at(a, i) < exp_at(b, i) {
            assert(mono_lt(a, b));
        } else {
            assert(mono_lt(b, a));
        }
    } else {
        let j = choose|j: int| 0 <= j < i && exp_at(a, j) != exp_at(b, j);
        lemma_mono_first_diff(a, b, j);
    }
}

/// One more than the largest machine exponent: the base in which exponent
/// vectors are read as numbers for the termination measure.
pub open spec fn rank_base() -> nat {
    usize::MAX as nat + 1
}

/// An exponent vector of bounded support read as a base-`rank_base` number,
/// most significant slot first.  It embeds the lexicographic order on such
/// vectors into the naturals.
pub open spec fn mono_rank(s: Seq<usize>, l: int) -> nat
    decreases l,
{
    if l <= 0 {
        0
    } else {
        mono_rank(s, l - 1) * rank_base() + exp_at(s, l - 1)
    }
}

/// Vectors equal on the first `l` slots have the same rank.
pub proof fn lemma_mono_rank_congruent(a: Seq<usize>, b: Seq<usize>, l: int)
    requires
        forall|j: int| 0 <= j < l ==> exp_at(a, j) == exp_at(b, j),
    ensures
        mono_rank(a, l) == mono_rank(b, l),
    decreases l,
{
    if l > 0 {
        lemma_mono_rank_congruent(a, b, l - 1);
    }
}

/// The rank embedding is strictly monotone: a vector lexicographically
/// below another, their first difference lying before slot `l`, has the
/// smaller rank.
pub proof fn lemma_mono_rank_lt(a: Seq<usize>, b: Seq<usize>, l: int, i: int)
    requires
        0 <= i < l,
        exp_at(a, i) < exp_at(b, i),
        forall|j: int| 0 <= j < i ==> exp_at(a, j) == exp_at(b, j),
    ensures
        mono_rank(a, l) < mono_rank(b, l),
    decreases l,
{
    let ra = mono_rank(a, l - 1);
    let rb = mono_rank(b, l - 1);
    assert(exp_at(a, l - 1) < rank_base());
    assert(exp_at(b, l - 1) < rank_base());
    if i == l - 1 {
        lemma_mono_rank_congruent(a, b, l - 1);
        assert(ra * rank_base() == rb * rank_base());
    } else {
        lemma_mono_rank_lt(a, b, l - 1, i);
        assert(ra + 1 <= rb);
        lemma_mul_inequality(ra as int + 1, rb as int, rank_base() as int);
        lemma_mul_is_distributive_add_other_way(rank_base() as int, ra as int, 1);
        assert(ra * rank_base() + rank_base() <= rb * rank_base());
    }
}

/// Canonical vectors denoting the same monomial are identical.
pub proof fn lemma_mono_eq_canon(a: Seq<usize>, b: Seq<usize>)
    requires
        mono_canon(a),
        mono_canon(b),
        mono_eq(a, b),
    ensures
        a == b,
{
    if a.len() < b.len() {
        assert(b.len() >= 2);
        assert(exp_at(a, b.len() - 1) == 0);
        assert(exp_at(b, b.len() - 1) != 0);
    } else if a.len() > b.len() {
        assert(a.len() >= 2);
        assert(exp_at(b, a.len() - 1) == 0);
        assert(exp_at(a, a.len() - 1) != 0);
    } else {
        assert forall|i: int| 0 <= i < a.len() implies a[i] == b[i] by {
            assert(exp_at(a, i) == exp_at(b, i));
        }
        assert(a =~= b);
    }
}

/// Adding a fixed monomial preserves order and equality, and is injective.
pub proof fn lemma_mono_sum_props(
    t: Seq<usize>,
    a: Seq<usize>,
    b: Seq<usize>,
    ta: Seq<usize>,
    tb: Seq<usize>,
)
    requires
        mono_sum_is(t, a, ta),
        mono_sum_is(t, b, tb),
    ensures
        mono_lt(a, b) ==> mono_lt(ta, tb),
        mono_eq(a, b) ==> mono_eq(ta, tb),
        mono_eq(ta, tb) ==> mono_eq(a, b),
        mono_lt(ta, tb) ==> mono_lt(a, b),
{
    if mono_lt(a, b) {
        let i = choose|i: int|
            {
                &&& 0 <= i
                &&& exp_at(a, i) < exp_at(b, i)
                &&& forall|j: int| 0 <= j < i ==> exp_at(a, j) == exp_at(b, j)
            };
        assert(exp_at(ta, i) < exp_at(tb, i));
        assert(forall|j: int| 0 <= j < i ==> exp_at(ta, j) == exp_at(tb, j));
        assert(mono_lt(ta, tb));
    }
    if mono_eq(ta, tb) {
        assert forall|i: int| exp_at(a, i) == exp_at(b, i) by {
            assert(exp_at(ta, i) == exp_at(tb, i));
        }
    }
    if mono_lt(ta, tb) {
        let i = choose|i: int|
            {
                &&& 0 <= i
                &&& exp_at(ta, i) < exp_at(tb, i)
                &&& forall|j: int| 0 <= j < i ==> exp_at(ta, j) == exp_at(tb, j)
            };
        assert(exp_at(a, i) < exp_at(b, i));
        assert forall|j: int| 0 <= j < i implies exp_at(a, j) == exp_at(b, j) by {
            assert(exp_at(ta, j) == exp_at(tb, j));
        }
        assert(mono_lt(a, b));
    }
}

} // verus!
