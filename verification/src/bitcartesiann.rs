//! Exhaustive enumeration of boolean vectors: for a width `n`, every vector
//! of `n` booleans, in the order of binary counting from `0` to `2^n - 1`
//! with the most significant bit first.

use vstd::prelude::*;

use vstd::arithmetic::div_mod::{lemma_div_denominator, lemma_fundamental_div_mod};
use vstd::arithmetic::power2::{
    lemma2_to64, lemma_pow2_pos, lemma_pow2_strictly_increases, lemma_pow2_unfold, pow2,
};

verus! {

/// The binary digits of `c`, `n` of them, most significant first: the
/// vector that binary counting assigns to counter value `c` at width `n`.
pub open spec fn bits_of(c: nat, n: nat) -> Seq<bool>
    decreases n,
{
    if n == 0 {
        Seq::empty()
    } else {
        bits_of(c / 2, (n - 1) as nat).push(c % 2 == 1)
    }
}

pub proof fn lemma_bits_of_len(c: nat, n: nat)
    ensures
        bits_of(c, n).len() == n,
    decreases n,
{
    if n > 0 {
        lemma_bits_of_len(c / 2, (n - 1) as nat);
    }
}

/// Peeling the most significant digit off the front: the first element of
/// `bits_of(c, i + 1)` is digit `i` of `c`, and the rest is `bits_of(c, i)`.
proof fn lemma_bits_of_prepend(c: nat, i: nat)
    ensures
        bits_of(c, i + 1) == seq![(c / pow2(i)) % 2 == 1] + bits_of(c, i),
    decreases i,
{
    if i == 0 {
        lemma2_to64();
        assert(bits_of(c / 2, 0) =~= Seq::<bool>::empty());
        assert(bits_of(c, 1) == bits_of(c / 2, 0).push(c % 2 == 1));
        assert(bits_of(c, 1) =~= seq![(c / pow2(0)) % 2 == 1] + bits_of(c, 0));
    } else {
        lemma_bits_of_prepend(c / 2, (i - 1) as nat);
        lemma_pow2_pos((i - 1) as nat);
        lemma_pow2_unfold(i);
        lemma_div_denominator(c as int, 2, pow2((i - 1) as nat) as int);
        assert((c / 2) / pow2((i - 1) as nat) == c / pow2(i));
        assert(bits_of(c, i + 1) == bits_of(c / 2, i).push(c % 2 == 1));
        assert((seq![(c / pow2(i)) % 2 == 1] + bits_of(c / 2, (i - 1) as nat)).push(c % 2 == 1)
            =~= seq![(c / pow2(i)) % 2 == 1] + bits_of(c, i));
    }
}

/// Law: at any width `n`, distinct counter values below `2^n` produce
/// distinct boolean vectors, so the `2^n` vectors of a full enumeration are
/// pairwise distinct.
pub proof fn lemma_bits_of_injective(c1: nat, c2: nat, n: nat)
    requires
        c1 < pow2(n),
        c2 < pow2(n),
        bits_of(c1, n) == bits_of(c2, n),
    ensures
        c1 == c2,
    decreases n,
{
    if n == 0 {
        lemma2_to64();
    } else {
        lemma_pow2_unfold(n);
        assert(bits_of(c1, n).last() == (c1 % 2 == 1));
        assert(bits_of(c2, n).last() == (c2 % 2 == 1));
        assert(c1 % 2 == c2 % 2);
        assert(bits_of(c1, n).drop_last() == bits_of(c1 / 2, (n - 1) as nat));
        assert(bits_of(c2, n).drop_last() == bits_of(c2 / 2, (n - 1) as nat));
        assert(c1 / 2 < pow2((n - 1) as nat) && c2 / 2 < pow2((n - 1) as nat)) by {
            lemma_fundamental_div_mod(c1 as int, 2);
            lemma_fundamental_div_mod(c2 as int, 2);
        }
        lemma_bits_of_injective(c1 / 2, c2 / 2, (n - 1) as nat);
        lemma_fundamental_div_mod(c1 as int, 2);
        lemma_fundamental_div_mod(c2 as int, 2);
    }
}

/// `2^n` as a machine integer.
fn pow2_u32(n: u32) -> (r: u32)
    requires
        n <= 31,
    ensures
        r as nat == pow2(n as nat),
{
    let mut r: u32 = 1;
    let mut i: u32 = 0;
    proof {
        lemma2_to64();
    }
    while i < n
        invariant
            i <= n <= 31,
            r as nat == pow2(i as nat),
        decreases n - i,
    {
        proof {
            lemma_pow2_unfold(i as nat + 1);
            if i as nat + 1 < 31 {
                lemma_pow2_strictly_increases(i as nat + 1, 31);
            }
            lemma2_to64();
        }
        r = r * 2;
        i = i + 1;
    }
    r
}

/// A restartable enumerator over the boolean vectors of width `n`: a counter
/// that runs from `0` to `2^n - 1`, each value yielding its binary digits,
/// most significant first. Width `0` yields no vector at all.
pub struct BitCartesianN {
    n: u32,
    counter: u32,
}

impl BitCartesianN {
    /// The width: how many booleans each produced vector holds.
    pub closed spec fn width(self) -> nat {
        self.n as nat
    }

    /// The counter: how many vectors have been produced so far.
    pub closed spec fn position(self) -> nat {
        self.counter as nat
    }

    pub open spec fn wf(self) -> bool {
        self.width() <= 31 && self.position() <= pow2(self.width())
    }

    pub fn new(n: u32) -> (r: Self)
        requires
            n <= 31,
        ensures
            r.wf(),
            r.width() == n as nat,
            r.position() == 0,
    {
        proof {
            lemma_pow2_pos(n as nat);
        }
        Self { n, counter: 0 }
    }

    /// Produces the next boolean vector, or `None` once the counter has
    /// passed `2^n - 1` (immediately, at width `0`).
    pub fn next(&mut self) -> (r: Option<Vec<bool>>)
        requires
            old(self).wf(),
        ensures
            final(self).wf(),
            final(self).width() == old(self).width(),
            (old(self).width() == 0 || old(self).position() >= pow2(old(self).width())) ==> r
                is None && final(self).position() == old(self).position(),
            (old(self).width() > 0 && old(self).position() < pow2(old(self).width())) ==> (match r {
                Option::Some(bits) => bits@ == bits_of(old(self).position(), old(self).width())
                    && final(self).position() == old(self).position() + 1,
                Option::None => false,
            }),
    {
        let bound = pow2_u32(self.n);
        if self.counter >= bound {
            return None;
        }
        if self.n == 0 {
            return None;
        }

        let ghost c0 = self.counter as nat;
        let mut bits: Vec<bool> = Vec::new();
        let mut cur: u32 = self.counter;
        let mut j: u32 = 0;
        proof {
            lemma2_to64();
        }
        while j < self.n
            invariant
                j <= self.n <= 31,
                bits@ == bits_of(c0, j as nat),
                cur as nat == c0 / pow2(j as nat),
            decreases self.n - j,
        {
            proof {
                lemma_bits_of_prepend(c0, j as nat);
                lemma_pow2_pos(j as nat);
                lemma_pow2_unfold(j as nat + 1);
                lemma_div_denominator(c0 as int, pow2(j as nat) as int, 2);
            }
            let b = cur % 2 == 1;
            bits.insert(0, b);
            proof {
                assert(bits@ =~= seq![(c0 / pow2(j as nat)) % 2 == 1] + bits_of(c0, j as nat));
            }
            cur = cur / 2;
            j = j + 1;
        }
        self.counter = self.counter + 1;
        Some(bits)
    }

    /// Every vector the enumerator has yet to produce, in order: vector `i`
    /// of the result belongs to counter value `position + i`.
    pub fn into_rows(self) -> (r: Vec<Vec<bool>>)
        requires
            self.wf(),
        ensures
            r@.len() == if self.width() == 0 {
                0int
            } else {
                pow2(self.width()) - self.position()
            },
            forall|i: int|
                0 <= i < r@.len() ==> r@[i]@ == bits_of((self.position() + i) as nat, self.width()),
    {
        let ghost start = self.position();
        let ghost w = self.width();
        let mut it = self;
        let mut rows: Vec<Vec<bool>> = Vec::new();
        loop
            invariant
                it.wf(),
                it.width() == w,
                w == 0 ==> rows@.len() == 0 && it.position() == start,
                w > 0 ==> start <= it.position() <= pow2(w) && rows@.len() == it.position()
                    - start,
                forall|i: int|
                    0 <= i < rows@.len() ==> rows@[i]@ == bits_of((start + i) as nat, w),
            ensures
                rows@.len() == if w == 0 {
                    0int
                } else {
                    pow2(w) - start
                },
                forall|i: int|
                    0 <= i < rows@.len() ==> rows@[i]@ == bits_of((start + i) as nat, w),
            decreases pow2(w) - it.position(),
        {
            match it.next() {
                None => {
                    break ;
                },
                Some(bits) => {
                    rows.push(bits);
                },
            }
        }
        rows
    }
}

} // verus!
