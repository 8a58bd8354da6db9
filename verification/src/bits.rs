//! Sets of board points, small enough to live on the stack.

use vstd::prelude::*;
use vstd::std_specs::bits::axiom_u64_trailing_zeros;

verus! {

/// How many 64-bit words hold one bit for every cell of the padded board.
pub const WORDS: usize = 7;

/// One more than the largest point a set can hold.
pub const CAPACITY: usize = 448;

/// Is bit `b` of `w` set?
pub open spec fn bit(w: u64, b: int) -> bool {
    (w >> (b as u64)) & 1u64 == 1u64
}

/// A set of points below `CAPACITY`.
#[derive(Clone, Copy)]
pub struct Bits {
    w: [u64; 7],
}

impl View for Bits {
    type V = Set<int>;

    closed spec fn view(&self) -> Set<int> {
        Set::new(|i: int| 0 <= i < 448 && bit(self.w@[i / 64], i % 64))
    }
}

impl Bits {
    /// The empty set.
    #[inline]
    pub fn new() -> (s: Bits)
        ensures
            s@ == Set::<int>::empty(),
    {
        let s = Bits { w: [0; 7] };
        proof {
            assert forall|i: int| !s@.contains(i) by {
                let b = (i % 64) as u64;
                assert((0u64 >> b) & 1u64 == 0u64) by (bit_vector);
            }
            assert(s@ =~= Set::<int>::empty());
        }
        s
    }

    /// Is `i` in the set?
    #[inline]
    pub fn get(&self, i: usize) -> (r: bool)
        requires
            i < CAPACITY,
        ensures
            r == self@.contains(i as int),
    {
        let k: usize = i / 64;
        let b: u64 = (i % 64) as u64;
        (self.w[k] >> b) & 1 == 1
    }

    /// Adds `i` to the set.
    #[inline]
    pub fn set(&mut self, i: usize)
        requires
            i < CAPACITY,
        ensures
            final(self)@ == old(self)@.insert(i as int),
    {
        let k: usize = i / 64;
        let b: u64 = (i % 64) as u64;
        let before: u64 = self.w[k];
        let after: u64 = before | (1u64 << b);
        self.w[k] = after;
        proof {
            assert forall|j: int| self@.contains(j) == old(self)@.insert(i as int).contains(j) by {
                let c = (j % 64) as u64;
                assert(b < 64 && c < 64 && after == before | (1u64 << b) ==> ((after >> c) & 1u64
                    == 1u64) == (c == b || (before >> c) & 1u64 == 1u64)) by (bit_vector);
            }
            assert(self@ =~= old(self)@.insert(i as int));
        }
    }

    /// Takes `i` out of the set.
    #[inline]
    pub fn unset(&mut self, i: usize)
        requires
            i < CAPACITY,
        ensures
            final(self)@ == old(self)@.remove(i as int),
    {
        let k: usize = i / 64;
        let b: u64 = (i % 64) as u64;
        let before: u64 = self.w[k];
        let after: u64 = before & !(1u64 << b);
        self.w[k] = after;
        proof {
            assert forall|j: int| self@.contains(j) == old(self)@.remove(i as int).contains(j) by {
                let c = (j % 64) as u64;
                assert(b < 64 && c < 64 && after == before & !(1u64 << b) ==> ((after >> c) & 1u64
                    == 1u64) == (c != b && (before >> c) & 1u64 == 1u64)) by (bit_vector);
            }
            assert(self@ =~= old(self)@.remove(i as int));
        }
    }

    /// Removes and returns the lowest point in the set, which makes a set usable
    /// as the frontier of a flood fill.
    #[inline]
    pub fn take_lowest(&mut self) -> (r: Option<u16>)
        ensures
            match r {
                None => old(self)@ == Set::<int>::empty() && final(self)@ == old(self)@,
                Some(p) => {
                    &&& old(self)@.contains(p as int)
                    &&& forall|q: int| #[trigger] old(self)@.contains(q) ==> p <= q
                    &&& final(self)@ == old(self)@.remove(p as int)
                },
            },
    {
        let mut k: usize = 0;
        while k < 7
            invariant
                k <= 7,
                self@ == old(self)@,
                self.w@ == old(self).w@,
                forall|j: int| 0 <= j < k ==> self.w@[j] == 0,
            decreases 7 - k,
        {
            let before: u64 = self.w[k];
            if before != 0 {
                let b: u64 = before.trailing_zeros() as u64;
                let ghost above: u64 = (64 - b) as u64;
                proof {
                    axiom_u64_trailing_zeros(before);
                }
                let low: u64 = before - 1;
                let after: u64 = before & low;
                self.w[k] = after;
                let p: u16 = (k * 64 + b as usize) as u16;
                proof {
                    assert forall|j: int|
                        self@.contains(j) == old(self)@.remove(p as int).contains(j) by {
                        if 0 <= j < 448 {
                            let c = (j % 64) as u64;
                            assert(((after >> c) & 1u64 == 1u64) == (c != b && (before >> c) & 1u64
                                == 1u64)) by (bit_vector)
                                requires
                                    b < 64,
                                    c < 64,
                                    before != 0,
                                    (before >> b) & 1u64 == 1u64,
                                    before << above == 0,
                                    above == 64 - b,
                                    low == before - 1,
                                    after == before & low,
                            ;
                        }
                    }
                    assert forall|q: int| #[trigger] old(self)@.contains(q) implies p <= q by {
                        let c = (q % 64) as u64;
                        if q / 64 < k {
                            assert((0u64 >> c) & 1u64 == 0u64) by (bit_vector);
                        } else if q / 64 == k && c < b {
                            assert((before >> c) & 1u64 == 0u64);
                        }
                    }
                    assert(self@ =~= old(self)@.remove(p as int));
                }
                return Some(p);
            }
            k += 1;
        }
        proof {
            assert forall|i: int| !self@.contains(i) by {
                let b = (i % 64) as u64;
                assert((0u64 >> b) & 1u64 == 0u64) by (bit_vector);
            }
            assert(self@ =~= Set::<int>::empty());
        }
        None
    }

    /// A set of points is finite, and no larger than the capacity.
    pub proof fn lemma_finite(&self)
        ensures
            self@.finite(),
            self@.len() <= CAPACITY,
    {
        vstd::set_lib::lemma_int_range(0, 448);
        let all = vstd::set_lib::set_int_range(0, 448);
        assert(self@.subset_of(all));
        vstd::set_lib::lemma_len_subset(self@, all);
    }

    /// The number of points in the set, counting no further than `cap`.
    #[inline]
    pub fn count(&self, cap: u32) -> (n: u32)
        ensures
            n == if self@.len() < cap { self@.len() } else { cap as nat },
    {
        let mut rest: Bits = *self;
        let mut n: u32 = 0;
        proof {
            self.lemma_finite();
        }
        while n < cap
            invariant
                n <= cap,
                rest@.finite(),
                rest@.len() + n == self@.len(),
            decreases cap - n,
        {
            match rest.take_lowest() {
                None => {
                    return n;
                },
                Some(_) => {
                    n += 1;
                },
            }
        }
        n
    }

    /// Adds every point of `other` to the set.
    #[inline]
    pub fn add_all(&mut self, other: &Bits)
        ensures
            final(self)@ == old(self)@.union(other@),
    {
        let ghost before = self.w@;
        let mut k: usize = 0;
        while k < 7
            invariant
                k <= 7,
                before == old(self).w@,
                forall|j: int| 0 <= j < k ==> #[trigger] self.w@[j] == before[j] | other.w@[j],
                forall|j: int| k <= j < 7 ==> #[trigger] self.w@[j] == before[j],
            decreases 7 - k,
        {
            self.w[k] = self.w[k] | other.w[k];
            k += 1;
        }
        proof {
            assert forall|i: int| self@.contains(i) == old(self)@.union(other@).contains(i) by {
                if 0 <= i < 448 {
                    let a = before[i / 64];
                    let b = other.w@[i / 64];
                    let c = (i % 64) as u64;
                    assert(c < 64 ==> (((a | b) >> c) & 1u64 == 1u64) == ((a >> c) & 1u64 == 1u64
                        || (b >> c) & 1u64 == 1u64)) by (bit_vector);
                    assert(self.w@[i / 64] == a | b);
                }
            }
            assert(self@ =~= old(self)@.union(other@));
        }
    }
}

} // verus!
