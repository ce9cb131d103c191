//! Sets of digits 1-9, as a 9-bit mask.

use vstd::prelude::*;

verus! {

/// A set of digits 1-9.  Bit `d` of the mask is set exactly when digit `d`
/// is a member; bit 0 and bits 10 and up are always clear.
#[derive(Clone, Copy, Debug, PartialEq, Eq, Structural)]
pub struct Digits {
    pub mask: u16,
}

impl Digits {
    /// Only bits 1 through 9 may be set.
    pub open spec fn wf(self) -> bool {
        self.mask & 0xFC01u16 == 0
    }

    /// Digit `d` is a member.
    pub open spec fn has(self, d: u8) -> bool {
        1 <= d <= 9 && (self.mask >> (d as u16)) & 1u16 == 1
    }

    /// The set with no digits.
    pub fn empty() -> (r: Digits)
        ensures
            r.wf(),
            forall|d: u8| !r.has(d),
    {
        let r = Digits { mask: 0 };
        proof {
            assert(0u16 & 0xFC01u16 == 0) by (bit_vector);
            assert(forall|d: u8| 1 <= d <= 9 ==> #[trigger] ((0u16 >> (d as u16)) & 1u16) == 0)
                by (bit_vector);
        }
        r
    }

    /// The set of all digits 1-9.
    pub fn full() -> (r: Digits)
        ensures
            r.wf(),
            forall|d: u8| 1 <= d <= 9 ==> r.has(d),
    {
        let r = Digits { mask: 0x03FE };
        proof {
            assert(0x03FEu16 & 0xFC01u16 == 0) by (bit_vector);
            assert(forall|d: u8| 1 <= d <= 9 ==> #[trigger] ((0x03FEu16 >> (d as u16)) & 1u16)
                == 1) by (bit_vector);
        }
        r
    }

    /// Membership test.
    pub fn contains(&self, d: u8) -> (r: bool)
        requires
            1 <= d <= 9,
        ensures
            r == self.has(d),
    {
        (self.mask >> (d as u16)) & 1 == 1
    }

    /// The set extended with digit `d`.
    pub fn insert(self, d: u8) -> (r: Digits)
        requires
            self.wf(),
            1 <= d <= 9,
        ensures
            r.wf(),
            forall|e: u8| r.has(e) <==> (self.has(e) || e == d),
    {
        let r = Digits { mask: self.mask | (1u16 << (d as u16)) };
        proof {
            let m = self.mask;
            let d16 = d as u16;
            assert((m | (1u16 << d16)) & 0xFC01u16 == 0 && forall|e: u16|
                1 <= e <= 9 ==> ((#[trigger] (((m | (1u16 << d16)) >> e) & 1u16) == 1) <==> ((m
                    >> e) & 1u16 == 1 || e == d16))) by (bit_vector)
                requires
                    m & 0xFC01u16 == 0,
                    1 <= d16 <= 9,
            ;
            assert forall|e: u8| r.has(e) <==> (self.has(e) || e == d) by {
                if 1 <= e <= 9 {
                    assert(1 <= e as u16 <= 9);
                }
            }
        }
        r
    }

    /// The digits of `self` that are not in `other`.
    pub fn diff(self, other: Digits) -> (r: Digits)
        requires
            self.wf(),
        ensures
            r.wf(),
            forall|e: u8| r.has(e) <==> (self.has(e) && !other.has(e)),
    {
        let r = Digits { mask: self.mask & !other.mask };
        proof {
            let m = self.mask;
            let o = other.mask;
            assert((m & !o) & 0xFC01u16 == 0 && forall|e: u16|
                1 <= e <= 9 ==> ((#[trigger] (((m & !o) >> e) & 1u16) == 1) <==> ((m >> e) & 1u16
                    == 1 && !((o >> e) & 1u16 == 1)))) by (bit_vector)
                requires
                    m & 0xFC01u16 == 0,
            ;
            assert forall|e: u8| r.has(e) <==> (self.has(e) && !other.has(e)) by {
                if 1 <= e <= 9 {
                    assert(1 <= e as u16 <= 9);
                }
            }
        }
        r
    }

    /// The smallest member, if the set is non-empty.
    pub fn smallest(&self) -> (r: Option<u8>)
        ensures
            match r {
                Some(d) => self.has(d) && forall|e: u8| e < d ==> !self.has(e),
                None => forall|e: u8| !self.has(e),
            },
    {
        let mut d: u8 = 1;
        while d <= 9
            invariant
                1 <= d <= 10,
                forall|e: u8| e < d ==> !self.has(e),
            decreases 10 - d,
        {
            if self.contains(d) {
                return Some(d);
            }
            d = d + 1;
        }
        None
    }

    /// The sum of the members of the set with rank at least `d`.
    pub open spec fn sum_from(self, d: int) -> int
        decreases 10 - d,
    {
        if d < 1 || d > 9 {
            0
        } else {
            (if self.has(d as u8) {
                d
            } else {
                0
            }) + self.sum_from(d + 1)
        }
    }

    /// The sum of all members.
    pub open spec fn spec_sum(self) -> int {
        self.sum_from(1)
    }

    /// The sum of the members of the set.
    pub fn sum(&self) -> (r: u8)
        ensures
            r == self.spec_sum(),
    {
        let mut acc: u8 = 0;
        let mut d: u8 = 9;
        proof {
            lemma_sum_from_bounds(*self, 10);
        }
        while d >= 1
            invariant
                d <= 9,
                acc == self.sum_from(d as int + 1),
                0 <= acc <= 45,
            decreases d,
        {
            proof {
                lemma_sum_from_bounds(*self, d as int);
                reveal_with_fuel(tri, 11);
                assert(tri(d as int) <= 45);
            }
            if self.contains(d) {
                acc = acc + d;
            }
            d = d - 1;
        }
        acc
    }
}

/// The sum of the digits `d`, `d + 1`, ..., 9.
pub open spec fn tri(d: int) -> int
    decreases 10 - d,
{
    if d < 1 || d > 9 {
        0
    } else {
        d + tri(d + 1)
    }
}

/// A tail of the digit sum is at most the sum of the corresponding digits,
/// with equality exactly when every one of those digits is a member.
pub proof fn lemma_sum_from_bounds(s: Digits, d: int)
    requires
        1 <= d,
    ensures
        0 <= s.sum_from(d) <= tri(d),
        s.sum_from(d) == tri(d) <==> (forall|e: u8| d <= e <= 9 ==> s.has(e)),
    decreases 10 - d,
{
    if d > 9 {
    } else {
        lemma_sum_from_bounds(s, d + 1);
        if s.has(d as u8) {
            assert(s.sum_from(d) == tri(d) <==> (forall|e: u8| d <= e <= 9 ==> s.has(e))) by {
                if s.sum_from(d + 1) == tri(d + 1) {
                    assert forall|e: u8| d <= e <= 9 implies s.has(e) by {
                        if d + 1 <= e {
                        } else {
                            assert(e == d as u8);
                        }
                    }
                }
            }
        } else {
            assert(s.sum_from(d) < tri(d));
            assert(!s.has(d as u8));
        }
    }
}

/// A digit set sums to 45 exactly when it holds every digit 1-9.
pub proof fn lemma_sum_is_45(s: Digits)
    ensures
        s.spec_sum() == 45 <==> (forall|e: u8| 1 <= e <= 9 ==> s.has(e)),
{
    lemma_sum_from_bounds(s, 1);
    reveal_with_fuel(tri, 11);
    assert(tri(1) == 45);
}

} // verus!
