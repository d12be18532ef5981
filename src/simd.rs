//! A sixteen-lane vector of bytes and the lane-wise operations that the
//! validator is built from.
use vstd::prelude::*;

verus! {

/// Sixteen bytes; lane 0 is the earliest byte in source order, lane 15 the latest.
#[derive(Clone, Copy, Debug)]
pub struct Simd8x16 {
    value: [u8; 16],
}

impl View for Simd8x16 {
    type V = Seq<u8>;

    closed spec fn view(&self) -> Seq<u8> {
        self.value@
    }
}

/// Every vector has exactly sixteen lanes.
pub broadcast proof fn lemma_lanes(v: Simd8x16)
    ensures
        #[trigger] v@.len() == 16,
{
}

impl Simd8x16 {
    /// Builds a vector from its sixteen lanes, earliest first.
    pub fn new(
        v0: u8, v1: u8, v2: u8, v3: u8, v4: u8, v5: u8, v6: u8, v7: u8,
        v8: u8, v9: u8, v10: u8, v11: u8, v12: u8, v13: u8, v14: u8, v15: u8,
    ) -> (r: Self)
        ensures
            r@ == seq![v0, v1, v2, v3, v4, v5, v6, v7, v8, v9, v10, v11, v12, v13, v14, v15],
    {
        let r = Simd8x16 {
            value: [v0, v1, v2, v3, v4, v5, v6, v7, v8, v9, v10, v11, v12, v13, v14, v15],
        };
        assert(r@ =~= seq![v0, v1, v2, v3, v4, v5, v6, v7, v8, v9, v10, v11, v12, v13, v14, v15]);
        r
    }

    /// The same byte in every lane.
    pub fn splat(x: u8) -> (r: Self)
        ensures
            forall|i: int| 0 <= i < 16 ==> #[trigger] r@[i] == x,
    {
        Simd8x16 { value: [x; 16] }
    }

    /// The sixteen bytes of `bytes` that start at `start`.
    pub fn load(bytes: &[u8; 64], start: usize) -> (r: Self)
        requires
            start + 16 <= 64,
        ensures
            r@ == bytes@.subrange(start as int, start + 16),
    {
        let mut out = [0u8; 16];
        let mut i: usize = 0;
        while i < 16
            invariant
                start + 16 <= 64,
                0 <= i <= 16,
                forall|j: int| 0 <= j < i ==> #[trigger] out@[j] == bytes@[start + j],
            decreases 16 - i,
        {
            out[i] = bytes[start + i];
            i += 1;
        }
        let r = Simd8x16 { value: out };
        assert(r@ =~= bytes@.subrange(start as int, start + 16));
        r
    }

    /// The sixteen lanes as an array.
    pub fn value(&self) -> (r: [u8; 16])
        ensures
            r@ == self@,
    {
        self.value
    }

    /// Lane `i` of the result is `self[i - N]` for `i >= N`, and
    /// `previous[16 - N + i]` for the first `N` lanes: the window slides back
    /// by `N` lanes across the boundary between `previous` and `self`.
    pub fn prev<const N: usize>(&self, previous: Simd8x16) -> (r: Simd8x16)
        requires
            N <= 16,
        ensures
            forall|i: int|
                0 <= i < 16 ==> #[trigger] r@[i] == if i >= N {
                    self@[i - N]
                } else {
                    previous@[16 - N + i]
                },
    {
        let mut out = [0u8; 16];
        let mut i: usize = 0;
        while i < 16
            invariant
                N <= 16,
                0 <= i <= 16,
                forall|j: int|
                    0 <= j < i ==> #[trigger] out@[j] == if j >= N {
                        self@[j - N]
                    } else {
                        previous@[16 - N + j]
                    },
            decreases 16 - i,
        {
            if i >= N {
                out[i] = self.value[i - N];
            } else {
                out[i] = previous.value[16 - N + i];
            }
            i += 1;
        }
        Simd8x16 { value: out }
    }

    /// Each lane shifted right by `N` bits, with zeros shifted in.
    pub fn shr<const N: u32>(&self) -> (r: Simd8x16)
        requires
            N < 8,
        ensures
            forall|i: int| 0 <= i < 16 ==> #[trigger] r@[i] == self@[i] >> N,
    {
        let mut out = [0u8; 16];
        let mut i: usize = 0;
        while i < 16
            invariant
                N < 8,
                0 <= i <= 16,
                forall|j: int| 0 <= j < i ==> #[trigger] out@[j] == self@[j] >> N,
            decreases 16 - i,
        {
            out[i] = self.value[i] >> N;
            i += 1;
        }
        Simd8x16 { value: out }
    }

    /// Looks each lane up in the sixteen-entry `table`; a lane of 16 or more
    /// gives zero.
    pub fn lookup_16(&self, table: Simd8x16) -> (r: Simd8x16)
        ensures
            forall|i: int|
                0 <= i < 16 ==> #[trigger] r@[i] == if self@[i] < 16 {
                    table@[self@[i] as int]
                } else {
                    0u8
                },
    {
        let mut out = [0u8; 16];
        let mut i: usize = 0;
        while i < 16
            invariant
                0 <= i <= 16,
                forall|j: int|
                    0 <= j < i ==> #[trigger] out@[j] == if self@[j] < 16 {
                        table@[self@[j] as int]
                    } else {
                        0u8
                    },
            decreases 16 - i,
        {
            let x = self.value[i];
            if x < 16 {
                out[i] = table.value[x as usize];
            } else {
                out[i] = 0;
            }
            i += 1;
        }
        Simd8x16 { value: out }
    }

    /// Lane-wise unsigned subtraction that stops at zero.
    pub fn saturating_sub(&self, other: Simd8x16) -> (r: Simd8x16)
        ensures
            forall|i: int|
                0 <= i < 16 ==> #[trigger] r@[i] == if self@[i] >= other@[i] {
                    (self@[i] - other@[i]) as u8
                } else {
                    0u8
                },
    {
        let mut out = [0u8; 16];
        let mut i: usize = 0;
        while i < 16
            invariant
                0 <= i <= 16,
                forall|j: int|
                    0 <= j < i ==> #[trigger] out@[j] == if self@[j] >= other@[j] {
                        (self@[j] - other@[j]) as u8
                    } else {
                        0u8
                    },
            decreases 16 - i,
        {
            let a = self.value[i];
            let b = other.value[i];
            if a >= b {
                out[i] = a - b;
            } else {
                out[i] = 0;
            }
            i += 1;
        }
        Simd8x16 { value: out }
    }

    /// Lanes that are greater than those of `other` are nonzero, the others
    /// zero: the saturating difference.
    pub fn gt_bits(&self, other: Self) -> (r: Self)
        ensures
            forall|i: int|
                0 <= i < 16 ==> #[trigger] r@[i] == if self@[i] >= other@[i] {
                    (self@[i] - other@[i]) as u8
                } else {
                    0u8
                },
    {
        self.saturating_sub(other)
    }

    /// Lane-wise bitwise and.
    pub fn bitand(self, rhs: Self) -> (r: Self)
        ensures
            forall|i: int| 0 <= i < 16 ==> #[trigger] r@[i] == self@[i] & rhs@[i],
    {
        let mut out = [0u8; 16];
        let mut i: usize = 0;
        while i < 16
            invariant
                0 <= i <= 16,
                forall|j: int| 0 <= j < i ==> #[trigger] out@[j] == self@[j] & rhs@[j],
            decreases 16 - i,
        {
            out[i] = self.value[i] & rhs.value[i];
            i += 1;
        }
        Simd8x16 { value: out }
    }

    /// Lane-wise bitwise or.
    pub fn bitor(self, rhs: Self) -> (r: Self)
        ensures
            forall|i: int| 0 <= i < 16 ==> #[trigger] r@[i] == self@[i] | rhs@[i],
    {
        let mut out = [0u8; 16];
        let mut i: usize = 0;
        while i < 16
            invariant
                0 <= i <= 16,
                forall|j: int| 0 <= j < i ==> #[trigger] out@[j] == self@[j] | rhs@[j],
            decreases 16 - i,
        {
            out[i] = self.value[i] | rhs.value[i];
            i += 1;
        }
        Simd8x16 { value: out }
    }

    /// Lane-wise bitwise exclusive or.
    pub fn bitxor(self, rhs: Self) -> (r: Self)
        ensures
            forall|i: int| 0 <= i < 16 ==> #[trigger] r@[i] == self@[i] ^ rhs@[i],
    {
        let mut out = [0u8; 16];
        let mut i: usize = 0;
        while i < 16
            invariant
                0 <= i <= 16,
                forall|j: int| 0 <= j < i ==> #[trigger] out@[j] == self@[j] ^ rhs@[j],
            decreases 16 - i,
        {
            out[i] = self.value[i] ^ rhs.value[i];
            i += 1;
        }
        Simd8x16 { value: out }
    }

    /// Ors `rhs` into `self`, lane by lane.
    pub fn bitor_assign(&mut self, rhs: Self)
        ensures
            forall|i: int| 0 <= i < 16 ==> #[trigger] final(self)@[i] == old(self)@[i] | rhs@[i],
    {
        *self = self.bitor(rhs);
    }

    /// True when no lane holds a set bit.
    pub fn is_zero(&self) -> (r: bool)
        ensures
            r == forall|i: int| 0 <= i < 16 ==> #[trigger] self@[i] == 0,
    {
        let mut i: usize = 0;
        while i < 16
            invariant
                0 <= i <= 16,
                forall|j: int| 0 <= j < i ==> #[trigger] self@[j] == 0,
            decreases 16 - i,
        {
            if self.value[i] != 0 {
                assert(self@[i as int] != 0);
                return false;
            }
            i += 1;
        }
        true
    }
}

} // verus!
