//! A set of candidate digits 1..=9 for one cell, held as nine bits.

use vstd::prelude::*;

verus! {

/// Bit mask with the low nine bits set: every digit possible.
pub const ALL_NUMS: u16 = 511;

/// The candidate digits of one cell: bit `d - 1` is set when digit `d` is
/// still possible. Bits above the ninth are never read.
#[derive(Clone, Copy, PartialEq, Eq, Structural, Debug)]
pub struct SudokuCell(pub u16);

/// Whether digit `d` (1..=9) is among the candidates encoded by `bits`.
pub open spec fn bits_has(bits: u16, d: int) -> bool {
    1 <= d <= 9 && (bits >> ((d - 1) as u16)) & 1u16 == 1u16
}

/// How many of the digits 1..=n are among the candidates encoded by `bits`.
pub open spec fn count_upto(bits: u16, n: int) -> nat
    decreases n,
{
    if n <= 0 {
        0
    } else {
        count_upto(bits, n - 1) + if bits_has(bits, n) { 1nat } else { 0nat }
    }
}

impl SudokuCell {
    pub open spec fn has(self, d: int) -> bool {
        bits_has(self.0, d)
    }

    /// The number of candidates.
    pub open spec fn count(self) -> nat {
        count_upto(self.0, 9)
    }

    /// The set of candidate digits.
    pub open spec fn digits(self) -> Set<int> {
        Set::new(|d: int| self.has(d))
    }

    /// Every candidate of `self` is a candidate of `other`.
    pub open spec fn subset_of(self, other: SudokuCell) -> bool {
        forall|d: int| #[trigger] self.has(d) ==> other.has(d)
    }

    /// The cell holds exactly the one digit `d`.
    pub open spec fn is_single(self, d: int) -> bool {
        &&& self.has(d)
        &&& forall|e: int| #[trigger] self.has(e) ==> e == d
    }

    /// A cell with no candidates.
    pub fn new() -> (r: Self)
        ensures
            forall|d: int| !(#[trigger] r.has(d)),
            r.0 == 0,
    {
        proof {
            lemma_bits_zero();
        }
        SudokuCell(0)
    }

    /// A cell in which every digit is still possible.
    pub fn new_all_set() -> (r: Self)
        ensures
            forall|d: int| #[trigger] r.has(d) <==> 1 <= d <= 9,
            r.0 == 511,
    {
        proof {
            lemma_bits_all();
        }
        SudokuCell(ALL_NUMS)
    }

    /// Adds digit `num` to the candidates.
    pub fn set(&mut self, num: u8)
        requires
            1 <= num <= 9,
        ensures
            forall|d: int| #[trigger] final(self).has(d) <==> (old(self).has(d) || d == num),
            old(self).0 < 512 ==> final(self).0 < 512,
            final(self).0 == old(self).0 | (1u16 << ((num - 1) as u16)),
    {
        let b = self.0;
        let s = (num - 1) as u16;
        proof {
            lemma_bits_or(b, s);
        }
        assert(s < 9 && b < 512 ==> b | (1u16 << s) < 512) by (bit_vector);
        self.0 = b | (1u16 << s);
    }

    /// Removes digit `num` from the candidates.
    pub fn unset(&mut self, num: u8)
        requires
            1 <= num <= 9,
        ensures
            forall|d: int| #[trigger] final(self).has(d) <==> (old(self).has(d) && d != num),
            final(self).0 == old(self).0 & !(1u16 << ((num - 1) as u16)),
            old(self).0 < 512 ==> final(self).0 < 512,
    {
        let b = self.0;
        let s = (num - 1) as u16;
        proof {
            lemma_bits_and_not(b, s);
        }
        assert(b < 512 ==> b & !(1u16 << s) < 512) by (bit_vector);
        self.0 = b & !(1u16 << s);
    }

    /// Removes every candidate.
    pub fn clear(&mut self)
        ensures
            forall|d: int| !(#[trigger] final(self).has(d)),
            final(self).0 == 0,
    {
        proof {
            lemma_bits_zero();
        }
        self.0 = 0;
    }

    /// Whether digit `num` is a candidate.
    pub fn get(&self, num: u8) -> (r: bool)
        requires
            1 <= num <= 9,
        ensures
            r == self.has(num as int),
    {
        let b = self.0;
        let s = (num - 1) as u16;
        proof {
            lemma_bits_test(b, s);
        }
        (b & (1u16 << s)) > 0
    }

    /// The number of candidates.
    pub fn size(&self) -> (r: u32)
        ensures
            r as nat == self.count(),
            r <= 9,
    {
        let mut n: u32 = 0;
        let mut d: u8 = 1;
        while d <= 9
            invariant
                1 <= d <= 10,
                n as nat == count_upto(self.0, d - 1),
                n <= d - 1,
            decreases 10 - d,
        {
            if self.get(d) {
                n = n + 1;
            }
            d = d + 1;
        }
        n
    }

    /// The smallest candidate, or `None` for a cell without candidates.
    pub fn get_first(&self) -> (r: Option<u8>)
        ensures
            r is None <==> forall|d: int| !(#[trigger] self.has(d)),
            r matches Some(v) ==> self.has(v as int) && forall|e: int|
                #[trigger] self.has(e) ==> v <= e,
    {
        let mut d: u8 = 1;
        while d <= 9
            invariant
                1 <= d <= 10,
                forall|e: int| e < d ==> !(#[trigger] self.has(e)),
            decreases 10 - d,
        {
            if self.get(d) {
                return Some(d);
            }
            d = d + 1;
        }
        None
    }

    /// Removes every candidate of `other` from `self`.
    pub fn remove_all(&mut self, other: &SudokuCell)
        ensures
            forall|d: int| #[trigger] final(self).has(d) <==> (old(self).has(d) && !other.has(d)),
            final(self).0 == old(self).0 & !other.0,
            old(self).0 < 512 ==> final(self).0 < 512,
            other.0 < 512 && (forall|d: int| !(#[trigger] old(self).has(d) && other.has(d)))
                ==> *final(self) == *old(self),
    {
        let a = self.0;
        let b = other.0;
        proof {
            lemma_bits_diff(a, b);
            if b < 512 && (forall|d: int| !(#[trigger] self.has(d) && other.has(d))) {
                assert forall|d: int| !(#[trigger] bits_has(a, d) && bits_has(b, d)) by {
                    assert(!(self.has(d) && other.has(d)));
                }
                lemma_bits_disjoint(a, b);
            }
        }
        assert(a < 512 ==> a & !b < 512) by (bit_vector);
        self.0 = a & !b;
    }

    /// The candidates, handed out one at a time in ascending order.
    pub fn iter(&self) -> (r: BitIterator)
        ensures
            r.cell == *self,
            r.pos == 1,
    {
        BitIterator { cell: *self, pos: 1 }
    }
}

/// The candidates of a cell from digit `pos` on, handed out one at a time in
/// ascending order. A fresh one from [`SudokuCell::iter`] starts over.
pub struct BitIterator {
    pub cell: SudokuCell,
    pub pos: u8,
}

impl BitIterator {
    pub open spec fn wf(self) -> bool {
        1 <= self.pos <= 10
    }

    /// The next candidate at or above `pos`, or `None` when none is left.
    pub fn next(&mut self) -> (r: Option<u8>)
        requires
            old(self).wf(),
        ensures
            final(self).wf(),
            final(self).cell == old(self).cell,
            match r {
                Some(v) => {
                    &&& old(self).pos <= v <= 9
                    &&& old(self).cell.has(v as int)
                    &&& final(self).pos == v + 1
                    &&& forall|e: int| old(self).pos <= e < v ==> !#[trigger] old(self).cell.has(e)
                },
                None => {
                    &&& final(self).pos == 10
                    &&& forall|e: int| old(self).pos <= e ==> !#[trigger] old(self).cell.has(e)
                },
            },
    {
        while self.pos <= 9
            invariant
                self.wf(),
                self.cell == old(self).cell,
                old(self).pos <= self.pos,
                forall|e: int| old(self).pos <= e < self.pos ==> !#[trigger] old(self).cell.has(e),
            decreases 10 - self.pos,
        {
            let d = self.pos;
            self.pos = d + 1;
            if self.cell.get(d) {
                return Some(d);
            }
        }
        None
    }
}

/// Counting candidates: none, one, or at least two.
pub proof fn lemma_count_upto(bits: u16, n: int)
    requires
        0 <= n <= 9,
    ensures
        count_upto(bits, n) == 0 <==> forall|d: int| 1 <= d <= n ==> !bits_has(bits, d),
        forall|x: int, y: int|
            1 <= x <= n && 1 <= y <= n && x != y && bits_has(bits, x) && bits_has(bits, y)
                ==> count_upto(bits, n) >= 2,
        forall|x: int|
            1 <= x <= n && bits_has(bits, x) && (forall|e: int| 1 <= e <= n && bits_has(bits, e) ==> e == x)
                ==> count_upto(bits, n) == 1,
    decreases n,
{
    if n > 0 {
        lemma_count_upto(bits, n - 1);
    }
}

/// Removing candidates never adds to the count, and removing one lowers it.
pub proof fn lemma_count_mono(a: SudokuCell, b: SudokuCell, n: int)
    requires
        0 <= n <= 9,
        a.subset_of(b),
    ensures
        count_upto(a.0, n) <= count_upto(b.0, n),
        (exists|d: int| 1 <= d <= n && b.has(d) && !a.has(d)) ==> count_upto(a.0, n) < count_upto(
            b.0,
            n,
        ),
    decreases n,
{
    if n > 0 {
        lemma_count_mono(a, b, n - 1);
        assert(a.has(n) ==> b.has(n));
    }
}

impl SudokuCell {
    /// A cell with one candidate holds exactly the digit `v`, for any
    /// candidate `v` of it.
    pub proof fn lemma_single(self, v: int)
        requires
            self.count() == 1,
            self.has(v),
        ensures
            self.is_single(v),
    {
        lemma_count_upto(self.0, 9);
    }

    /// A cell that holds exactly one digit has one candidate.
    pub proof fn lemma_count_single(self, v: int)
        requires
            self.is_single(v),
        ensures
            self.count() == 1,
    {
        lemma_count_upto(self.0, 9);
        assert forall|e: int| 1 <= e <= 9 && bits_has(self.0, e) implies e == v by {
            assert(self.has(e));
        }
        assert(1 <= v <= 9 && bits_has(self.0, v));
    }

    /// A cell within nine bits that holds exactly the digit `v` is stored as
    /// the single bit of `v`.
    pub proof fn lemma_single_canonical(self, v: int)
        requires
            self.0 < 512,
            self.is_single(v),
        ensures
            self.0 == 1u16 << ((v - 1) as u16),
            self.0 == 0u16 | (1u16 << ((v - 1) as u16)),
    {
        let b = self.0;
        let s = (v - 1) as u16;
        assert(self.has(1) == (v == 1));
        assert(self.has(2) == (v == 2));
        assert(self.has(3) == (v == 3));
        assert(self.has(4) == (v == 4));
        assert(self.has(5) == (v == 5));
        assert(self.has(6) == (v == 6));
        assert(self.has(7) == (v == 7));
        assert(self.has(8) == (v == 8));
        assert(self.has(9) == (v == 9));
        assert((b < 512 && s < 9 && (((b >> 0u16) & 1u16 == 1u16) == (s == 0u16)) && (((b >> 1u16) & 1u16
            == 1u16) == (s == 1u16)) && (((b >> 2u16) & 1u16 == 1u16) == (s == 2u16)) && (((b >> 3u16)
            & 1u16 == 1u16) == (s == 3u16)) && (((b >> 4u16) & 1u16 == 1u16) == (s == 4u16)) && (((b
            >> 5u16) & 1u16 == 1u16) == (s == 5u16)) && (((b >> 6u16) & 1u16 == 1u16) == (s == 6u16))
            && (((b >> 7u16) & 1u16 == 1u16) == (s == 7u16)) && (((b >> 8u16) & 1u16 == 1u16) == (s
            == 8u16))) ==> b == 1u16 << s && b == 0u16 | (1u16 << s)) by (bit_vector);
    }

    /// A cell without candidates has count zero, and conversely.
    pub proof fn lemma_count_zero(self)
        ensures
            self.count() == 0 <==> forall|d: int| !(#[trigger] self.has(d)),
    {
        lemma_count_upto(self.0, 9);
        if self.count() == 0 {
            assert forall|d: int| !(#[trigger] self.has(d)) by {
                if 1 <= d <= 9 {
                    assert(!bits_has(self.0, d));
                }
            }
        } else {
            let d = choose|d: int| 1 <= d <= 9 && bits_has(self.0, d);
            assert(self.has(d));
        }
    }
}

pub(crate) proof fn lemma_bits_zero()
    ensures
        forall|d: int| !(#[trigger] bits_has(0u16, d)),
{
    assert forall|d: int| !(#[trigger] bits_has(0u16, d)) by {
        if 1 <= d <= 9 {
            let s = (d - 1) as u16;
            assert((0u16 >> s) & 1u16 == 0u16) by (bit_vector);
        }
    }
}

pub(crate) proof fn lemma_bits_or(b: u16, s: u16)
    requires
        s < 9,
    ensures
        forall|d: int| #[trigger] bits_has(b | (1u16 << s), d) <==> (bits_has(b, d) || d == s + 1),
{
    assert forall|d: int| #[trigger] bits_has(b | (1u16 << s), d) <==> (bits_has(b, d) || d == s + 1) by {
        if 1 <= d <= 9 {
            let t = (d - 1) as u16;
            assert(s < 9 && t < 9 ==> (((b | (1u16 << s)) >> t) & 1u16 == 1u16 <==> ((b >> t) & 1u16
                == 1u16 || s == t))) by (bit_vector);
        }
    }
}

proof fn lemma_bits_and_not(b: u16, s: u16)
    requires
        s < 9,
    ensures
        forall|d: int| #[trigger] bits_has(b & !(1u16 << s), d) <==> (bits_has(b, d) && d != s + 1),
{
    assert forall|d: int| #[trigger] bits_has(b & !(1u16 << s), d) <==> (bits_has(b, d) && d != s + 1) by {
        if 1 <= d <= 9 {
            let t = (d - 1) as u16;
            assert(s < 9 && t < 9 ==> (((b & !(1u16 << s)) >> t) & 1u16 == 1u16 <==> ((b >> t) & 1u16
                == 1u16 && s != t))) by (bit_vector);
        }
    }
}

proof fn lemma_bits_test(b: u16, s: u16)
    requires
        s < 9,
    ensures
        ((b & (1u16 << s)) > 0) == bits_has(b, s + 1),
{
    assert(s < 9 ==> (((b & (1u16 << s)) > 0) <==> ((b >> s) & 1u16 == 1u16))) by (bit_vector);
}

proof fn lemma_bits_disjoint(a: u16, b: u16)
    requires
        b < 512,
        forall|d: int| !(#[trigger] bits_has(a, d) && bits_has(b, d)),
    ensures
        a & !b == a,
{
    assert(!(bits_has(a, 1) && bits_has(b, 1)));
    assert(!(bits_has(a, 2) && bits_has(b, 2)));
    assert(!(bits_has(a, 3) && bits_has(b, 3)));
    assert(!(bits_has(a, 4) && bits_has(b, 4)));
    assert(!(bits_has(a, 5) && bits_has(b, 5)));
    assert(!(bits_has(a, 6) && bits_has(b, 6)));
    assert(!(bits_has(a, 7) && bits_has(b, 7)));
    assert(!(bits_has(a, 8) && bits_has(b, 8)));
    assert(!(bits_has(a, 9) && bits_has(b, 9)));
    assert((b < 512 && ((a >> 0u16) & 1u16 != 1u16 || (b >> 0u16) & 1u16 != 1u16) && ((a >> 1u16)
        & 1u16 != 1u16 || (b >> 1u16) & 1u16 != 1u16) && ((a >> 2u16) & 1u16 != 1u16 || (b >> 2u16)
        & 1u16 != 1u16) && ((a >> 3u16) & 1u16 != 1u16 || (b >> 3u16) & 1u16 != 1u16) && ((a
        >> 4u16) & 1u16 != 1u16 || (b >> 4u16) & 1u16 != 1u16) && ((a >> 5u16) & 1u16 != 1u16 || (b
        >> 5u16) & 1u16 != 1u16) && ((a >> 6u16) & 1u16 != 1u16 || (b >> 6u16) & 1u16 != 1u16) && ((a
        >> 7u16) & 1u16 != 1u16 || (b >> 7u16) & 1u16 != 1u16) && ((a >> 8u16) & 1u16 != 1u16 || (b
        >> 8u16) & 1u16 != 1u16)) ==> a & !b == a) by (bit_vector);
}

proof fn lemma_bits_diff(a: u16, b: u16)
    ensures
        forall|d: int| #[trigger] bits_has(a & !b, d) <==> (bits_has(a, d) && !bits_has(b, d)),
{
    assert forall|d: int| #[trigger] bits_has(a & !b, d) <==> (bits_has(a, d) && !bits_has(b, d)) by {
        if 1 <= d <= 9 {
            let t = (d - 1) as u16;
            assert(t < 9 ==> (((a & !b) >> t) & 1u16 == 1u16 <==> ((a >> t) & 1u16 == 1u16 && (b
                >> t) & 1u16 != 1u16))) by (bit_vector);
        }
    }
}

proof fn lemma_bits_all()
    ensures
        forall|d: int| #[trigger] bits_has(511u16, d) <==> 1 <= d <= 9,
{
    assert forall|d: int| #[trigger] bits_has(511u16, d) <==> 1 <= d <= 9 by {
        if 1 <= d <= 9 {
            let s = (d - 1) as u16;
            assert(s < 9 ==> (511u16 >> s) & 1u16 == 1u16) by (bit_vector);
        }
    }
}

} // verus!
