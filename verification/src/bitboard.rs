//! A set of board squares held in the 64 bits of one machine word.

use crate::common::squares::Square;
use crate::strings::chars_of;
use std::ops::{
    BitAnd, BitAndAssign, BitOr, BitOrAssign, BitXor, BitXorAssign, Not, Shl, Shr,
};
use vstd::prelude::*;
use vstd::std_specs::bits::{axiom_u64_trailing_zeros, u64_trailing_zeros};
use vstd::std_specs::convert::FromSpecImpl;
use vstd::std_specs::ops::{
    BitAndSpecImpl, BitOrSpecImpl, BitXorSpecImpl, NotSpecImpl, ShlSpecImpl, ShrSpecImpl,
};

verus! {

/// Whether bit `i` of the word `x` is one.
pub open spec fn bit(x: u64, i: int) -> bool {
    (x >> (i as u64)) & 1 == 1
}

/// The squares whose bit is one in `x`.
pub open spec fn members(x: u64) -> Set<int> {
    Set::new(|i: int| 0 <= i < 64 && bit(x, i))
}

/// All 64 squares of the board.
pub open spec fn board_squares() -> Set<int> {
    Set::new(|i: int| 0 <= i < 64)
}

/// The squares of `s` moved up by `d`, as far as they stay on the board.
pub open spec fn shifted(s: Set<int>, d: int) -> Set<int> {
    Set::new(|i: int| 0 <= i < 64 && s.contains(i - d))
}

/// The squares that are in exactly one of `a` and `b`.
pub open spec fn sym_diff(a: Set<int>, b: Set<int>) -> Set<int> {
    a.difference(b).union(b.difference(a))
}

/// Whether `m` is the least square of `s`.
pub open spec fn is_lowest(s: Set<int>, m: int) -> bool {
    s.contains(m) && forall|j: int| s.contains(j) ==> m <= j
}

/// The least square of `s`, where `s` has one.
pub open spec fn lowest(s: Set<int>) -> int {
    choose|m: int| is_lowest(s, m)
}

proof fn lemma_bit_and(a: u64, b: u64, i: u64)
    by (bit_vector)
    requires
        i < 64,
    ensures
        ((a & b) >> i) & 1 == 1 <==> ((a >> i) & 1 == 1 && (b >> i) & 1 == 1),
{
}

proof fn lemma_bit_or(a: u64, b: u64, i: u64)
    by (bit_vector)
    requires
        i < 64,
    ensures
        ((a | b) >> i) & 1 == 1 <==> ((a >> i) & 1 == 1 || (b >> i) & 1 == 1),
{
}

proof fn lemma_bit_xor(a: u64, b: u64, i: u64)
    by (bit_vector)
    requires
        i < 64,
    ensures
        ((a ^ b) >> i) & 1 == 1 <==> ((a >> i) & 1 == 1) != ((b >> i) & 1 == 1),
{
}

proof fn lemma_bit_not(a: u64, i: u64)
    by (bit_vector)
    requires
        i < 64,
    ensures
        ((!a) >> i) & 1 == 1 <==> !((a >> i) & 1 == 1),
{
}

proof fn lemma_bit_shl(a: u64, k: u64, i: u64)
    by (bit_vector)
    requires
        i < 64,
        k < 64,
    ensures
        ((a << k) >> i) & 1 == 1 <==> (i >= k && (a >> ((i - k) as u64)) & 1 == 1),
{
}

proof fn lemma_bit_shr(a: u64, k: u64, i: u64)
    by (bit_vector)
    requires
        i < 64,
        k < 64,
    ensures
        ((a >> k) >> i) & 1 == 1 <==> (i + k < 64 && (a >> ((i + k) as u64)) & 1 == 1),
{
}

proof fn lemma_bit_one(k: u64, i: u64)
    by (bit_vector)
    requires
        i < 64,
        k < 64,
    ensures
        ((1u64 << k) >> i) & 1 == 1 <==> i == k,
{
}

proof fn lemma_bit_zero(i: u64)
    by (bit_vector)
    requires
        i < 64,
    ensures
        (0u64 >> i) & 1 == 0,
{
}

proof fn lemma_bit_test(a: u64, i: u64)
    by (bit_vector)
    requires
        i < 64,
    ensures
        (a & (1u64 << i) != 0) <==> (a >> i) & 1 == 1,
{
}

proof fn lemma_bit_drop_lowest(a: u64, k: u64, i: u64)
    by (bit_vector)
    requires
        i < 64,
        k < 64,
        (a >> k) & 1 == 1,
        a << ((64 - k) as u64) == 0,
    ensures
        a != 0,
        ((a & ((a - 1) as u64)) >> i) & 1 == 1 <==> ((a >> i) & 1 == 1 && i != k),
        ((a & (((!a) + 1) as u64)) >> i) & 1 == 1 <==> i == k,
{
}

/// Intersection of words is intersection of their squares.
pub proof fn lemma_members_and(a: u64, b: u64)
    ensures
        members(a & b) == members(a).intersect(members(b)),
{
    assert forall|i: int| 0 <= i < 64 implies bit(a & b, i) == (bit(a, i) && bit(b, i)) by {
        lemma_bit_and(a, b, i as u64);
    }
    assert(members(a & b) =~= members(a).intersect(members(b)));
}

/// Union of words is union of their squares.
pub proof fn lemma_members_or(a: u64, b: u64)
    ensures
        members(a | b) == members(a).union(members(b)),
{
    assert forall|i: int| 0 <= i < 64 implies bit(a | b, i) == (bit(a, i) || bit(b, i)) by {
        lemma_bit_or(a, b, i as u64);
    }
    assert(members(a | b) =~= members(a).union(members(b)));
}

/// Exclusive or of words keeps the squares that are in exactly one of them.
pub proof fn lemma_members_xor(a: u64, b: u64)
    ensures
        members(a ^ b) == sym_diff(members(a), members(b)),
{
    assert forall|i: int| 0 <= i < 64 implies bit(a ^ b, i) == (bit(a, i) != bit(b, i)) by {
        lemma_bit_xor(a, b, i as u64);
    }
    assert(members(a ^ b) =~= sym_diff(members(a), members(b)));
}

/// The complement of a word holds the squares of the board that the word lacks.
pub proof fn lemma_members_not(a: u64)
    ensures
        members(!a) == board_squares().difference(members(a)),
{
    assert forall|i: int| 0 <= i < 64 implies bit(!a, i) == !bit(a, i) by {
        lemma_bit_not(a, i as u64);
    }
    assert(members(!a) =~= board_squares().difference(members(a)));
}

/// A left shift by `k` moves every square up by `k`; what leaves the board is lost.
pub proof fn lemma_members_shl(a: u64, k: u64)
    requires
        k < 64,
    ensures
        members(a << k) == shifted(members(a), k as int),
{
    assert forall|i: int| 0 <= i < 64 implies bit(a << k, i) == (i >= k && bit(a, i - k)) by {
        lemma_bit_shl(a, k, i as u64);
    }
    assert(members(a << k) =~= shifted(members(a), k as int));
}

/// A right shift by `k` moves every square down by `k`; what leaves the board is lost.
pub proof fn lemma_members_shr(a: u64, k: u64)
    requires
        k < 64,
    ensures
        members(a >> k) == shifted(members(a), -(k as int)),
{
    assert forall|i: int| 0 <= i < 64 implies bit(a >> k, i) == (i + k < 64 && bit(a, i + k)) by {
        lemma_bit_shr(a, k, i as u64);
    }
    assert(members(a >> k) =~= shifted(members(a), -(k as int)));
}

/// The word with only bit `k` set holds only square `k`.
pub proof fn lemma_members_one(k: u64)
    requires
        k < 64,
    ensures
        members(1u64 << k) == set![k as int],
{
    assert forall|i: int| 0 <= i < 64 implies bit(1u64 << k, i) == (i == k) by {
        lemma_bit_one(k, i as u64);
    }
    assert(members(1u64 << k) =~= set![k as int]);
}

/// The zero word holds no square.
pub proof fn lemma_members_zero()
    ensures
        members(0) == Set::<int>::empty(),
{
    assert forall|i: int| 0 <= i < 64 implies !bit(0, i) by {
        lemma_bit_zero(i as u64);
    }
    assert(members(0) =~= Set::<int>::empty());
}

/// A word other than zero has a least square: the number of its trailing zeros.
pub proof fn lemma_members_lowest(a: u64)
    requires
        a != 0,
    ensures
        is_lowest(members(a), u64_trailing_zeros(a) as int),
        lowest(members(a)) == u64_trailing_zeros(a),
        0 <= lowest(members(a)) < 64,
{
    axiom_u64_trailing_zeros(a);
    let k = u64_trailing_zeros(a) as u64;
    assert(bit(a, k as int));
    assert forall|j: int| members(a).contains(j) implies k <= j by {
        if j < k {
            assert((a >> (j as u64)) & 1u64 == 0u64);
        }
    }
    lemma_lowest_unique(members(a), k as int, lowest(members(a)));
}

/// A set has at most one least square.
pub proof fn lemma_lowest_unique(s: Set<int>, m: int, n: int)
    requires
        is_lowest(s, m),
    ensures
        is_lowest(s, lowest(s)),
        is_lowest(s, n) ==> n == m,
        lowest(s) == m,
{
}

/// Two words with the same squares are the same word.
pub proof fn lemma_members_injective(a: u64, b: u64)
    requires
        members(a) == members(b),
    ensures
        a == b,
{
    if a != b {
        let d: u64 = a ^ b;
        assert(d != 0) by (bit_vector)
            requires
                d == a ^ b,
                a != b,
        ;
        axiom_u64_trailing_zeros(d);
        let k = u64_trailing_zeros(d) as u64;
        assert(k < 64);
        lemma_bit_xor(a, b, k);
        assert(bit(a, k as int) != bit(b, k as int));
        assert(members(a).contains(k as int) == bit(a, k as int));
        assert(members(b).contains(k as int) == bit(b, k as int));
    }
}

/// The squares of a word are finitely many, and all on the board.
pub proof fn lemma_members_finite(a: u64)
    ensures
        members(a).subset_of(board_squares()),
        members(a).finite(),
        members(a).len() <= 64,
{
    vstd::set_lib::lemma_int_range(0, 64);
    assert(board_squares() =~= vstd::set_lib::set_int_range(0, 64));
    vstd::set_lib::lemma_len_subset(members(a), board_squares());
}

/// The position in a diagram, read from the eighth rank down and from file a to file h,
/// at which square `i` stands.
pub open spec fn scan_position(i: int) -> int {
    (7 - i / 8) * 8 + i % 8
}

/// What one character of a diagram of zeros and ones stands for, if anything.
pub open spec fn grid_cell(c: char) -> Option<bool> {
    if c == '0' {
        Some(false)
    } else if c == '1' {
        Some(true)
    } else {
        None
    }
}

/// The zeros and ones of a diagram, in the order in which they are written.
pub open spec fn grid_cells(text: Seq<char>) -> Seq<bool> {
    text.filter_map(|c: char| grid_cell(c))
}

/// The squares that a diagram of 64 cells marks.
pub open spec fn scanned(cells: Seq<bool>) -> Set<int> {
    Set::new(|i: int| 0 <= i < 64 && cells[scan_position(i)])
}

#[derive(Debug, Clone, Copy, PartialEq, Eq, PartialOrd, Ord, Hash, Structural)]
pub struct BitBoard(pub u64);

impl View for BitBoard {
    type V = Set<int>;

    open spec fn view(&self) -> Set<int> {
        members(self.0)
    }
}

impl BitBoard {
    /// Boards with the same squares are equal, and the squares of a board are finitely
    /// many squares of the board.
    pub proof fn lemma_view(self, other: BitBoard)
        ensures
            self@ == other@ ==> self == other,
            self@.finite(),
            self@.len() <= 64,
            forall|i: int| self@.contains(i) ==> 0 <= i < 64,
    {
        if self@ == other@ {
            lemma_members_injective(self.0, other.0);
        }
        lemma_members_finite(self.0);
    }

    /// The board without any square.
    pub fn empty() -> (result: BitBoard)
        ensures
            result.0 == 0,
            result@ == Set::<int>::empty(),
    {
        proof {
            lemma_members_zero();
        }
        BitBoard(0)
    }

    pub fn is_set(self, index: u8) -> (result: bool)
        requires
            index < 64,
        ensures
            result == self@.contains(index as int),
    {
        proof {
            lemma_bit_test(self.0, index as u64);
        }
        self.0 & (1u64 << index) != 0
    }

    pub fn set(&mut self, index: u8)
        requires
            index < 64,
        ensures
            final(self)@ == old(self)@.insert(index as int),
            final(self).0 == old(self).0 | (1u64 << index),
    {
        proof {
            lemma_members_or(self.0, 1u64 << index);
            lemma_members_one(index as u64);
            assert(self@.union(set![index as int]) =~= self@.insert(index as int));
        }
        self.0 = self.0 | (1u64 << index);
    }

    pub fn is_zero(self) -> (result: bool)
        ensures
            result == (self.0 == 0),
            result == (self@ == Set::<int>::empty()),
    {
        proof {
            lemma_members_zero();
            if self.0 != 0 {
                lemma_members_lowest(self.0);
            }
        }
        self.0 == 0
    }

    /// Whether every square of `other` is a square of this board.
    pub fn contains(self, other: BitBoard) -> (result: bool)
        ensures
            result == other@.subset_of(self@),
    {
        proof {
            lemma_members_and(self.0, other.0);
            if other@.subset_of(self@) {
                assert(self@.intersect(other@) =~= other@);
                lemma_members_injective(self.0 & other.0, other.0);
            }
        }
        self.0 & other.0 == other.0
    }

    /// The board that holds only the least square of this one; empty if this one is.
    pub fn get_ls1b(self) -> (result: BitBoard)
        ensures
            self@ == Set::<int>::empty() ==> result == self,
            self@ != Set::<int>::empty() ==> is_lowest(self@, lowest(self@)) && result@ == set![
                lowest(self@),
            ],
    {
        if self.0 == 0 {
            proof {
                lemma_members_zero();
            }
            self
        } else {
            let word: u64 = self.0;
            assert(!word < u64::MAX) by (bit_vector)
                requires
                    word != 0,
            ;
            let low: u64 = word & (!word + 1);
            proof {
                lemma_members_lowest(self.0);
                axiom_u64_trailing_zeros(self.0);
                let k = u64_trailing_zeros(self.0) as u64;
                assert forall|i: int| 0 <= i < 64 implies bit(low, i) == (i == k) by {
                    lemma_bit_drop_lowest(self.0, k, i as u64);
                }
                assert(members(low) =~= set![k as int]);
            }
            BitBoard(low)
        }
    }

    /// This board without its least square; empty if this one is.
    pub fn reset_ls1b(self) -> (result: BitBoard)
        ensures
            self@ == Set::<int>::empty() ==> result == self,
            self@ != Set::<int>::empty() ==> is_lowest(self@, lowest(self@)) && result@
                == self@.remove(lowest(self@)) && result@.len() == self@.len() - 1,
    {
        if self.0 == 0 {
            proof {
                lemma_members_zero();
            }
            self
        } else {
            let rest: u64 = self.0 & (self.0 - 1);
            proof {
                lemma_members_lowest(self.0);
                lemma_members_finite(self.0);
                axiom_u64_trailing_zeros(self.0);
                let k = u64_trailing_zeros(self.0) as u64;
                assert forall|i: int| 0 <= i < 64 implies bit(rest, i) == (bit(self.0, i) && i
                    != k) by {
                    lemma_bit_drop_lowest(self.0, k, i as u64);
                }
                assert(members(rest) =~= self@.remove(k as int));
            }
            BitBoard(rest)
        }
    }

    /// The least square of a board that is not empty.
    pub fn get_index(self) -> (result: Square)
        requires
            self@ != Set::<int>::empty(),
        ensures
            is_lowest(self@, result.index()),
            result.index() == lowest(self@),
    {
        proof {
            lemma_members_zero();
            lemma_members_lowest(self.0);
        }
        Square::from_index(self.0.trailing_zeros() as u8)
    }

    /// The board whose squares a diagram marks. The diagram has 64 cells, one for each
    /// square, written from the eighth rank down and from file a to file h.
    pub fn from_cells(cells: &[bool]) -> (result: BitBoard)
        requires
            cells@.len() == 64,
        ensures
            result@ == scanned(cells@),
    {
        let mut result = BitBoard::empty();
        let mut position: usize = 0;
        while position < 64
            invariant
                position <= 64,
                cells@.len() == 64,
                forall|i: int|
                    0 <= i < 64 ==> (result@.contains(i) <==> (scan_position(i) < position
                        && cells@[scan_position(i)])),
            decreases 64 - position,
        {
            if cells[position] {
                let index: u8 = ((7 - position / 8) * 8 + position % 8) as u8;
                assert(scan_position(index as int) == position);
                result.set(index);
            }
            position += 1;
        }
        proof {
            result.lemma_view(result);
            assert(result@ =~= scanned(cells@));
        }
        result
    }

    /// The board whose squares a diagram of zeros and ones marks. Every other character of
    /// the text (spaces, line breaks) is passed over; 64 zeros and ones must be left.
    pub fn from_grid(value: &str) -> (result: BitBoard)
        requires
            grid_cells(value@).len() == 64,
        ensures
            result@ == scanned(grid_cells(value@)),
    {
        let chars = chars_of(value);
        let ghost cell = |c: char| grid_cell(c);
        let mut cells: Vec<bool> = Vec::new();
        let mut i: usize = 0;
        while i < chars.len()
            invariant
                i <= chars.len(),
                cell == (|c: char| grid_cell(c)),
                cells@ == chars@.take(i as int).filter_map(cell),
            decreases chars.len() - i,
        {
            let c = chars[i];
            proof {
                chars@.lemma_filter_map_take_succ(cell, i as int);
            }
            if c == '0' {
                cells.push(false);
            } else if c == '1' {
                cells.push(true);
            }
            i += 1;
        }
        assert(chars@.take(chars.len() as int) == chars@);
        BitBoard::from_cells(cells.as_slice())
    }
}

impl From<u64> for BitBoard {
    fn from(v: u64) -> (result: BitBoard) {
        BitBoard(v)
    }
}

impl FromSpecImpl<u64> for BitBoard {
    open spec fn obeys_from_spec() -> bool {
        true
    }

    open spec fn from_spec(v: u64) -> BitBoard {
        BitBoard(v)
    }
}

impl From<Square> for BitBoard {
    fn from(value: Square) -> (result: BitBoard)
        ensures
            result@ == set![value.index()],
    {
        proof {
            lemma_members_one(value.index() as u64);
        }
        BitBoard(1u64 << value.get_index())
    }
}

impl FromSpecImpl<Square> for BitBoard {
    open spec fn obeys_from_spec() -> bool {
        true
    }

    open spec fn from_spec(value: Square) -> BitBoard {
        BitBoard(1u64 << (value.index() as u64))
    }
}

impl Not for BitBoard {
    type Output = BitBoard;

    fn not(self) -> (result: BitBoard)
        ensures
            result@ == board_squares().difference(self@),
    {
        proof {
            lemma_members_not(self.0);
        }
        BitBoard(!self.0)
    }
}

impl NotSpecImpl for BitBoard {
    open spec fn obeys_not_spec() -> bool {
        true
    }

    open spec fn not_req(self) -> bool {
        true
    }

    open spec fn not_spec(self) -> BitBoard {
        BitBoard(!self.0)
    }
}

impl BitAnd for BitBoard {
    type Output = BitBoard;

    fn bitand(self, rhs: BitBoard) -> (result: BitBoard)
        ensures
            result@ == self@.intersect(rhs@),
    {
        proof {
            lemma_members_and(self.0, rhs.0);
        }
        BitBoard(self.0 & rhs.0)
    }
}

impl BitAndSpecImpl for BitBoard {
    open spec fn obeys_bitand_spec() -> bool {
        true
    }

    open spec fn bitand_req(self, rhs: BitBoard) -> bool {
        true
    }

    open spec fn bitand_spec(self, rhs: BitBoard) -> BitBoard {
        BitBoard(self.0 & rhs.0)
    }
}

impl BitOr for BitBoard {
    type Output = BitBoard;

    fn bitor(self, rhs: BitBoard) -> (result: BitBoard)
        ensures
            result@ == self@.union(rhs@),
    {
        proof {
            lemma_members_or(self.0, rhs.0);
        }
        BitBoard(self.0 | rhs.0)
    }
}

impl BitOrSpecImpl for BitBoard {
    open spec fn obeys_bitor_spec() -> bool {
        true
    }

    open spec fn bitor_req(self, rhs: BitBoard) -> bool {
        true
    }

    open spec fn bitor_spec(self, rhs: BitBoard) -> BitBoard {
        BitBoard(self.0 | rhs.0)
    }
}

impl BitXor for BitBoard {
    type Output = BitBoard;

    fn bitxor(self, rhs: BitBoard) -> (result: BitBoard)
        ensures
            result@ == sym_diff(self@, rhs@),
    {
        proof {
            lemma_members_xor(self.0, rhs.0);
        }
        BitBoard(self.0 ^ rhs.0)
    }
}

impl BitXorSpecImpl for BitBoard {
    open spec fn obeys_bitxor_spec() -> bool {
        true
    }

    open spec fn bitxor_req(self, rhs: BitBoard) -> bool {
        true
    }

    open spec fn bitxor_spec(self, rhs: BitBoard) -> BitBoard {
        BitBoard(self.0 ^ rhs.0)
    }
}

impl Shl<usize> for BitBoard {
    type Output = BitBoard;

    fn shl(self, rhs: usize) -> (result: BitBoard)
        ensures
            result@ == shifted(self@, rhs as int),
    {
        proof {
            lemma_members_shl(self.0, rhs as u64);
        }
        BitBoard(self.0 << rhs)
    }
}

impl ShlSpecImpl<usize> for BitBoard {
    open spec fn obeys_shl_spec() -> bool {
        true
    }

    open spec fn shl_req(self, rhs: usize) -> bool {
        rhs < 64
    }

    open spec fn shl_spec(self, rhs: usize) -> BitBoard {
        BitBoard(self.0 << rhs)
    }
}

impl Shr<usize> for BitBoard {
    type Output = BitBoard;

    fn shr(self, rhs: usize) -> (result: BitBoard)
        ensures
            result@ == shifted(self@, -rhs as int),
    {
        proof {
            lemma_members_shr(self.0, rhs as u64);
        }
        BitBoard(self.0 >> rhs)
    }
}

impl ShrSpecImpl<usize> for BitBoard {
    open spec fn obeys_shr_spec() -> bool {
        true
    }

    open spec fn shr_req(self, rhs: usize) -> bool {
        rhs < 64
    }

    open spec fn shr_spec(self, rhs: usize) -> BitBoard {
        BitBoard(self.0 >> rhs)
    }
}

impl BitAndAssign for BitBoard {
    fn bitand_assign(&mut self, rhs: BitBoard)
        ensures
            final(self).0 == old(self).0 & rhs.0,
            final(self)@ == old(self)@.intersect(rhs@),
    {
        proof {
            lemma_members_and(self.0, rhs.0);
        }
        self.0 = self.0 & rhs.0;
    }
}

impl BitOrAssign for BitBoard {
    fn bitor_assign(&mut self, rhs: BitBoard)
        ensures
            final(self).0 == old(self).0 | rhs.0,
            final(self)@ == old(self)@.union(rhs@),
    {
        proof {
            lemma_members_or(self.0, rhs.0);
        }
        self.0 = self.0 | rhs.0;
    }
}

impl BitXorAssign for BitBoard {
    fn bitxor_assign(&mut self, rhs: BitBoard)
        ensures
            final(self).0 == old(self).0 ^ rhs.0,
            final(self)@ == sym_diff(old(self)@, rhs@),
    {
        proof {
            lemma_members_xor(self.0, rhs.0);
        }
        self.0 = self.0 ^ rhs.0;
    }
}

} // verus!
