//! Where each kind of piece can go from a square, before the squares that the mover's own
//! pieces hold are taken out.

use crate::bitboard::{members, shifted, BitBoard};
use crate::common::squares::Square;
use std::ops::Not;
use vstd::prelude::*;

verus! {

/// Every square but those of file a.
pub const NOT_A_FILE: u64 = 0xfefe_fefe_fefe_fefe;

/// Every square but those of file h.
pub const NOT_H_FILE: u64 = 0x7f7f_7f7f_7f7f_7f7f;

/// Every square but those of files a and b.
pub const NOT_AB_FILE: u64 = 0xfcfc_fcfc_fcfc_fcfc;

/// Every square but those of files g and h.
pub const NOT_GH_FILE: u64 = 0x3f3f_3f3f_3f3f_3f3f;

/// The squares of the second rank, where white pawns start.
pub const RANK_2: u64 = 0x0000_0000_0000_ff00;

/// The squares of the seventh rank, where black pawns start.
pub const RANK_7: u64 = 0x00ff_0000_0000_0000;

pub open spec fn on_board(s: int) -> bool {
    0 <= s < 64
}

/// The file of square `s`, from 0 for file a to 7 for file h.
pub open spec fn file_of(s: int) -> int {
    s % 8
}

/// The rank of square `s`, from 0 for the first rank to 7 for the eighth.
pub open spec fn rank_of(s: int) -> int {
    s / 8
}

pub open spec fn distance(a: int, b: int) -> int {
    if a >= b {
        a - b
    } else {
        b - a
    }
}

/// A king goes one square in any of the eight directions.
pub open spec fn king_step(s: int, t: int) -> bool {
    &&& on_board(t)
    &&& t != s
    &&& distance(file_of(s), file_of(t)) <= 1
    &&& distance(rank_of(s), rank_of(t)) <= 1
}

/// A knight goes two squares along a file or rank and one square aside.
pub open spec fn knight_jump(s: int, t: int) -> bool {
    &&& on_board(t)
    &&& {
        ||| distance(file_of(s), file_of(t)) == 1 && distance(rank_of(s), rank_of(t)) == 2
        ||| distance(file_of(s), file_of(t)) == 2 && distance(rank_of(s), rank_of(t)) == 1
    }
}

/// A pawn that goes up the board by `forward` ranks a move (1 for white, -1 for black) and
/// starts on rank `home`: one square ahead if that is empty, two from its home rank if both
/// are empty, and one square ahead on an adjacent file onto a piece of the opponent.
pub open spec fn pawn_reach(
    s: int,
    t: int,
    occupied: Set<int>,
    opposite: Set<int>,
    forward: int,
    home: int,
) -> bool {
    &&& on_board(t)
    &&& {
        ||| file_of(t) == file_of(s) && rank_of(t) == rank_of(s) + forward && !occupied.contains(t)
        ||| file_of(t) == file_of(s) && rank_of(s) == home && rank_of(t) == home + 2 * forward
            && !occupied.contains(s + 8 * forward) && !occupied.contains(t)
        ||| distance(file_of(s), file_of(t)) == 1 && rank_of(t) == rank_of(s) + forward
            && opposite.contains(t)
    }
}

/// Whether a piece that slides from `s` by `df` files and `dr` ranks a step comes to `t`
/// within `n` steps: it stops on the first occupied square, which it reaches, and at the
/// edge of the board.
pub open spec fn ray_reach(occupied: Set<int>, s: int, t: int, df: int, dr: int, n: nat) -> bool
    decreases n,
{
    let file = file_of(s) + df;
    let rank = rank_of(s) + dr;
    let next = rank * 8 + file;
    &&& n > 0
    &&& 0 <= file < 8
    &&& 0 <= rank < 8
    &&& (t == next || (!occupied.contains(next) && ray_reach(
        occupied,
        next,
        t,
        df,
        dr,
        (n - 1) as nat,
    )))
}

pub open spec fn king_targets(s: int) -> Set<int> {
    Set::new(|t: int| king_step(s, t))
}

pub open spec fn knight_targets(s: int) -> Set<int> {
    Set::new(|t: int| knight_jump(s, t))
}

pub open spec fn white_pawn_targets(s: int, occupied: Set<int>, opposite: Set<int>) -> Set<int> {
    Set::new(|t: int| pawn_reach(s, t, occupied, opposite, 1, 1))
}

pub open spec fn black_pawn_targets(s: int, occupied: Set<int>, opposite: Set<int>) -> Set<int> {
    Set::new(|t: int| pawn_reach(s, t, occupied, opposite, -1, 6))
}

/// The squares along one direction from `s`, up to and with the first occupied one.
pub open spec fn ray_targets(occupied: Set<int>, s: int, df: int, dr: int) -> Set<int> {
    Set::new(|t: int| ray_reach(occupied, s, t, df, dr, 7))
}

pub open spec fn bishop_targets(s: int, occupied: Set<int>) -> Set<int> {
    ray_targets(occupied, s, 1, 1).union(ray_targets(occupied, s, -1, 1)).union(
        ray_targets(occupied, s, 1, -1),
    ).union(ray_targets(occupied, s, -1, -1))
}

pub open spec fn rook_targets(s: int, occupied: Set<int>) -> Set<int> {
    ray_targets(occupied, s, 0, 1).union(ray_targets(occupied, s, 1, 0)).union(
        ray_targets(occupied, s, 0, -1),
    ).union(ray_targets(occupied, s, -1, 0))
}

pub open spec fn queen_targets(s: int, occupied: Set<int>) -> Set<int> {
    bishop_targets(s, occupied).union(rook_targets(s, occupied))
}

proof fn lemma_file_masks(i: u64)
    by (bit_vector)
    requires
        i < 64,
    ensures
        (NOT_A_FILE >> i) & 1 == 1 <==> i % 8 != 0,
        (NOT_H_FILE >> i) & 1 == 1 <==> i % 8 != 7,
        (NOT_AB_FILE >> i) & 1 == 1 <==> i % 8 > 1,
        (NOT_GH_FILE >> i) & 1 == 1 <==> i % 8 < 6,
        (RANK_2 >> i) & 1 == 1 <==> (8 <= i && i < 16),
        (RANK_7 >> i) & 1 == 1 <==> (48 <= i && i < 56),
{
}

/// The squares that each mask of files or ranks holds.
pub proof fn lemma_masks()
    ensures
        members(NOT_A_FILE) == Set::new(|i: int| on_board(i) && file_of(i) != 0),
        members(NOT_H_FILE) == Set::new(|i: int| on_board(i) && file_of(i) != 7),
        members(NOT_AB_FILE) == Set::new(|i: int| on_board(i) && file_of(i) > 1),
        members(NOT_GH_FILE) == Set::new(|i: int| on_board(i) && file_of(i) < 6),
        members(RANK_2) == Set::new(|i: int| on_board(i) && rank_of(i) == 1),
        members(RANK_7) == Set::new(|i: int| on_board(i) && rank_of(i) == 6),
{
    assert forall|i: int| 0 <= i < 64 implies {
        &&& members(NOT_A_FILE).contains(i) == (file_of(i) != 0)
        &&& members(NOT_H_FILE).contains(i) == (file_of(i) != 7)
        &&& members(NOT_AB_FILE).contains(i) == (file_of(i) > 1)
        &&& members(NOT_GH_FILE).contains(i) == (file_of(i) < 6)
        &&& members(RANK_2).contains(i) == (rank_of(i) == 1)
        &&& members(RANK_7).contains(i) == (rank_of(i) == 6)
    } by {
        lemma_file_masks(i as u64);
    }
    assert(members(NOT_A_FILE) =~= Set::new(|i: int| on_board(i) && file_of(i) != 0));
    assert(members(NOT_H_FILE) =~= Set::new(|i: int| on_board(i) && file_of(i) != 7));
    assert(members(NOT_AB_FILE) =~= Set::new(|i: int| on_board(i) && file_of(i) > 1));
    assert(members(NOT_GH_FILE) =~= Set::new(|i: int| on_board(i) && file_of(i) < 6));
    assert(members(RANK_2) =~= Set::new(|i: int| on_board(i) && rank_of(i) == 1));
    assert(members(RANK_7) =~= Set::new(|i: int| on_board(i) && rank_of(i) == 6));
}

/// The square `df` files and `dr` ranks away from `s`, if the board has one.
pub open spec fn hop(s: int, df: int, dr: int) -> Set<int> {
    if 0 <= file_of(s) + df < 8 && 0 <= rank_of(s) + dr < 8 {
        set![s + 8 * dr + df]
    } else {
        Set::empty()
    }
}

/// A hop lands on the square whose file and rank differ from those of `s` by `df` and `dr`.
pub proof fn lemma_hop_lands(s: int, t: int, df: int, dr: int)
    requires
        on_board(s),
        -2 <= df <= 2,
        -2 <= dr <= 2,
    ensures
        hop(s, df, dr).contains(t) <==> (on_board(t) && file_of(t) - file_of(s) == df && rank_of(t)
            - rank_of(s) == dr),
{
}

proof fn lemma_hop(s: int, masked: Set<int>, d: int, df: int, dr: int)
    requires
        on_board(s),
        -2 <= df <= 2,
        -2 <= dr <= 2,
        d == 8 * dr + df,
        masked == (if 0 <= file_of(s) + df < 8 {
            set![s]
        } else {
            Set::empty()
        }),
    ensures
        shifted(masked, d) == hop(s, df, dr),
{
    assert(shifted(masked, d) =~= hop(s, df, dr));
}

proof fn lemma_masked(s: int, source: Set<int>)
    requires
        on_board(s),
        source == set![s],
    ensures
        source.intersect(members(NOT_A_FILE)) == (if 0 <= file_of(s) - 1 < 8 {
            set![s]
        } else {
            Set::empty()
        }),
        source.intersect(members(NOT_H_FILE)) == (if 0 <= file_of(s) + 1 < 8 {
            set![s]
        } else {
            Set::empty()
        }),
        source.intersect(members(NOT_AB_FILE)) == (if 0 <= file_of(s) - 2 < 8 {
            set![s]
        } else {
            Set::empty()
        }),
        source.intersect(members(NOT_GH_FILE)) == (if 0 <= file_of(s) + 2 < 8 {
            set![s]
        } else {
            Set::empty()
        }),
{
    lemma_masks();
    assert(source.intersect(members(NOT_A_FILE)) =~= (if 0 <= file_of(s) - 1 < 8 {
        set![s]
    } else {
        Set::empty()
    }));
    assert(source.intersect(members(NOT_H_FILE)) =~= (if 0 <= file_of(s) + 1 < 8 {
        set![s]
    } else {
        Set::empty()
    }));
    assert(source.intersect(members(NOT_AB_FILE)) =~= (if 0 <= file_of(s) - 2 < 8 {
        set![s]
    } else {
        Set::empty()
    }));
    assert(source.intersect(members(NOT_GH_FILE)) =~= (if 0 <= file_of(s) + 2 < 8 {
        set![s]
    } else {
        Set::empty()
    }));
}

/// A king's steps are the eight hops to the squares around it.
pub proof fn lemma_king_hops(s: int)
    requires
        on_board(s),
    ensures
        king_targets(s) == hop(s, 0, 1).union(hop(s, 0, -1)).union(hop(s, 1, 0)).union(hop(s, 1, 1)).union(hop(s, 1, -1)).union(hop(s, -1, 0)).union(hop(s, -1, -1)).union(hop(s, -1, 1)),
{
    assert forall|t: int| king_targets(s).contains(t) == (hop(s, 0, 1).union(hop(s, 0, -1)).union(hop(s, 1, 0)).union(hop(s, 1, 1)).union(hop(s, 1, -1)).union(hop(s, -1, 0)).union(hop(s, -1, -1)).union(hop(s, -1, 1))).contains(t) by {
        lemma_hop_lands(s, t, 0, 1);
        lemma_hop_lands(s, t, 0, -1);
        lemma_hop_lands(s, t, 1, 0);
        lemma_hop_lands(s, t, 1, 1);
        lemma_hop_lands(s, t, 1, -1);
        lemma_hop_lands(s, t, -1, 0);
        lemma_hop_lands(s, t, -1, -1);
        lemma_hop_lands(s, t, -1, 1);
    }
    assert(king_targets(s) =~= hop(s, 0, 1).union(hop(s, 0, -1)).union(hop(s, 1, 0)).union(hop(s, 1, 1)).union(hop(s, 1, -1)).union(hop(s, -1, 0)).union(hop(s, -1, -1)).union(hop(s, -1, 1)));
}

/// A knight's jumps are the eight hops of two squares one way and one square aside.
pub proof fn lemma_knight_hops(s: int)
    requires
        on_board(s),
    ensures
        knight_targets(s) == hop(s, 1, 2).union(hop(s, 2, 1)).union(hop(s, 2, -1)).union(hop(s, 1, -2)).union(hop(s, -1, 2)).union(hop(s, -2, 1)).union(hop(s, -2, -1)).union(hop(s, -1, -2)),
{
    assert forall|t: int| knight_targets(s).contains(t) == (hop(s, 1, 2).union(hop(s, 2, 1)).union(hop(s, 2, -1)).union(hop(s, 1, -2)).union(hop(s, -1, 2)).union(hop(s, -2, 1)).union(hop(s, -2, -1)).union(hop(s, -1, -2))).contains(t) by {
        lemma_hop_lands(s, t, 1, 2);
        lemma_hop_lands(s, t, 2, 1);
        lemma_hop_lands(s, t, 2, -1);
        lemma_hop_lands(s, t, 1, -2);
        lemma_hop_lands(s, t, -1, 2);
        lemma_hop_lands(s, t, -2, 1);
        lemma_hop_lands(s, t, -2, -1);
        lemma_hop_lands(s, t, -1, -2);
    }
    assert(knight_targets(s) =~= hop(s, 1, 2).union(hop(s, 2, 1)).union(hop(s, 2, -1)).union(hop(s, 1, -2)).union(hop(s, -1, 2)).union(hop(s, -2, 1)).union(hop(s, -2, -1)).union(hop(s, -1, -2)));
}

/// The squares that a king on `from` can step to.
pub fn king_moves(from: Square) -> (targets: BitBoard)
    ensures
        targets@ == king_targets(from.index()),
{
    let king: BitBoard = BitBoard::from(from);
    let not_a = king & BitBoard(NOT_A_FILE);
    let not_h = king & BitBoard(NOT_H_FILE);
    let targets = (king << 8) | (king >> 8) | (not_h << 1) | (not_h << 9) | (not_h >> 7) | (not_a >> 1) | (not_a >> 9) | (not_a << 7);
    proof {
        let s = from.index();
        from.lemma_index_range();
        lemma_masked(s, king@);
        lemma_hop(s, king@, 8, 0, 1);
        lemma_hop(s, king@, -8, 0, -1);
        lemma_hop(s, not_h@, 1, 1, 0);
        lemma_hop(s, not_h@, 9, 1, 1);
        lemma_hop(s, not_h@, -7, 1, -1);
        lemma_hop(s, not_a@, -1, -1, 0);
        lemma_hop(s, not_a@, -9, -1, -1);
        lemma_hop(s, not_a@, 7, -1, 1);
        lemma_king_hops(s);
    }
    targets
}

/// The squares that a knight on `from` can jump to.
pub fn knight_moves(from: Square) -> (targets: BitBoard)
    ensures
        targets@ == knight_targets(from.index()),
{
    let knight: BitBoard = BitBoard::from(from);
    let not_a = knight & BitBoard(NOT_A_FILE);
    let not_h = knight & BitBoard(NOT_H_FILE);
    let not_ab = knight & BitBoard(NOT_AB_FILE);
    let not_gh = knight & BitBoard(NOT_GH_FILE);
    let targets = (not_h << 17) | (not_gh << 10) | (not_gh >> 6) | (not_h >> 15) | (not_a << 15) | (not_ab << 6) | (not_ab >> 10) | (not_a >> 17);
    proof {
        let s = from.index();
        from.lemma_index_range();
        lemma_masked(s, knight@);
        lemma_hop(s, not_h@, 17, 1, 2);
        lemma_hop(s, not_gh@, 10, 2, 1);
        lemma_hop(s, not_gh@, -6, 2, -1);
        lemma_hop(s, not_h@, -15, 1, -2);
        lemma_hop(s, not_a@, 15, -1, 2);
        lemma_hop(s, not_ab@, 6, -2, 1);
        lemma_hop(s, not_ab@, -10, -2, -1);
        lemma_hop(s, not_a@, -17, -1, -2);
        lemma_knight_hops(s);
    }
    targets
}

/// The squares a pawn can go to, as hops: one ahead, two ahead from home, and the two
/// diagonals ahead.
pub open spec fn pawn_hops(
    s: int,
    occupied: Set<int>,
    opposite: Set<int>,
    forward: int,
    home: int,
) -> Set<int> {
    let single = hop(s, 0, forward).difference(occupied);
    let double = if rank_of(s) == home && !occupied.contains(s + 8 * forward) {
        hop(s, 0, 2 * forward).difference(occupied)
    } else {
        Set::empty()
    };
    let attacks = hop(s, -1, forward).union(hop(s, 1, forward)).intersect(opposite);
    single.union(double).union(attacks)
}

proof fn lemma_pawn_hops(s: int, occupied: Set<int>, opposite: Set<int>, forward: int, home: int)
    requires
        on_board(s),
        (forward == 1 && home == 1) || (forward == -1 && home == 6),
    ensures
        Set::new(|t: int| pawn_reach(s, t, occupied, opposite, forward, home)) == pawn_hops(
            s,
            occupied,
            opposite,
            forward,
            home,
        ),
{
    assert forall|t: int|
        pawn_reach(s, t, occupied, opposite, forward, home) == pawn_hops(
            s,
            occupied,
            opposite,
            forward,
            home,
        ).contains(t) by {
        lemma_hop_lands(s, t, 0, forward);
        lemma_hop_lands(s, t, 0, 2 * forward);
        lemma_hop_lands(s, t, -1, forward);
        lemma_hop_lands(s, t, 1, forward);
    }
    assert(Set::new(|t: int| pawn_reach(s, t, occupied, opposite, forward, home)) =~= pawn_hops(
        s,
        occupied,
        opposite,
        forward,
        home,
    ));
}

proof fn lemma_home(s: int, source: Set<int>)
    requires
        on_board(s),
        source == set![s],
    ensures
        source.intersect(members(RANK_2)) == (if rank_of(s) == 1 {
            set![s]
        } else {
            Set::empty()
        }),
        source.intersect(members(RANK_7)) == (if rank_of(s) == 6 {
            set![s]
        } else {
            Set::empty()
        }),
{
    lemma_masks();
    assert(source.intersect(members(RANK_2)) =~= (if rank_of(s) == 1 {
        set![s]
    } else {
        Set::empty()
    }));
    assert(source.intersect(members(RANK_7)) =~= (if rank_of(s) == 6 {
        set![s]
    } else {
        Set::empty()
    }));
}

/// The squares that a white pawn on `from` can go to: pushes onto squares that `occupied`
/// leaves free, captures onto squares of `opposite`.
pub fn white_pawn_moves(from: Square, occupied: BitBoard, opposite: BitBoard) -> (targets:
    BitBoard)
    ensures
        targets@ == white_pawn_targets(from.index(), occupied@, opposite@),
{
    let pawn: BitBoard = BitBoard::from(from);
    let free = occupied.not();
    let single = (pawn << 8) & free;
    let middle = ((pawn & BitBoard(RANK_2)) << 8) & free;
    let double = (middle << 8) & free;
    let not_a = pawn & BitBoard(NOT_A_FILE);
    let not_h = pawn & BitBoard(NOT_H_FILE);
    let attacks = ((not_a << 7) | (not_h << 9)) & opposite;
    let targets = single | double | attacks;
    proof {
        let s = from.index();
        from.lemma_index_range();
        lemma_masked(s, pawn@);
        lemma_home(s, pawn@);
        lemma_hop(s, pawn@, 8, 0, 1);
        lemma_hop(s, not_a@, 7, -1, 1);
        lemma_hop(s, not_h@, 9, 1, 1);
        assert(single@ =~= hop(s, 0, 1).difference(occupied@));
        assert(attacks@ =~= hop(s, -1, 1).union(hop(s, 1, 1)).intersect(opposite@));
        assert(double@ =~= (if rank_of(s) == 1 && !occupied@.contains(s + 8) {
            hop(s, 0, 2).difference(occupied@)
        } else {
            Set::empty()
        }));
        lemma_pawn_hops(s, occupied@, opposite@, 1, 1);
    }
    targets
}

/// The squares that a black pawn on `from` can go to: pushes onto squares that `occupied`
/// leaves free, captures onto squares of `opposite`.
pub fn black_pawn_moves(from: Square, occupied: BitBoard, opposite: BitBoard) -> (targets:
    BitBoard)
    ensures
        targets@ == black_pawn_targets(from.index(), occupied@, opposite@),
{
    let pawn: BitBoard = BitBoard::from(from);
    let free = occupied.not();
    let single = (pawn >> 8) & free;
    let middle = ((pawn & BitBoard(RANK_7)) >> 8) & free;
    let double = (middle >> 8) & free;
    let not_a = pawn & BitBoard(NOT_A_FILE);
    let not_h = pawn & BitBoard(NOT_H_FILE);
    let attacks = ((not_a >> 9) | (not_h >> 7)) & opposite;
    let targets = single | double | attacks;
    proof {
        let s = from.index();
        from.lemma_index_range();
        lemma_masked(s, pawn@);
        lemma_home(s, pawn@);
        lemma_hop(s, pawn@, -8, 0, -1);
        lemma_hop(s, not_a@, -9, -1, -1);
        lemma_hop(s, not_h@, -7, 1, -1);
        assert(single@ =~= hop(s, 0, -1).difference(occupied@));
        assert(attacks@ =~= hop(s, -1, -1).union(hop(s, 1, -1)).intersect(opposite@));
        assert(double@ =~= (if rank_of(s) == 6 && !occupied@.contains(s - 8) {
            hop(s, 0, -2).difference(occupied@)
        } else {
            Set::empty()
        }));
        lemma_pawn_hops(s, occupied@, opposite@, -1, 6);
    }
    targets
}

/// The squares along one direction from `from`, up to and with the first one that
/// `occupied` holds. A step goes `df` files and `dr` ranks further.
pub fn ray_moves(from: Square, occupied: BitBoard, df: i8, dr: i8) -> (targets: BitBoard)
    ensures
        targets@ == ray_targets(occupied@, from.index(), df as int, dr as int),
{
    let index: u8 = from.get_index();
    let mut file: i16 = (index % 8) as i16 + df as i16;
    let mut rank: i16 = (index / 8) as i16 + dr as i16;
    let mut steps: u8 = 0;
    let mut blocked = false;
    let mut targets = BitBoard::empty();
    let ghost here: int = from.index();
    while steps < 7 && !blocked && 0 <= file && file < 8 && 0 <= rank && rank < 8
        invariant
            steps <= 7,
            on_board(here),
            file == file_of(here) + df,
            rank == rank_of(here) + dr,
            forall|t: int|
                #[trigger] ray_reach(occupied@, from.index(), t, df as int, dr as int, 7) <==> (
                targets@.contains(t) || (!blocked && ray_reach(
                    occupied@,
                    here,
                    t,
                    df as int,
                    dr as int,
                    (7 - steps) as nat,
                ))),
        decreases 7 - steps,
    {
        let next: u8 = (rank * 8 + file) as u8;
        let ghost before = targets@;
        targets.set(next);
        blocked = occupied.is_set(next);
        proof {
            assert forall|t: int|
                ray_reach(occupied@, from.index(), t, df as int, dr as int, 7) <==> (
                targets@.contains(t) || (!blocked && ray_reach(
                    occupied@,
                    next as int,
                    t,
                    df as int,
                    dr as int,
                    (7 - steps - 1) as nat,
                ))) by {
                assert(ray_reach(occupied@, here, t, df as int, dr as int, (7 - steps) as nat) == (t
                    == next || (!occupied@.contains(next as int) && ray_reach(
                    occupied@,
                    next as int,
                    t,
                    df as int,
                    dr as int,
                    (7 - steps - 1) as nat,
                ))));
                assert(targets@.contains(t) == (before.contains(t) || t == next));
            }
            here = next as int;
        }
        file = file + df as i16;
        rank = rank + dr as i16;
        steps = steps + 1;
    }
    proof {
        assert(targets@ =~= ray_targets(occupied@, from.index(), df as int, dr as int));
    }
    targets
}

/// The squares that a bishop on `from` can go to: along the four diagonals.
pub fn bishop_moves(from: Square, occupied: BitBoard) -> (targets: BitBoard)
    ensures
        targets@ == bishop_targets(from.index(), occupied@),
{
    ray_moves(from, occupied, 1, 1) | ray_moves(from, occupied, -1, 1) | ray_moves(
        from,
        occupied,
        1,
        -1,
    ) | ray_moves(from, occupied, -1, -1)
}

/// The squares that a rook on `from` can go to: along its file and its rank.
pub fn rook_moves(from: Square, occupied: BitBoard) -> (targets: BitBoard)
    ensures
        targets@ == rook_targets(from.index(), occupied@),
{
    ray_moves(from, occupied, 0, 1) | ray_moves(from, occupied, 1, 0) | ray_moves(
        from,
        occupied,
        0,
        -1,
    ) | ray_moves(from, occupied, -1, 0)
}

/// The squares that a queen on `from` can go to: those of a bishop and those of a rook.
pub fn queen_moves(from: Square, occupied: BitBoard) -> (targets: BitBoard)
    ensures
        targets@ == queen_targets(from.index(), occupied@),
{
    bishop_moves(from, occupied) | rook_moves(from, occupied)
}

/// The square of file `file` and rank `rank` has that file and that rank.
pub proof fn lemma_square_of(file: int, rank: int)
    requires
        0 <= file < 8,
        0 <= rank < 8,
    ensures
        on_board(rank * 8 + file),
        file_of(rank * 8 + file) == file,
        rank_of(rank * 8 + file) == rank,
{
}

/// `k` steps of `d` files or ranks each, for a `d` of -1, 0 or 1.
pub open spec fn stride(k: int, d: int) -> int {
    if d == 1 {
        k
    } else if d == -1 {
        -k
    } else {
        0
    }
}

/// A square that a ray reaches lies a whole number of steps along the ray's direction,
/// counted in files and ranks: the ray never leaves the board on one side to come back
/// on the other. The number of steps is returned.
pub proof fn lemma_ray_is_straight(occupied: Set<int>, s: int, t: int, df: int, dr: int, n: nat)
    -> (k: int)
    requires
        on_board(s),
        -1 <= df <= 1,
        -1 <= dr <= 1,
        ray_reach(occupied, s, t, df, dr, n),
    ensures
        1 <= k <= n,
        on_board(t),
        file_of(t) == file_of(s) + stride(k, df),
        rank_of(t) == rank_of(s) + stride(k, dr),
    decreases n,
{
    let next = (rank_of(s) + dr) * 8 + file_of(s) + df;
    lemma_square_of(file_of(s) + df, rank_of(s) + dr);
    if t == next {
        1
    } else {
        let k = lemma_ray_is_straight(occupied, next, t, df, dr, (n - 1) as nat);
        k + 1
    }
}

/// No piece wraps round the edge of the board. Whatever stands where, a destination that a
/// generator reports from a square `s` of the board is on the board and lies where the
/// piece's move takes it in files and ranks: next to `s` for a king, an L away for a
/// knight, one or two ranks ahead on the same file or one rank ahead on a neighbouring
/// file for a pawn, on a diagonal for a bishop, on the file or rank of `s` for a rook,
/// and on one of these for a queen.
pub proof fn lemma_no_wraparound(s: int, t: int, occupied: Set<int>, opposite: Set<int>)
    requires
        on_board(s),
    ensures
        king_targets(s).contains(t) ==> on_board(t) && distance(file_of(s), file_of(t)) <= 1
            && distance(rank_of(s), rank_of(t)) <= 1,
        knight_targets(s).contains(t) ==> on_board(t) && distance(file_of(s), file_of(t)) <= 2
            && distance(file_of(s), file_of(t)) + distance(rank_of(s), rank_of(t)) == 3,
        white_pawn_targets(s, occupied, opposite).contains(t) ==> on_board(t) && distance(
            file_of(s),
            file_of(t),
        ) <= 1 && rank_of(s) < rank_of(t) <= rank_of(s) + 2,
        black_pawn_targets(s, occupied, opposite).contains(t) ==> on_board(t) && distance(
            file_of(s),
            file_of(t),
        ) <= 1 && rank_of(s) - 2 <= rank_of(t) < rank_of(s),
        bishop_targets(s, occupied).contains(t) ==> on_board(t) && t != s && distance(
            file_of(s),
            file_of(t),
        ) == distance(rank_of(s), rank_of(t)),
        rook_targets(s, occupied).contains(t) ==> on_board(t) && t != s && (file_of(s) == file_of(t)
            || rank_of(s) == rank_of(t)),
        queen_targets(s, occupied).contains(t) ==> on_board(t) && t != s && (file_of(s) == file_of(
            t,
        ) || rank_of(s) == rank_of(t) || distance(file_of(s), file_of(t)) == distance(
            rank_of(s),
            rank_of(t),
        )),
{
    if bishop_targets(s, occupied).contains(t) {
        if ray_reach(occupied, s, t, 1, 1, 7) {
            lemma_ray_is_straight(occupied, s, t, 1, 1, 7);
        } else if ray_reach(occupied, s, t, -1, 1, 7) {
            lemma_ray_is_straight(occupied, s, t, -1, 1, 7);
        } else if ray_reach(occupied, s, t, 1, -1, 7) {
            lemma_ray_is_straight(occupied, s, t, 1, -1, 7);
        } else {
            lemma_ray_is_straight(occupied, s, t, -1, -1, 7);
        }
    }
    if rook_targets(s, occupied).contains(t) {
        if ray_reach(occupied, s, t, 0, 1, 7) {
            lemma_ray_is_straight(occupied, s, t, 0, 1, 7);
        } else if ray_reach(occupied, s, t, 1, 0, 7) {
            lemma_ray_is_straight(occupied, s, t, 1, 0, 7);
        } else if ray_reach(occupied, s, t, 0, -1, 7) {
            lemma_ray_is_straight(occupied, s, t, 0, -1, 7);
        } else {
            lemma_ray_is_straight(occupied, s, t, -1, 0, 7);
        }
    }
}

} // verus!
