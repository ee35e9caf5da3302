//! The board: one bitboard per color and one per piece type (with index 0
//! for all occupied squares), the side to move and the en passant square.
use vstd::prelude::*;
use crate::bits::{
    bb_view, all_squares, bb_set, bb_test, lemma_view_zero, lemma_view_single, lemma_view_and,
    lemma_view_empty, lemma_view_and_not, lemma_view_or, lemma_view_shl, lemma_view_shr,
    lemma_view_not_h_file, lemma_view_not_a_file, lemma_view_full, bb_poplsb, lemma_nonempty_has,
};
use crate::moves::{
    file_of, rank_of, square_file, square_rank, from_of, to_of, promotion_of, mov_from, mov_to,
    mov_promotion, piece_letter_upper, piece_letter_lower, piece_char_upper, piece_char_lower,
};
use crate::bits::{bb_clear};

verus! {

/// Piece types. `kAll` indexes the bitboard of all occupied squares;
/// `kNone` stands for "no piece" and indexes that same bitboard.
#[derive(Clone, Copy, PartialEq, Eq, Structural, Debug)]
pub enum Enum1 {
    kAll,
    kPawn,
    kKnight,
    kBishop,
    kRook,
    kQueen,
    kKing,
    kNone,
}

/// Colors; `kBlack` has index 0 and `kWhite` index 1.
#[derive(Clone, Copy, PartialEq, Eq, Structural, Debug)]
pub enum Enum2 {
    kBlack,
    kWhite,
}

impl Enum1 {
    /// The index of the piece type into `board::occupied`.
    pub open spec fn index(self) -> int {
        match self {
            Enum1::kAll => 0,
            Enum1::kPawn => 1,
            Enum1::kKnight => 2,
            Enum1::kBishop => 3,
            Enum1::kRook => 4,
            Enum1::kQueen => 5,
            Enum1::kKing => 6,
            Enum1::kNone => 0,
        }
    }

    /// The index of the piece type into `board::occupied`.
    pub fn idx(self) -> (r: usize)
        ensures
            r == self.index(),
    {
        match self {
            Enum1::kAll => 0,
            Enum1::kPawn => 1,
            Enum1::kKnight => 2,
            Enum1::kBishop => 3,
            Enum1::kRook => 4,
            Enum1::kQueen => 5,
            Enum1::kKing => 6,
            Enum1::kNone => 0,
        }
    }
}

/// The piece type of index `i` (1 to 6).
pub open spec fn piece_of_index(i: int) -> Enum1 {
    if i == 1 {
        Enum1::kPawn
    } else if i == 2 {
        Enum1::kKnight
    } else if i == 3 {
        Enum1::kBishop
    } else if i == 4 {
        Enum1::kRook
    } else if i == 5 {
        Enum1::kQueen
    } else if i == 6 {
        Enum1::kKing
    } else {
        Enum1::kNone
    }
}

impl Enum2 {
    /// The index of the color into `board::occupied_co`.
    pub open spec fn index(self) -> int {
        match self {
            Enum2::kBlack => 0,
            Enum2::kWhite => 1,
        }
    }

    /// The index of the color into `board::occupied_co`.
    pub fn idx(self) -> (r: usize)
        ensures
            r == self.index(),
    {
        match self {
            Enum2::kBlack => 0,
            Enum2::kWhite => 1,
        }
    }

    /// The other color.
    pub open spec fn other(self) -> Enum2 {
        match self {
            Enum2::kBlack => Enum2::kWhite,
            Enum2::kWhite => Enum2::kBlack,
        }
    }
}

/// A position: `occupied_co[c]` are the squares of color `c`,
/// `occupied[0]` all occupied squares and `occupied[p]` those of piece type `p`.
#[derive(Clone, Copy)]
pub struct board {
    pub occupied_co: [u64; 2],
    pub occupied: [u64; 7],
    pub turn: Enum2,
    pub ep_square: u8,
}

/// What a board stands for: sets of squares for each color and piece type.
#[verifier::ext_equal]
pub struct BoardView {
    pub co: Seq<Set<int>>,
    pub occ: Seq<Set<int>>,
    pub turn: Enum2,
    pub ep_square: u8,
}

impl View for board {
    type V = BoardView;

    open spec fn view(&self) -> BoardView {
        BoardView {
            co: Seq::new(2, |c: int| bb_view(self.occupied_co[c])),
            occ: Seq::new(7, |p: int| bb_view(self.occupied[p])),
            turn: self.turn,
            ep_square: self.ep_square,
        }
    }
}


/// The piece type on square `s`: the first of pawn to king whose set holds
/// `s`, `kNone` if none does.
pub open spec fn piece_type_at(v: BoardView, s: int) -> Enum1 {
    if v.occ[1].contains(s) {
        Enum1::kPawn
    } else if v.occ[2].contains(s) {
        Enum1::kKnight
    } else if v.occ[3].contains(s) {
        Enum1::kBishop
    } else if v.occ[4].contains(s) {
        Enum1::kRook
    } else if v.occ[5].contains(s) {
        Enum1::kQueen
    } else if v.occ[6].contains(s) {
        Enum1::kKing
    } else {
        Enum1::kNone
    }
}

/// The piece type on a square (`board_piece_type_at`).
pub fn board_piece_type_at(board: &board, square: u8) -> (r: Enum1)
    requires
        square < 64,
    ensures
        r == piece_type_at(board@, square as int),
{
    if bb_test(board.occupied[1], square) {
        Enum1::kPawn
    } else if bb_test(board.occupied[2], square) {
        Enum1::kKnight
    } else if bb_test(board.occupied[3], square) {
        Enum1::kBishop
    } else if bb_test(board.occupied[4], square) {
        Enum1::kRook
    } else if bb_test(board.occupied[5], square) {
        Enum1::kQueen
    } else if bb_test(board.occupied[6], square) {
        Enum1::kKing
    } else {
        Enum1::kNone
    }
}

/// The bitboards of the starting position, by color and by piece type.
pub open spec fn start_co() -> Seq<u64> {
    seq![0xffff_0000_0000_0000u64, 0xffffu64]
}

pub open spec fn start_occ() -> Seq<u64> {
    seq![
        0xffff_0000_0000_ffffu64,
        0x00ff_0000_0000_ff00u64,
        0x4200_0000_0000_0042u64,
        0x2400_0000_0000_0024u64,
        0x8100_0000_0000_0081u64,
        0x0800_0000_0000_0008u64,
        0x1000_0000_0000_0010u64,
    ]
}

/// Sets up the starting position, white to move (`board_reset`).
pub fn board_reset(board: &mut board)
    ensures
        final(board).occupied_co@ == start_co(),
        final(board).occupied@ == start_occ(),
        final(board).turn == Enum2::kWhite,
        final(board).ep_square == 0,
        wf(final(board)@),
{
    board.occupied_co[1] = 0xffff;
    board.occupied_co[0] = 0xffff_0000_0000_0000;
    board.occupied[0] = 0xffff_0000_0000_ffff;
    board.occupied[1] = 0x00ff_0000_0000_ff00;
    board.occupied[2] = 0x4200_0000_0000_0042;
    board.occupied[3] = 0x2400_0000_0000_0024;
    board.occupied[4] = 0x8100_0000_0000_0081;
    board.occupied[5] = 0x0800_0000_0000_0008;
    board.occupied[6] = 0x1000_0000_0000_0010;
    board.turn = Enum2::kWhite;
    board.ep_square = 0;
    assert(board.occupied_co@ =~= start_co());
    assert(board.occupied@ =~= start_occ());
    proof {
        lemma_start_wf(*board);
    }
}

proof fn bv_start(s: u64)
    requires
        s < 64,
    ensures
        !((0xffff_0000_0000_0000u64 >> s) & 1 == 1 && (0xffffu64 >> s) & 1 == 1),
        (0xffff_0000_0000_ffffu64 >> s) & 1 == 1 <==> ((0xffff_0000_0000_0000u64 >> s) & 1 == 1
            || (0xffffu64 >> s) & 1 == 1),
        (0xffff_0000_0000_ffffu64 >> s) & 1 == 1 <==> ((0x00ff_0000_0000_ff00u64 >> s) & 1 == 1
            || (0x4200_0000_0000_0042u64 >> s) & 1 == 1 || (0x2400_0000_0000_0024u64 >> s) & 1 == 1
            || (0x8100_0000_0000_0081u64 >> s) & 1 == 1 || (0x0800_0000_0000_0008u64 >> s) & 1 == 1
            || (0x1000_0000_0000_0010u64 >> s) & 1 == 1),
        (0x00ff_0000_0000_ff00u64 >> s) & 1 == 1 ==> !((0x4200_0000_0000_0042u64 >> s) & 1 == 1
            || (0x2400_0000_0000_0024u64 >> s) & 1 == 1 || (0x8100_0000_0000_0081u64 >> s) & 1 == 1
            || (0x0800_0000_0000_0008u64 >> s) & 1 == 1 || (0x1000_0000_0000_0010u64 >> s) & 1 == 1),
        (0x4200_0000_0000_0042u64 >> s) & 1 == 1 ==> !((0x2400_0000_0000_0024u64 >> s) & 1 == 1
            || (0x8100_0000_0000_0081u64 >> s) & 1 == 1 || (0x0800_0000_0000_0008u64 >> s) & 1 == 1
            || (0x1000_0000_0000_0010u64 >> s) & 1 == 1),
        (0x2400_0000_0000_0024u64 >> s) & 1 == 1 ==> !((0x8100_0000_0000_0081u64 >> s) & 1 == 1
            || (0x0800_0000_0000_0008u64 >> s) & 1 == 1 || (0x1000_0000_0000_0010u64 >> s) & 1 == 1),
        (0x8100_0000_0000_0081u64 >> s) & 1 == 1 ==> !((0x0800_0000_0000_0008u64 >> s) & 1 == 1
            || (0x1000_0000_0000_0010u64 >> s) & 1 == 1),
        (0x0800_0000_0000_0008u64 >> s) & 1 == 1 ==> !((0x1000_0000_0000_0010u64 >> s) & 1 == 1),
{
    assert(!((0xffff_0000_0000_0000u64 >> s) & 1 == 1 && (0xffffu64 >> s) & 1 == 1)) by (bit_vector)
        requires s < 64;
    assert((0xffff_0000_0000_ffffu64 >> s) & 1 == 1 <==> ((0xffff_0000_0000_0000u64 >> s) & 1 == 1
            || (0xffffu64 >> s) & 1 == 1)) by (bit_vector) requires s < 64;
    assert((0xffff_0000_0000_ffffu64 >> s) & 1 == 1 <==> ((0x00ff_0000_0000_ff00u64 >> s) & 1 == 1
            || (0x4200_0000_0000_0042u64 >> s) & 1 == 1 || (0x2400_0000_0000_0024u64 >> s) & 1 == 1
            || (0x8100_0000_0000_0081u64 >> s) & 1 == 1 || (0x0800_0000_0000_0008u64 >> s) & 1 == 1
            || (0x1000_0000_0000_0010u64 >> s) & 1 == 1)) by (bit_vector) requires s < 64;
    assert((0x00ff_0000_0000_ff00u64 >> s) & 1 == 1 ==> !((0x4200_0000_0000_0042u64 >> s) & 1 == 1
            || (0x2400_0000_0000_0024u64 >> s) & 1 == 1 || (0x8100_0000_0000_0081u64 >> s) & 1 == 1
            || (0x0800_0000_0000_0008u64 >> s) & 1 == 1 || (0x1000_0000_0000_0010u64 >> s) & 1 == 1))
        by (bit_vector) requires s < 64;
    assert((0x4200_0000_0000_0042u64 >> s) & 1 == 1 ==> !((0x2400_0000_0000_0024u64 >> s) & 1 == 1
            || (0x8100_0000_0000_0081u64 >> s) & 1 == 1 || (0x0800_0000_0000_0008u64 >> s) & 1 == 1
            || (0x1000_0000_0000_0010u64 >> s) & 1 == 1)) by (bit_vector) requires s < 64;
    assert((0x2400_0000_0000_0024u64 >> s) & 1 == 1 ==> !((0x8100_0000_0000_0081u64 >> s) & 1 == 1
            || (0x0800_0000_0000_0008u64 >> s) & 1 == 1 || (0x1000_0000_0000_0010u64 >> s) & 1 == 1))
        by (bit_vector) requires s < 64;
    assert((0x8100_0000_0000_0081u64 >> s) & 1 == 1 ==> !((0x0800_0000_0000_0008u64 >> s) & 1 == 1
            || (0x1000_0000_0000_0010u64 >> s) & 1 == 1)) by (bit_vector) requires s < 64;
    assert((0x0800_0000_0000_0008u64 >> s) & 1 == 1 ==> !((0x1000_0000_0000_0010u64 >> s) & 1 == 1))
        by (bit_vector) requires s < 64;
}

/// The starting position is well formed.
proof fn lemma_start_wf(b: board)
    requires
        b.occupied_co@ == start_co(),
        b.occupied@ == start_occ(),
    ensures
        wf(b@),
{
    assert(b.occupied_co[0] == 0xffff_0000_0000_0000u64);
    assert(b.occupied_co[1] == 0xffffu64);
    assert(b.occupied[0] == 0xffff_0000_0000_ffffu64);
    assert(b.occupied[1] == 0x00ff_0000_0000_ff00u64);
    assert(b.occupied[2] == 0x4200_0000_0000_0042u64);
    assert(b.occupied[3] == 0x2400_0000_0000_0024u64);
    assert(b.occupied[4] == 0x8100_0000_0000_0081u64);
    assert(b.occupied[5] == 0x0800_0000_0000_0008u64);
    assert(b.occupied[6] == 0x1000_0000_0000_0010u64);
    assert forall|s: int| #[trigger] square_consistent(b@, s) by {
        if 0 <= s < 64 {
            bv_start(s as u64);
        }
    }
}

/// The distance between two squares in king moves.
pub open spec fn distance(a: int, b: int) -> int {
    let rd = if rank_of(a) >= rank_of(b) { rank_of(a) - rank_of(b) } else { rank_of(b) - rank_of(a) };
    let fd = if file_of(a) >= file_of(b) { file_of(a) - file_of(b) } else { file_of(b) - file_of(a) };
    if rd > fd { rd } else { fd }
}

/// The distance between two squares in king moves (`square_distance`).
pub fn square_distance(a: u8, b: u8) -> (r: i32)
    ensures
        r == distance(a as int, b as int),
{
    let rd0 = square_rank(a) - square_rank(b);
    let fd0 = square_file(a) - square_file(b);
    let rd = if rd0 >= 0 { rd0 } else { -rd0 };
    let fd = if fd0 >= 0 { fd0 } else { -fd0 };
    if rd > fd { rd } else { fd }
}

/// The squares reached from `prev` by steps of `d`, each step moving at most
/// two files and two ranks and staying on the board, up to and including the
/// first square of `occ`.
pub open spec fn ray(prev: int, d: int, occ: Set<int>) -> Set<int>
    decreases (if d > 0 { 64 - prev } else { prev + 1 }),
{
    let s = prev + d;
    if d == 0 || !(0 <= prev < 64) || !(0 <= s < 64) || distance(s, prev) > 2 {
        Set::empty()
    } else if occ.contains(s) {
        set![s]
    } else {
        ray(s, d, occ).insert(s)
    }
}

/// The union of the rays from `sq` along each step of `ds`.
pub open spec fn sliding(ds: Seq<i32>, sq: int, occ: Set<int>) -> Set<int>
    decreases ds.len(),
{
    if ds.len() == 0 {
        Set::empty()
    } else {
        sliding(ds.drop_last(), sq, occ).union(ray(sq, ds.last() as int, occ))
    }
}

/// Steps of a rook.
pub open spec fn rook_steps() -> Seq<i32> {
    seq![8i32, 1i32, -8i32, -1i32]
}

/// Steps of a bishop.
pub open spec fn bishop_steps() -> Seq<i32> {
    seq![9i32, 7i32, -9i32, -7i32]
}

/// Steps of a king.
pub open spec fn king_steps() -> Seq<i32> {
    seq![8i32, 9i32, 1i32, -7i32, -8i32, -9i32, -1i32, 7i32]
}

/// Jumps of a knight.
pub open spec fn knight_steps() -> Seq<i32> {
    seq![17i32, 15i32, 10i32, 6i32, -17i32, -15i32, -10i32, -6i32]
}

/// The steps of a rook.
pub fn ROOK_DELTAS() -> (r: Vec<i32>)
    ensures
        r@ == rook_steps(),
{
    let r = vec![8i32, 1, -8, -1];
    assert(r@ =~= rook_steps());
    r
}

/// The steps of a bishop.
pub fn BISHOP_DELTAS() -> (r: Vec<i32>)
    ensures
        r@ == bishop_steps(),
{
    let r = vec![9i32, 7, -9, -7];
    assert(r@ =~= bishop_steps());
    r
}

/// The steps of a king.
pub fn KING_DELTAS() -> (r: Vec<i32>)
    ensures
        r@ == king_steps(),
{
    let r = vec![8i32, 9, 1, -7, -8, -9, -1, 7];
    assert(r@ =~= king_steps());
    r
}

/// The jumps of a knight.
pub fn KNIGHT_DELTAS() -> (r: Vec<i32>)
    ensures
        r@ == knight_steps(),
{
    let r = vec![17i32, 15, 10, 6, -17, -15, -10, -6];
    assert(r@ =~= knight_steps());
    r
}

/// Steps usable by `attacks_sliding`: nonzero and shorter than the board.
pub open spec fn valid_steps(ds: Seq<i32>) -> bool {
    forall|i: int| 0 <= i < ds.len() ==> -64 < #[trigger] ds[i] < 64 && ds[i] != 0
}

/// The squares attacked from `square` along each step of `deltas`, each
/// ray ending at the first square of `occupied` (`attacks_sliding`).
pub fn attacks_sliding(deltas: &[i32], square: u8, occupied: u64) -> (attack: u64)
    requires
        square < 64,
        valid_steps(deltas@),
    ensures
        bb_view(attack) == sliding(deltas@, square as int, bb_view(occupied)),
{
    let mut attack: u64 = 0;
    let mut i: usize = 0;
    let ghost occ = bb_view(occupied);
    proof {
        lemma_view_zero();
        assert(deltas@.take(0) =~= Seq::<i32>::empty());
    }
    while i < deltas.len()
        invariant
            0 <= i <= deltas.len(),
            square < 64,
            valid_steps(deltas@),
            occ == bb_view(occupied),
            bb_view(attack) == sliding(deltas@.take(i as int), square as int, occ),
        decreases deltas.len() - i,
    {
        let d = deltas[i];
        let ghost acc0 = bb_view(attack);
        let mut s: i32 = square as i32 + d;
        loop
            invariant
                0 <= s - d < 64,
                d == deltas@[i as int],
                -64 < d < 64,
                d != 0,
                occ == bb_view(occupied),
                acc0.union(ray(square as int, d as int, occ)) == bb_view(attack).union(
                    ray((s - d) as int, d as int, occ),
                ),
            ensures
                bb_view(attack) == acc0.union(ray(square as int, d as int, occ)),
            decreases (if d > 0 { 64 - (s - d) } else { s - d + 1 }),
        {
            let ghost prev = (s - d) as int;
            if !(s >= 0 && s < 64 && square_distance(s as u8, (s - d) as u8) <= 2) {
                assert(ray(prev, d as int, occ) == Set::<int>::empty());
                assert(bb_view(attack).union(Set::<int>::empty()) =~= bb_view(attack));
                break;
            }
            let ghost before = bb_view(attack);
            attack = bb_set(attack, s as u8);
            if bb_test(occupied, s as u8) {
                assert(ray(prev, d as int, occ) == set![s as int]);
                assert(before.union(set![s as int]) =~= bb_view(attack));
                assert(bb_view(attack).union(Set::<int>::empty()) =~= bb_view(attack));
                break;
            }
            assert(ray(prev, d as int, occ) == ray(s as int, d as int, occ).insert(s as int));
            assert(before.union(ray(prev, d as int, occ)) =~= bb_view(attack).union(
                ray(s as int, d as int, occ),
            ));
            s = s + d;
        }
        proof {
            assert(deltas@.take(i + 1).drop_last() =~= deltas@.take(i as int));
            assert(deltas@.take(i + 1).last() == d);
        }
        i = i + 1;
    }
    proof {
        assert(deltas@.take(deltas.len() as int) =~= deltas@);
    }
    attack
}


/// The board with the piece of type `pt` lifted from `from`.
pub open spec fn lift(v: BoardView, from: int, pt: Enum1) -> BoardView {
    let us = v.turn.index();
    BoardView {
        co: v.co.update(us, v.co[us].remove(from)),
        occ: v.occ.update(0, v.occ[0].remove(from)).update(
            pt.index(),
            v.occ.update(0, v.occ[0].remove(from))[pt.index()].remove(from),
        ),
        ..v
    }
}

/// The board with a piece of type `cap` of the side not to move taken off `to`.
pub open spec fn take_off(v: BoardView, to: int, cap: Enum1) -> BoardView {
    let them = v.turn.other().index();
    BoardView {
        co: v.co.update(them, v.co[them].remove(to)),
        occ: v.occ.update(cap.index(), v.occ[cap.index()].remove(to)),
        ..v
    }
}

/// The board with the pawn taken en passant removed from `sq`.
pub open spec fn take_en_passant(v: BoardView, sq: int) -> BoardView {
    let them = v.turn.other().index();
    BoardView {
        co: v.co.update(them, v.co[them].remove(sq)),
        occ: v.occ.update(0, v.occ[0].remove(sq)).update(1, v.occ[1].remove(sq)),
        ..v
    }
}

/// The board with a piece of type `pt` of the side to move put on `to`,
/// then the other side to move.
pub open spec fn place(v: BoardView, to: int, pt: Enum1) -> BoardView {
    let us = v.turn.index();
    BoardView {
        co: v.co.update(us, v.co[us].insert(to)),
        occ: v.occ.update(0, v.occ[0].insert(to)).update(
            pt.index(),
            v.occ.update(0, v.occ[0].insert(to))[pt.index()].insert(to),
        ),
        turn: v.turn.other(),
        ..v
    }
}

/// The square of the pawn that a pawn landing on `to` takes en passant.
pub open spec fn en_passant_victim(v: BoardView, to: int) -> int {
    if v.turn == Enum2::kWhite { to - 8 } else { to + 8 }
}

/// The piece moving, the piece taken on the target square once the mover is
/// lifted, and whether the move takes en passant.
pub open spec fn mover(v: BoardView, mov: u16) -> Enum1 {
    piece_type_at(v, from_of(mov))
}

pub open spec fn captured(v: BoardView, mov: u16) -> Enum1 {
    piece_type_at(lift(v, from_of(mov), mover(v, mov)), to_of(mov))
}

pub open spec fn is_en_passant(v: BoardView, mov: u16) -> bool {
    mover(v, mov) == Enum1::kPawn && file_of(from_of(mov)) != file_of(to_of(mov)) && captured(v, mov)
        == Enum1::kNone
}

/// Whether the move is a pawn advancing two ranks.
pub open spec fn is_double_push(v: BoardView, mov: u16) -> bool {
    mover(v, mov) == Enum1::kPawn && !is_en_passant(v, mov) && distance(from_of(mov), to_of(mov))
        == 2
}

/// The board after a move: the null move changes nothing; a move from an
/// empty square only clears the en passant square; otherwise the mover
/// leaves its square, takes what stands on the target (or the pawn passed
/// en passant), lands there (promoted if the move says so), the en passant
/// square is set behind a pawn that advanced two ranks, and the turn passes.
pub open spec fn move_model(v: BoardView, mov: u16) -> BoardView {
    let from = from_of(mov);
    let to = to_of(mov);
    let pt = mover(v, mov);
    if mov == 0 {
        v
    } else if pt == Enum1::kNone {
        BoardView { ep_square: 0, ..v }
    } else {
        let v1 = lift(BoardView { ep_square: 0, ..v }, from, pt);
        let cap = captured(v, mov);
        let v2 = if cap != Enum1::kNone { take_off(v1, to, cap) } else { v1 };
        let v3 = if is_en_passant(v, mov) { take_en_passant(v2, en_passant_victim(v, to)) } else { v2 };
        let ep: u8 = if is_double_push(v, mov) {
            #[verifier::truncate] ((if v.turn == Enum2::kWhite { from + 8 } else { from - 8 }) as u8)
        } else {
            0
        };
        let landed = if promotion_of(mov) != Enum1::kNone { promotion_of(mov) } else { pt };
        place(BoardView { ep_square: ep, ..v3 }, to, landed)
    }
}

/// Moves that `board_mov` can play: the square of a pawn taken en passant
/// lies on the board.
pub open spec fn move_playable(v: BoardView, mov: u16) -> bool {
    mov != 0 && mover(v, mov) != Enum1::kNone && is_en_passant(v, mov) ==> 0 <= en_passant_victim(
        v,
        to_of(mov),
    ) < 64
}

/// Plays a move on the board (`board_mov`).
pub fn board_mov(board: &mut board, mov: u16)
    requires
        move_playable(old(board)@, mov),
    ensures
        final(board)@ == move_model(old(board)@, mov),
{
    let ghost v0 = board@;
    if mov == 0 {
        return;
    }
    board.ep_square = 0;
    let ghost v0e = board@;
    assert(v0e =~~= BoardView { ep_square: 0, ..v0 });
    let from = mov_from(mov);
    let to = mov_to(mov);
    let mut pt = board_piece_type_at(board, from);
    if pt == Enum1::kNone {
        return;
    }
    let us = board.turn.idx();
    let them: usize = 1 - us;
    let pti = pt.idx();
    board.occupied_co[us] = bb_clear(board.occupied_co[us], from);
    board.occupied[0] = bb_clear(board.occupied[0], from);
    board.occupied[pti] = bb_clear(board.occupied[pti], from);
    let ghost v1 = board@;
    assert(v1.co =~= lift(v0e, from as int, pt).co);
    assert(v1.occ =~= lift(v0e, from as int, pt).occ);
    assert(v1 =~~= lift(v0e, from as int, pt));
    let capture = board_piece_type_at(board, to);
    if capture != Enum1::kNone {
        let ci = capture.idx();
        board.occupied_co[them] = bb_clear(board.occupied_co[them], to);
        board.occupied[ci] = bb_clear(board.occupied[ci], to);
        assert(board@.co =~= take_off(v1, to as int, capture).co);
        assert(board@.occ =~= take_off(v1, to as int, capture).occ);
    }
    let ghost v2 = board@;
    assert(v2 =~~= (if capture != Enum1::kNone { take_off(v1, to as int, capture) } else { v1 }));
    if pt == Enum1::kPawn {
        if square_file(from) != square_file(to) && capture == Enum1::kNone {
            let ep_sq: u8 = if us == 1 { to - 8 } else { to + 8 };
            board.occupied_co[them] = bb_clear(board.occupied_co[them], ep_sq);
            board.occupied[0] = bb_clear(board.occupied[0], ep_sq);
            board.occupied[1] = bb_clear(board.occupied[1], ep_sq);
            assert(board@.co =~= take_en_passant(v2, ep_sq as int).co);
            assert(board@.occ =~= take_en_passant(v2, ep_sq as int).occ);
        } else if square_distance(from, to) == 2 {
            board.ep_square = if us == 1 { from + 8 } else { #[verifier::truncate] ((from as i32 - 8) as u8) };
        }
    }
    let ghost v3 = board@;
    let promotion = mov_promotion(mov);
    if promotion != Enum1::kNone {
        pt = promotion;
    }
    let pti2 = pt.idx();
    board.occupied_co[us] = bb_set(board.occupied_co[us], to);
    board.occupied[0] = bb_set(board.occupied[0], to);
    board.occupied[pti2] = bb_set(board.occupied[pti2], to);
    board.turn = if us == 1 { Enum2::kBlack } else { Enum2::kWhite };
    assert(board@.co =~= place(v3, to as int, pt).co);
    assert(board@.occ =~= place(v3, to as int, pt).occ);
    assert(board@ =~~= place(v3, to as int, pt));
}


/// A square is consistently described: it is of at most one color; it is
/// occupied exactly when it has a color and exactly when some piece type
/// holds it; and only one piece type holds it.
pub open spec fn square_consistent(v: BoardView, s: int) -> bool {
    &&& !(v.co[0].contains(s) && v.co[1].contains(s))
    &&& v.occ[0].contains(s) <==> (v.co[0].contains(s) || v.co[1].contains(s))
    &&& v.occ[0].contains(s) <==> piece_type_at(v, s) != Enum1::kNone
    &&& forall|p: int| 1 <= p < 7 && #[trigger] v.occ[p].contains(s) ==> piece_type_at(v, s) == piece_of_index(p)
}

/// A well-formed position: every square is consistently described.
pub open spec fn wf(v: BoardView) -> bool {
    &&& v.co.len() == 2
    &&& v.occ.len() == 7
    &&& forall|s: int| #[trigger] square_consistent(v, s)
}

/// A move that keeps a position well formed: the mover, if any, belongs to
/// the side to move, and a pawn taken en passant stands (if anything stands
/// there) on its square.
pub open spec fn move_keeps_shape(v: BoardView, mov: u16) -> bool {
    let from = from_of(mov);
    let victim = en_passant_victim(v, to_of(mov));
    let them = v.turn.other().index();
    &&& v.occ[0].contains(from) ==> v.co[v.turn.index()].contains(from)
    &&& is_en_passant(v, mov) ==> (!v.occ[0].contains(victim) || (v.co[them].contains(victim)
        && v.occ[1].contains(victim)))
}

/// Playing a move of the side to move keeps a well-formed position well
/// formed.
pub proof fn lemma_board_mov_keeps_wf(v: BoardView, mov: u16)
    requires
        wf(v),
        move_playable(v, mov),
        move_keeps_shape(v, mov),
    ensures
        wf(move_model(v, mov)),
{
    let r = move_model(v, mov);
    if mov == 0 {
    } else if mover(v, mov) == Enum1::kNone {
        assert forall|s: int| #[trigger] square_consistent(r, s) by {
            assert(square_consistent(v, s));
        }
    } else {
        let from = from_of(mov);
        let to = to_of(mov);
        let pt = mover(v, mov);
        assert(square_consistent(v, from));
        assert(square_consistent(v, to));
        assert(square_consistent(v, en_passant_victim(v, to)));
        assert forall|s: int| #[trigger] square_consistent(r, s) by {
            assert(square_consistent(v, s));
        }
    }
}


/// Squares that pawns of `p` attack, moving up the board (white).
pub open spec fn white_pawn_captures(p: Set<int>) -> Set<int> {
    Set::new(
        |t: int|
            0 <= t < 64 && ((p.contains(t - 7) && file_of(t) != 7) || (p.contains(t - 9) && file_of(t)
                != 0)),
    )
}

/// Squares that pawns of `p` attack, moving down the board (black).
pub open spec fn black_pawn_captures(p: Set<int>) -> Set<int> {
    Set::new(
        |t: int|
            0 <= t < 64 && ((p.contains(t + 9) && file_of(t) != 7) || (p.contains(t + 7) && file_of(t)
                != 0)),
    )
}

/// Squares one rank up from pawns of `p`.
pub open spec fn white_pawn_pushes(p: Set<int>) -> Set<int> {
    Set::new(|t: int| 0 <= t < 64 && p.contains(t - 8))
}

/// Squares one rank down from pawns of `p`.
pub open spec fn black_pawn_pushes(p: Set<int>) -> Set<int> {
    Set::new(|t: int| 0 <= t < 64 && p.contains(t + 8))
}

/// Some piece of `pieces` reaches, along the steps `ds` (rays ending at
/// `occ`), a square outside `us`.
pub open spec fn some_mobile(pieces: Set<int>, ds: Seq<i32>, occ: Set<int>, us: Set<int>) -> bool {
    exists|s: int| #[trigger] pieces.contains(s) && !sliding(ds, s, occ).subset_of(us)
}

/// The squares attacked by the pawns of the side to move.
pub open spec fn pawn_captures(v: BoardView) -> Set<int> {
    let pawns = v.occ[1].intersect(v.co[v.turn.index()]);
    if v.turn == Enum2::kWhite { white_pawn_captures(pawns) } else { black_pawn_captures(pawns) }
}

/// The squares one step ahead of the pawns of the side to move.
pub open spec fn pawn_pushes(v: BoardView) -> Set<int> {
    let pawns = v.occ[1].intersect(v.co[v.turn.index()]);
    if v.turn == Enum2::kWhite { white_pawn_pushes(pawns) } else { black_pawn_pushes(pawns) }
}

/// Whether the side to move has a move: a pawn capture of an enemy piece or
/// en passant, a pawn step to an empty square, or a knight jump, a diagonal
/// step (bishop, queen, king) or a straight step (rook, queen, king) to a
/// square not of its own.
pub open spec fn side_has_move(v: BoardView) -> bool {
    let us = v.co[v.turn.index()];
    let them = v.co[v.turn.other().index()];
    let all = v.occ[0];
    ||| !pawn_captures(v).disjoint(them)
    ||| (v.ep_square != 0 && pawn_captures(v).contains(v.ep_square as int))
    ||| !pawn_pushes(v).subset_of(all)
    ||| some_mobile(v.occ[2].intersect(us), knight_steps(), all_squares(), us)
    ||| some_mobile(v.occ[3].union(v.occ[5]).union(v.occ[6]).intersect(us), bishop_steps(), all, us)
    ||| some_mobile(v.occ[4].union(v.occ[5]).union(v.occ[6]).intersect(us), rook_steps(), all, us)
}

/// The game is over when a side has no pieces left, or the side to move
/// has no move.
pub open spec fn game_over(v: BoardView) -> bool {
    v.co[0] == Set::<int>::empty() || v.co[1] == Set::<int>::empty() || !side_has_move(v)
}

/// A pawn push is a move: when a pawn of the side to move has an empty
/// square one rank ahead of it on the board (up for white, down for
/// black), the side to move has a move, and while the other side has a
/// piece the game is not over.
pub proof fn lemma_pawn_push_keeps_game(v: BoardView, s: int, o: int)
    requires
        v.occ[1].contains(s),
        v.co[v.turn.index()].contains(s),
        v.co[v.turn.other().index()].contains(o),
        0 <= (if v.turn == Enum2::kWhite { s + 8 } else { s - 8 }) < 64,
        !v.occ[0].contains(if v.turn == Enum2::kWhite { s + 8 } else { s - 8 }),
    ensures
        side_has_move(v),
        !game_over(v),
{
    let t = if v.turn == Enum2::kWhite { s + 8 } else { s - 8 };
    assert(pawn_pushes(v).contains(t));
    assert(!pawn_pushes(v).subset_of(v.occ[0]));
    if v.turn == Enum2::kWhite {
        assert(v.co[1].contains(s) && v.co[0].contains(o));
    } else {
        assert(v.co[0].contains(s) && v.co[1].contains(o));
    }
}

/// Positions where `board_is_game_over` can look at the en passant square:
/// it lies on the board whenever it is looked at.
pub open spec fn game_over_defined(v: BoardView) -> bool {
    let them = v.co[v.turn.other().index()];
    v.co[0] == Set::<int>::empty() || v.co[1] == Set::<int>::empty() || !pawn_captures(v).disjoint(
        them,
    ) || v.ep_square == 0 || v.ep_square < 64
}

/// Whether a piece of `pieces` reaches a square not in `us`.
fn any_mobile(pieces: u64, deltas: &[i32], occupied: u64, us: u64) -> (r: bool)
    requires
        valid_steps(deltas@),
    ensures
        r == some_mobile(bb_view(pieces), deltas@, bb_view(occupied), bb_view(us)),
{
    let mut rest = pieces;
    while rest != 0
        invariant
            valid_steps(deltas@),
            bb_view(rest).subset_of(bb_view(pieces)),
            forall|s: int|
                #[trigger] bb_view(pieces).contains(s) && !bb_view(rest).contains(s) ==> sliding(
                    deltas@,
                    s,
                    bb_view(occupied),
                ).subset_of(bb_view(us)),
        decreases rest,
    {
        let sq = bb_poplsb(&mut rest);
        let attack = attacks_sliding(deltas, sq, occupied);
        proof {
            lemma_view_and_not(attack, us);
            lemma_view_empty(attack & !us);
        }
        if attack & !us != 0 {
            proof {
                lemma_nonempty_has(bb_view(attack & !us));
                let x = choose|x: int| bb_view(attack & !us).contains(x);
                assert(!bb_view(attack).subset_of(bb_view(us)));
                assert(bb_view(pieces).contains(sq as int));
            }
            return true;
        }
        proof {
            assert forall|x: int| bb_view(attack).contains(x) implies bb_view(us).contains(x) by {
                if !bb_view(us).contains(x) {
                    assert(bb_view(attack & !us).contains(x));
                }
            }
        }
    }
    proof {
        lemma_view_empty(rest);
        assert forall|s: int| #[trigger] bb_view(pieces).contains(s) implies sliding(
            deltas@,
            s,
            bb_view(occupied),
        ).subset_of(bb_view(us)) by {
            assert(!bb_view(rest).contains(s));
        }
    }
    false
}

/// Whether the game is over: a side has no pieces, or the side to move has
/// no move (`board_is_game_over`).
pub fn board_is_game_over(board: &board) -> (r: bool)
    requires
        game_over_defined(board@),
    ensures
        r == game_over(board@),
{
    proof {
        lemma_view_empty(board.occupied_co[0]);
        lemma_view_empty(board.occupied_co[1]);
    }
    if board.occupied_co[0] == 0 || board.occupied_co[1] == 0 {
        return true;
    }
    let ghost v = board@;
    let us_i = board.turn.idx();
    let them_i: usize = 1 - us_i;
    let us = board.occupied_co[us_i];
    let them = board.occupied_co[them_i];
    let pawns = board.occupied[1] & us;
    let pawn_attacks: u64;
    let pawn_movs: u64;
    proof {
        lemma_view_and(board.occupied[1], us);
        lemma_view_not_h_file();
        lemma_view_not_a_file();
    }
    if us_i == 1 {
        let a7 = pawns << 7;
        let a9 = pawns << 9;
        pawn_attacks = (a7 & !0x8080_8080_8080_8080u64) | (a9 & !0x0101_0101_0101_0101u64);
        pawn_movs = pawns << 8;
        proof {
            lemma_view_shl(pawns, 7);
            lemma_view_shl(pawns, 9);
            lemma_view_shl(pawns, 8);
            lemma_view_and(a7, !0x8080_8080_8080_8080u64);
            lemma_view_and(a9, !0x0101_0101_0101_0101u64);
            lemma_view_or(a7 & !0x8080_8080_8080_8080u64, a9 & !0x0101_0101_0101_0101u64);
            assert(bb_view(pawn_attacks) =~= pawn_captures(v));
            assert(bb_view(pawn_movs) =~= pawn_pushes(v));
        }
    } else {
        let a9 = pawns >> 9;
        let a7 = pawns >> 7;
        pawn_attacks = (a9 & !0x8080_8080_8080_8080u64) | (a7 & !0x0101_0101_0101_0101u64);
        pawn_movs = pawns >> 8;
        proof {
            lemma_view_shr(pawns, 7);
            lemma_view_shr(pawns, 9);
            lemma_view_shr(pawns, 8);
            lemma_view_and(a9, !0x8080_8080_8080_8080u64);
            lemma_view_and(a7, !0x0101_0101_0101_0101u64);
            lemma_view_or(a9 & !0x8080_8080_8080_8080u64, a7 & !0x0101_0101_0101_0101u64);
            assert(bb_view(pawn_attacks) =~= pawn_captures(v));
            assert(bb_view(pawn_movs) =~= pawn_pushes(v));
        }
    }
    proof {
        lemma_view_and(pawn_attacks, them);
        lemma_view_empty(pawn_attacks & them);
        if bb_view(pawn_attacks & them) == Set::<int>::empty() {
            assert(pawn_captures(v).disjoint(bb_view(them))) by {
                assert forall|x: int| pawn_captures(v).contains(x) implies !bb_view(them).contains(x) by {
                    assert(!bb_view(pawn_attacks & them).contains(x));
                }
            }
        } else {
            lemma_nonempty_has(bb_view(pawn_attacks & them));
            let x = choose|x: int| bb_view(pawn_attacks & them).contains(x);
            assert(bb_view(pawn_attacks & them).contains(x));
        }
    }
    if pawn_attacks & them != 0 {
        return false;
    }
    if board.ep_square != 0 && bb_test(pawn_attacks, board.ep_square) {
        return false;
    }
    proof {
        lemma_view_and_not(pawn_movs, board.occupied[0]);
        lemma_view_empty(pawn_movs & !board.occupied[0]);
        if bb_view(pawn_movs & !board.occupied[0]) == Set::<int>::empty() {
            assert forall|x: int| pawn_pushes(v).contains(x) implies v.occ[0].contains(x) by {
                assert(!bb_view(pawn_movs & !board.occupied[0]).contains(x));
            }
        } else {
            lemma_nonempty_has(bb_view(pawn_movs & !board.occupied[0]));
            let x = choose|x: int| bb_view(pawn_movs & !board.occupied[0]).contains(x);
            assert(bb_view(pawn_movs & !board.occupied[0]).contains(x));
        }
    }
    if pawn_movs & !board.occupied[0] != 0 {
        return false;
    }
    let knight_deltas = KNIGHT_DELTAS();
    let knights = board.occupied[2] & us;
    proof {
        lemma_view_and(board.occupied[2], us);
        lemma_view_full();
    }
    if any_mobile(knights, knight_deltas.as_slice(), 0xffff_ffff_ffff_ffff, us) {
        return false;
    }
    let bishop_deltas = BISHOP_DELTAS();
    let diagonal = (board.occupied[3] | board.occupied[5] | board.occupied[6]) & us;
    proof {
        lemma_view_or(board.occupied[3], board.occupied[5]);
        lemma_view_or(board.occupied[3] | board.occupied[5], board.occupied[6]);
        lemma_view_and(board.occupied[3] | board.occupied[5] | board.occupied[6], us);
    }
    if any_mobile(diagonal, bishop_deltas.as_slice(), board.occupied[0], us) {
        return false;
    }
    let rook_deltas = ROOK_DELTAS();
    let straight = (board.occupied[4] | board.occupied[5] | board.occupied[6]) & us;
    proof {
        lemma_view_or(board.occupied[4], board.occupied[5]);
        lemma_view_or(board.occupied[4] | board.occupied[5], board.occupied[6]);
        lemma_view_and(board.occupied[4] | board.occupied[5] | board.occupied[6], us);
    }
    if any_mobile(straight, rook_deltas.as_slice(), board.occupied[0], us) {
        return false;
    }
    true
}


// ---- text pictures of the board ----

/// One rank of a picture: the cell of each file, separated by spaces and
/// ended by a newline.
pub open spec fn row_text(cell: spec_fn(int) -> u8, rank: int) -> Seq<u8> {
    Seq::new(
        16,
        |c: int|
            if c % 2 == 0 {
                cell(rank * 8 + c / 2)
            } else if c / 2 < 7 {
                ' ' as u8
            } else {
                '\n' as u8
            },
    )
}

/// The first `n` ranks of a picture, from the eighth rank down.
pub open spec fn grid_text(cell: spec_fn(int) -> u8, n: int) -> Seq<u8>
    decreases n,
{
    if n <= 0 {
        Seq::empty()
    } else {
        grid_text(cell, n - 1) + row_text(cell, 8 - n)
    }
}

/// The cell of a bitboard picture: `1` for a square of the bitboard, `.`
/// otherwise.
pub open spec fn bb_cell(bb: u64) -> spec_fn(int) -> u8 {
    |s: int| if bb_view(bb).contains(s) { '1' as u8 } else { '.' as u8 }
}

/// The cell of a board picture: `.` for an empty square, the piece letter
/// otherwise, uppercase for white.
pub open spec fn board_cell(v: BoardView) -> spec_fn(int) -> u8 {
    |s: int|
        if piece_type_at(v, s) == Enum1::kNone {
            '.' as u8
        } else if v.co[1].contains(s) {
            piece_letter_upper(piece_type_at(v, s))
        } else {
            piece_letter_lower(piece_type_at(v, s))
        }
}

/// A picture of a bitboard, eighth rank first (`bb_debug`).
pub fn bb_debug(bb: u64) -> (text: Vec<u8>)
    ensures
        text@ == grid_text(bb_cell(bb), 8),
{
    let mut out: Vec<u8> = Vec::new();
    let mut n: u8 = 0;
    while n < 8
        invariant
            n <= 8,
            out@ == grid_text(bb_cell(bb), n as int),
        decreases 8 - n,
    {
        let rank: u8 = 7 - n;
        let ghost start = out@;
        let mut file: u8 = 0;
        while file < 8
            invariant
                file <= 8,
                rank < 8,
                out@ == start + row_text(bb_cell(bb), rank as int).take(2 * file),
            decreases 8 - file,
        {
            let square: u8 = rank * 8 + file;
            if bb_test(bb, square) {
                out.push('1' as u8);
            } else {
                out.push('.' as u8);
            }
            if file < 7 {
                out.push(' ' as u8);
            } else {
                out.push('\n' as u8);
            }
            proof {
                let row = row_text(bb_cell(bb), rank as int);
                assert(row.take(2 * file + 2) =~= row.take(2 * file as int).push(row[2 * file as int]).push(
                    row[2 * file + 1],
                ));
            }
            file = file + 1;
            assert(out@ =~= start + row_text(bb_cell(bb), rank as int).take(2 * file));
        }
        assert(row_text(bb_cell(bb), rank as int).take(16) =~= row_text(bb_cell(bb), rank as int));
        n = n + 1;
    }
    out
}

/// A picture of a board, eighth rank first (`board_debug`).
pub fn board_debug(board: &board) -> (text: Vec<u8>)
    ensures
        text@ == grid_text(board_cell(board@), 8),
{
    let mut out: Vec<u8> = Vec::new();
    let mut n: u8 = 0;
    let ghost cell = board_cell(board@);
    while n < 8
        invariant
            n <= 8,
            cell == board_cell(board@),
            out@ == grid_text(cell, n as int),
        decreases 8 - n,
    {
        let rank: u8 = 7 - n;
        let ghost start = out@;
        let mut file: u8 = 0;
        while file < 8
            invariant
                file <= 8,
                rank < 8,
                cell == board_cell(board@),
                out@ == start + row_text(cell, rank as int).take(2 * file),
            decreases 8 - file,
        {
            let square: u8 = rank * 8 + file;
            let pt = board_piece_type_at(board, square);
            if pt == Enum1::kNone {
                out.push('.' as u8);
            } else if bb_test(board.occupied_co[1], square) {
                out.push(piece_char_upper(pt));
            } else {
                out.push(piece_char_lower(pt));
            }
            if file < 7 {
                out.push(' ' as u8);
            } else {
                out.push('\n' as u8);
            }
            proof {
                let row = row_text(cell, rank as int);
                assert(row.take(2 * file + 2) =~= row.take(2 * file as int).push(row[2 * file as int]).push(
                    row[2 * file + 1],
                ));
            }
            file = file + 1;
            assert(out@ =~= start + row_text(cell, rank as int).take(2 * file));
        }
        assert(row_text(cell, rank as int).take(16) =~= row_text(cell, rank as int));
        n = n + 1;
    }
    out
}


/// Playing a move of the side to move on a well-formed position puts the
/// mover (or the piece it promotes to) on the target square in the mover's
/// color, empties the origin square, and passes the turn.
pub proof fn lemma_board_mov_moves_piece(v: BoardView, mov: u16)
    requires
        wf(v),
        move_playable(v, mov),
        move_keeps_shape(v, mov),
        mov != 0,
        mover(v, mov) != Enum1::kNone,
        from_of(mov) != to_of(mov),
    ensures
        piece_type_at(move_model(v, mov), to_of(mov)) == (if promotion_of(mov) != Enum1::kNone {
            promotion_of(mov)
        } else {
            mover(v, mov)
        }),
        move_model(v, mov).co[v.turn.index()].contains(to_of(mov)),
        !move_model(v, mov).co[v.turn.other().index()].contains(to_of(mov)),
        !move_model(v, mov).occ[0].contains(from_of(mov)),
        move_model(v, mov).turn == v.turn.other(),
{
    lemma_board_mov_keeps_wf(v, mov);
    let r = move_model(v, mov);
    assert(square_consistent(v, from_of(mov)));
    assert(square_consistent(v, to_of(mov)));
    assert(square_consistent(r, to_of(mov)));
    assert(square_consistent(r, from_of(mov)));
}

} // verus!
