//! Standard algebraic notation of a move, as antichess writes it: no check
//! marks, `#` when the game is over after the move.
use vstd::prelude::*;
use crate::bits::{bb_view, all_squares, bb_poplsb, bb_test, lemma_view_and, lemma_view_or, lemma_view_full, lemma_view_zero, lemma_view_empty};
use crate::board::{
    board, BoardView, Enum1, Enum2, piece_type_at, sliding, king_steps, knight_steps, rook_steps,
    bishop_steps, attacks_sliding, KING_DELTAS, KNIGHT_DELTAS, ROOK_DELTAS, BISHOP_DELTAS,
    board_piece_type_at, board_mov, board_is_game_over, move_model, move_playable,
    game_over_defined, game_over,
};
use crate::moves::{
    from_of, to_of, promotion_of, file_of, rank_of, square_text, piece_letter_upper, mov_from, mov_to,
    mov_promotion, square_file, square_rank, piece_char_upper,
};

verus! {

/// The squares from which a piece of type `pt` of the side to move could
/// have come to `to`: the squares that such a piece attacks from `to`
/// (kings and sliders stopping at occupied squares, knights jumping), among
/// the pieces of that type and color.
pub open spec fn candidates(v: BoardView, pt: Enum1, to: int) -> Set<int> {
    let all = v.occ[0];
    let reach = if pt == Enum1::kKing {
        sliding(king_steps(), to, all)
    } else if pt == Enum1::kKnight {
        sliding(knight_steps(), to, all_squares())
    } else if pt == Enum1::kRook {
        sliding(rook_steps(), to, all)
    } else if pt == Enum1::kQueen {
        sliding(rook_steps(), to, all).union(sliding(bishop_steps(), to, all))
    } else if pt == Enum1::kBishop {
        sliding(bishop_steps(), to, all)
    } else {
        Set::empty()
    };
    reach.intersect(v.occ[pt.index()]).intersect(v.co[v.turn.index()])
}

/// Another candidate stands on a different file: the origin file is written.
pub open spec fn needs_file(c: Set<int>, from: int) -> bool {
    exists|s: int| #[trigger] c.contains(s) && s != from && file_of(s) != file_of(from)
}

/// Another candidate stands on the same file: the origin rank is written.
pub open spec fn needs_rank(c: Set<int>, from: int) -> bool {
    exists|s: int| #[trigger] c.contains(s) && s != from && file_of(s) == file_of(from)
}

/// The origin part of a move's text: the file and `x` for a pawn capture;
/// for a piece its letter, the origin file and rank where other pieces of
/// the same kind could also reach the target, and `x` when the target is
/// occupied.
pub open spec fn san_prefix(v: BoardView, mov: u16) -> Seq<u8> {
    let from = from_of(mov);
    let to = to_of(mov);
    let pt = piece_type_at(v, from);
    let c = candidates(v, pt, to);
    if pt == Enum1::kPawn {
        if file_of(from) != file_of(to) {
            seq![('a' as u8 + file_of(from)) as u8, 'x' as u8]
        } else {
            Seq::empty()
        }
    } else {
        seq![piece_letter_upper(pt)] + (if needs_file(c, from) {
            seq![('a' as u8 + file_of(from)) as u8]
        } else {
            Seq::empty()
        }) + (if needs_rank(c, from) {
            seq![('1' as u8 + rank_of(from)) as u8]
        } else {
            Seq::empty()
        }) + (if v.occ[0].contains(to) {
            seq!['x' as u8]
        } else {
            Seq::empty()
        })
    }
}

/// The text of a move: `--` for the null move or a move from an empty
/// square; otherwise the origin part, the target square, `=` and the piece
/// letter for a promotion, and `#` when the game is over after the move.
pub open spec fn san_text(v: BoardView, mov: u16) -> Seq<u8> {
    let pt = piece_type_at(v, from_of(mov));
    if mov == 0 || pt == Enum1::kNone {
        seq!['-' as u8, '-' as u8]
    } else {
        san_prefix(v, mov) + square_text(to_of(mov)) + (if promotion_of(mov) != Enum1::kNone {
            seq!['=' as u8, piece_letter_upper(promotion_of(mov))]
        } else {
            Seq::empty()
        }) + (if game_over(move_model(v, mov)) {
            seq!['#' as u8]
        } else {
            Seq::empty()
        })
    }
}

/// Moves whose text `board_san` can write: the move can be played, and the
/// position after it can be judged.
pub open spec fn san_defined(v: BoardView, mov: u16) -> bool {
    mov != 0 && piece_type_at(v, from_of(mov)) != Enum1::kNone ==> move_playable(v, mov)
        && game_over_defined(move_model(v, mov))
}

/// The squares from which a piece of type `pt` could have reached `to`.
fn candidate_squares(board: &board, pt: Enum1, to: u8) -> (r: u64)
    requires
        to < 64,
    ensures
        bb_view(r) == candidates(board@, pt, to as int),
{
    let mut reach: u64 = 0;
    let ghost all = board@.occ[0];
    proof {
        lemma_view_zero();
        lemma_view_full();
    }
    if pt == Enum1::kKing {
        let d = KING_DELTAS();
        reach = attacks_sliding(d.as_slice(), to, board.occupied[0]);
    }
    if pt == Enum1::kKnight {
        let d = KNIGHT_DELTAS();
        reach = attacks_sliding(d.as_slice(), to, 0xffff_ffff_ffff_ffff);
    }
    if pt == Enum1::kRook || pt == Enum1::kQueen {
        let d = ROOK_DELTAS();
        let a = attacks_sliding(d.as_slice(), to, board.occupied[0]);
        proof {
            lemma_view_or(reach, a);
        }
        reach = reach | a;
    }
    if pt == Enum1::kBishop || pt == Enum1::kQueen {
        let d = BISHOP_DELTAS();
        let a = attacks_sliding(d.as_slice(), to, board.occupied[0]);
        proof {
            lemma_view_or(reach, a);
        }
        reach = reach | a;
    }
    let ghost before = bb_view(reach);
    let pti = pt.idx();
    let us = board.turn.idx();
    let mine = board.occupied[pti] & board.occupied_co[us];
    proof {
        lemma_view_and(board.occupied[pti as int], board.occupied_co[us as int]);
        lemma_view_and(reach, mine);
        assert(bb_view(reach & mine) =~= candidates(board@, pt, to as int));
    }
    reach & mine
}

/// Whether the origin file and the origin rank must be written.
fn disambiguation(board: &board, pt: Enum1, from: u8, to: u8) -> (r: (bool, bool))
    requires
        from < 64,
        to < 64,
    ensures
        r.0 == needs_file(candidates(board@, pt, to as int), from as int),
        r.1 == needs_rank(candidates(board@, pt, to as int), from as int),
{
    let all_candidates = candidate_squares(board, pt, to);
    let mut candidates = all_candidates;
    let ghost c = bb_view(all_candidates);
    let mut rank = false;
    let mut file = false;
    while candidates != 0
        invariant
            bb_view(candidates).subset_of(c),
            from < 64,
            file == exists|s: int|
                #[trigger] c.contains(s) && !bb_view(candidates).contains(s) && s != from
                    && file_of(s) != file_of(from as int),
            rank == exists|s: int|
                #[trigger] c.contains(s) && !bb_view(candidates).contains(s) && s != from
                    && file_of(s) == file_of(from as int),
        decreases candidates,
    {
        let ghost old_rest = bb_view(candidates);
        let square = bb_poplsb(&mut candidates);
        if square == from {
            assert forall|s: int| #[trigger] c.contains(s) && !bb_view(candidates).contains(s) && s != from
                implies !old_rest.contains(s) by {}
            continue;
        }
        if square_rank(from) == square_rank(square) {
            file = true;
        }
        if square_file(from) == square_file(square) {
            rank = true;
        } else {
            file = true;
        }
        proof {
            assert(c.contains(square as int) && !bb_view(candidates).contains(square as int));
            if rank_of(from as int) == rank_of(square as int) && file_of(from as int) == file_of(square as int) {
                assert(square == from);
            }
        }
    }
    proof {
        lemma_view_empty(candidates);
    }
    assert(needs_file(c, from as int) == file) by {
        if needs_file(c, from as int) {
            let s = choose|s: int| #[trigger] c.contains(s) && s != from && file_of(s) != file_of(from as int);
            assert(!bb_view(candidates).contains(s));
        }
    }
    assert(needs_rank(c, from as int) == rank) by {
        if needs_rank(c, from as int) {
            let s = choose|s: int| #[trigger] c.contains(s) && s != from && file_of(s) == file_of(from as int);
            assert(!bb_view(candidates).contains(s));
        }
    }
    (file, rank)
}

/// The origin part of a move's text.
fn san_origin(board: &board, mov: u16, pt: Enum1) -> (out: Vec<u8>)
    requires
        pt == piece_type_at(board@, from_of(mov)),
    ensures
        out@ == san_prefix(board@, mov),
{
    let from = mov_from(mov);
    let to = mov_to(mov);
    let mut out: Vec<u8> = Vec::new();
    if pt == Enum1::kPawn {
        if square_file(from) != square_file(to) {
            out.push(('a' as i32 + square_file(from)) as u8);
            out.push('x' as u8);
        }
    } else {
        out.push(piece_char_upper(pt));
        let (file, rank) = disambiguation(board, pt, from, to);
        if file {
            out.push(('a' as i32 + square_file(from)) as u8);
        }
        if rank {
            out.push(('1' as i32 + square_rank(from)) as u8);
        }
        if bb_test(board.occupied[0], to) {
            out.push('x' as u8);
        }
    }
    assert(out@ =~= san_prefix(board@, mov));
    out
}

/// The target part of a move's text: the target square, the promotion,
/// and `#` when the game is over after the move.
pub open spec fn san_suffix(v: BoardView, mov: u16) -> Seq<u8> {
    square_text(to_of(mov)) + (if promotion_of(mov) != Enum1::kNone {
        seq!['=' as u8, piece_letter_upper(promotion_of(mov))]
    } else {
        Seq::empty()
    }) + (if game_over(move_model(v, mov)) {
        seq!['#' as u8]
    } else {
        Seq::empty()
    })
}

/// The target part of a move's text.
fn san_target(board: &board, mov: u16) -> (out: Vec<u8>)
    requires
        mov != 0,
        piece_type_at(board@, from_of(mov)) != Enum1::kNone,
        san_defined(board@, mov),
    ensures
        out@ == san_suffix(board@, mov),
{
    let to = mov_to(mov);
    let mut out: Vec<u8> = Vec::new();
    out.push(('a' as i32 + square_file(to)) as u8);
    out.push(('1' as i32 + square_rank(to)) as u8);
    let promotion = mov_promotion(mov);
    if promotion != Enum1::kNone {
        out.push('=' as u8);
        out.push(piece_char_upper(promotion));
    }
    let mut board_after = *board;
    board_mov(&mut board_after, mov);
    if board_is_game_over(&board_after) {
        out.push('#' as u8);
    }
    assert(out@ =~= san_suffix(board@, mov));
    out
}

/// Writes a move in standard algebraic notation (`board_san`), such as
/// `Bxa6`, `Nbd7`, `exd6` or `e8=Q#`.
pub fn board_san(board: &board, mov: u16) -> (san: Vec<u8>)
    requires
        san_defined(board@, mov),
    ensures
        san@ == san_text(board@, mov),
{
    let from = mov_from(mov);
    let pt = board_piece_type_at(board, from);
    if mov == 0 || pt == Enum1::kNone {
        let mut out: Vec<u8> = Vec::new();
        out.push('-' as u8);
        out.push('-' as u8);
        assert(out@ =~= san_text(board@, mov));
        return out;
    }
    let mut out = san_origin(board, mov, pt);
    let mut tail = san_target(board, mov);
    out.append(&mut tail);
    assert(out@ =~= san_prefix(board@, mov) + san_suffix(board@, mov));
    assert(out@ =~= san_text(board@, mov));
    out
}

/// The text of a move of a piece ends with `#` exactly when the game is
/// over after the move, and no text has a `+`: antichess writes no check.
pub proof fn lemma_san_mate_mark(v: BoardView, mov: u16)
    ensures
        mov != 0 && piece_type_at(v, from_of(mov)) != Enum1::kNone ==> (san_text(v, mov).last() == '#' as u8
            <==> game_over(move_model(v, mov))),
        !san_text(v, mov).contains('+' as u8),
{
    let t = san_text(v, mov);
    let from = from_of(mov);
    let to = to_of(mov);
    assert(0 <= file_of(to) < 8 && 0 <= rank_of(to) < 8);
    assert(0 <= file_of(from) < 8 && 0 <= rank_of(from) < 8);
    let pt = piece_type_at(v, from);
    if !(mov == 0 || pt == Enum1::kNone) {
        let pre = san_prefix(v, mov);
        let sq = square_text(to);
        let promo = if promotion_of(mov) != Enum1::kNone {
            seq!['=' as u8, piece_letter_upper(promotion_of(mov))]
        } else {
            Seq::empty()
        };
        let mate = if game_over(move_model(v, mov)) {
            seq!['#' as u8]
        } else {
            Seq::empty()
        };
        assert(t =~= pre + sq + promo + mate);
        assert(forall|k: int| 0 <= k < pre.len() ==> pre[k] != '+' as u8 && pre[k] != '#' as u8);
        assert(forall|k: int| 0 <= k < promo.len() ==> promo[k] != '+' as u8 && promo[k] != '#' as u8);
        assert(!mate.contains('+' as u8));
        assert(sq[0] != '+' as u8 && sq[1] != '+' as u8 && sq[1] != '#' as u8);
        assert forall|k: int| 0 <= k < t.len() implies t[k] != '+' as u8 by {
            if k < pre.len() {
                assert(t[k] == pre[k]);
            } else if k < pre.len() + 2 {
                assert(t[k] == sq[k - pre.len()]);
            } else if k < pre.len() + 2 + promo.len() {
                assert(t[k] == promo[k - pre.len() - 2]);
            } else {
                assert(t[k] == mate[k - pre.len() - 2 - promo.len()]);
            }
        }
        if !game_over(move_model(v, mov)) {
            if promo.len() == 0 {
                assert(t.last() == sq[1]);
            } else {
                assert(t.last() == promo[1]);
            }
        }
    } else {
        assert(t =~= seq!['-' as u8, '-' as u8]);
    }
}

/// The pieces that could have come to the target are pieces of the side
/// to move, of the moving piece's type: an enemy piece never makes the
/// text name an origin file or rank.
pub proof fn lemma_candidates_are_own_pieces(v: BoardView, pt: Enum1, to: int)
    ensures
        candidates(v, pt, to).subset_of(v.co[v.turn.index()]),
        candidates(v, pt, to).subset_of(v.occ[pt.index()]),
{
}

/// With no other piece of its type and color on the board, a piece's move
/// names no origin file or rank.
pub proof fn lemma_lone_piece_needs_no_origin(v: BoardView, pt: Enum1, from: int, to: int)
    requires
        forall|s: int| s != from && #[trigger] v.occ[pt.index()].contains(s) ==> !v.co[v.turn.index()].contains(s),
    ensures
        !needs_file(candidates(v, pt, to), from),
        !needs_rank(candidates(v, pt, to), from),
{
    lemma_candidates_are_own_pieces(v, pt, to);
    let c = candidates(v, pt, to);
    assert forall|s: int| #[trigger] c.contains(s) implies s == from by {
        assert(v.occ[pt.index()].contains(s) && v.co[v.turn.index()].contains(s));
    }
}

} // verus!
