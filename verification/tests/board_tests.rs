use antichess_tree::bits::{bb_lsb, bb_poplsb};
use antichess_tree::board::{
    attacks_sliding, bb_debug, board, board_debug, board_is_game_over, board_mov,
    board_piece_type_at, board_reset, square_distance, Enum1, Enum2, KNIGHT_DELTAS, ROOK_DELTAS,
};
use antichess_tree::moves::mov_parse;

fn start() -> board {
    let mut b = board { occupied_co: [0; 2], occupied: [0; 7], turn: Enum2::kBlack, ep_square: 9 };
    board_reset(&mut b);
    b
}

#[test]
fn reset_sets_up_the_start_position() {
    let b = start();
    assert_eq!(b.occupied_co, [0xffff_0000_0000_0000, 0xffff]);
    assert_eq!(b.occupied[0], 0xffff_0000_0000_ffff);
    assert_eq!(b.occupied[1], 0x00ff_0000_0000_ff00);
    assert_eq!(b.occupied[6], 0x1000_0000_0000_0010);
    assert_eq!(b.turn, Enum2::kWhite);
    assert_eq!(b.ep_square, 0);
    assert_eq!(board_piece_type_at(&b, 4), Enum1::kKing);
    assert_eq!(board_piece_type_at(&b, 59), Enum1::kQueen);
    assert_eq!(board_piece_type_at(&b, 30), Enum1::kNone);
}

#[test]
fn double_push_sets_en_passant_square() {
    let mut b = start();
    board_mov(&mut b, mov_parse(b"e2e4"));
    assert_eq!(b.turn, Enum2::kBlack);
    assert_eq!(b.ep_square, 20);
    assert_eq!(b.occupied[1] & (1 << 12), 0);
    assert_ne!(b.occupied[1] & (1 << 28), 0);
    assert_ne!(b.occupied_co[1] & (1 << 28), 0);
    board_mov(&mut b, mov_parse(b"d7d5"));
    assert_eq!(b.ep_square, 43);
}

#[test]
fn en_passant_capture_removes_the_pawn() {
    let mut b = start();
    for m in [b"e2e4", b"a7a6", b"e4e5", b"d7d5", b"e5d6"] {
        board_mov(&mut b, mov_parse(m));
    }
    assert_eq!(b.occupied_co[0] & (1 << 35), 0);
    assert_eq!(b.occupied[1] & (1 << 35), 0);
    assert_eq!(b.occupied[0] & (1 << 35), 0);
    assert_ne!(b.occupied[1] & (1 << 43), 0);
    assert_eq!(b.ep_square, 0);
}

#[test]
fn capture_replaces_the_piece() {
    let mut b = start();
    for m in [b"e2e4", b"d7d5", b"e4d5"] {
        board_mov(&mut b, mov_parse(m));
    }
    assert_eq!(b.occupied_co[0] & (1 << 35), 0);
    assert_ne!(b.occupied_co[1] & (1 << 35), 0);
    assert_eq!(b.occupied[0].count_ones(), 31);
}

#[test]
fn promotion_places_the_new_piece() {
    let mut b = board { occupied_co: [0, 1 << 48], occupied: [1 << 48, 1 << 48, 0, 0, 0, 0, 0], turn: Enum2::kWhite, ep_square: 0 };
    board_mov(&mut b, mov_parse(b"a7a8q"));
    assert_eq!(b.occupied[5], 1 << 56);
    assert_eq!(b.occupied[1], 0);
    assert_eq!(b.occupied_co[1], 1 << 56);
}

#[test]
fn null_move_and_empty_origin() {
    let mut b = start();
    let before = b;
    board_mov(&mut b, 0);
    assert_eq!(b.occupied, before.occupied);
    assert_eq!(b.turn, Enum2::kWhite);
    b.ep_square = 5;
    board_mov(&mut b, mov_parse(b"e4e5"));
    assert_eq!(b.ep_square, 0);
    assert_eq!(b.turn, Enum2::kWhite);
    assert_eq!(b.occupied, before.occupied);
}

#[test]
fn game_over_rules() {
    let b = start();
    assert!(!board_is_game_over(&b));
    let lone = board { occupied_co: [0, 1 << 4], occupied: [1 << 4, 0, 0, 0, 0, 0, 1 << 4], turn: Enum2::kWhite, ep_square: 0 };
    assert!(board_is_game_over(&lone));
    // A white pawn on a2 blocked by a black pawn on a3: white cannot move.
    let blocked = board {
        occupied_co: [1 << 16, 1 << 8],
        occupied: [(1 << 16) | (1 << 8), (1 << 16) | (1 << 8), 0, 0, 0, 0, 0],
        turn: Enum2::kWhite,
        ep_square: 0,
    };
    assert!(board_is_game_over(&blocked));
    let black_to_move = board { turn: Enum2::kBlack, ..blocked };
    assert!(board_is_game_over(&black_to_move));
    // A white rook on a1 with a free file can move.
    let rook = board { occupied_co: [1 << 63, 1], occupied: [1 | (1 << 63), 0, 0, 0, 1, 0, 1 << 63], turn: Enum2::kWhite, ep_square: 0 };
    assert!(!board_is_game_over(&rook));
}

#[test]
fn sliding_attacks() {
    let rook = ROOK_DELTAS();
    assert_eq!(attacks_sliding(&rook, 0, 0), 0xfe | 0x0101_0101_0101_0100);
    assert_eq!(attacks_sliding(&rook, 0, 0x0100 | 0x04), 0x0100 | 0x02 | 0x04);
    let knight = KNIGHT_DELTAS();
    assert_eq!(attacks_sliding(&knight, 1, u64::MAX), (1 << 11) | (1 << 16) | (1 << 18));
    assert_eq!(attacks_sliding(&knight, 63, u64::MAX), (1 << 46) | (1 << 53));
    assert_eq!(square_distance(0, 63), 7);
    assert_eq!(square_distance(7, 8), 7);
    assert_eq!(square_distance(27, 36), 1);
}

#[test]
fn lowest_square() {
    assert_eq!(bb_lsb(0b1000), 3);
    let mut bb: u64 = (1 << 40) | (1 << 5);
    assert_eq!(bb_poplsb(&mut bb), 5);
    assert_eq!(bb, 1 << 40);
    assert_eq!(bb_poplsb(&mut bb), 40);
    assert_eq!(bb, 0);
}

#[test]
fn pictures() {
    let text = bb_debug(1);
    let expected = ". . . . . . . .\n".repeat(7) + "1 . . . . . . .\n";
    assert_eq!(text, expected.into_bytes());
    let b = start();
    let expected = "r n b q k b n r\np p p p p p p p\n".to_string()
        + &". . . . . . . .\n".repeat(4)
        + "P P P P P P P P\nR N B Q K B N R\n";
    assert_eq!(board_debug(&b), expected.into_bytes());
}

#[test]
fn moves_keep_the_position_consistent() {
    let mut b = start();
    for m in [b"e2e4", b"d7d5", b"e4d5", b"d8d5", b"b1c3", b"d5a2", b"a1a2", b"b7b5", b"c3b5"] {
        board_mov(&mut b, mov_parse(m));
        assert_eq!(b.occupied[0], b.occupied_co[0] | b.occupied_co[1]);
        assert_eq!(b.occupied_co[0] & b.occupied_co[1], 0);
        let mut union = 0;
        for p in 1..7 {
            assert_eq!(union & b.occupied[p], 0);
            union |= b.occupied[p];
        }
        assert_eq!(union, b.occupied[0]);
    }
    assert_eq!(board_piece_type_at(&b, 33), Enum1::kKnight);
    assert_eq!(b.turn, Enum2::kBlack);
}
