use antichess_tree::board::{board, board_is_game_over, board_mov, board_reset, Enum2};
use antichess_tree::moves::mov_parse;
use antichess_tree::san::board_san;

fn empty_board() -> board {
    board { occupied_co: [0; 2], occupied: [0; 7], turn: Enum2::kWhite, ep_square: 0 }
}

#[test]
fn test_san() {
    let mut board = empty_board();
    board_reset(&mut board);
    board_mov(&mut board, mov_parse(b"e2e3"));
    board_mov(&mut board, mov_parse(b"b7b6"));
    board_mov(&mut board, mov_parse(b"a2a4"));
    board_mov(&mut board, mov_parse(b"c8a6"));
    let bxa6 = mov_parse(b"f1a6");
    assert_eq!(board_san(&board, bxa6), b"Bxa6".to_vec());
    board_mov(&mut board, bxa6);
    board_mov(&mut board, mov_parse(b"b8a6"));
    board_mov(&mut board, mov_parse(b"b2b4"));
    board_mov(&mut board, mov_parse(b"a6b4"));
    board_mov(&mut board, mov_parse(b"d1h5"));
    let nxc2 = mov_parse(b"b4c2");
    assert_eq!(board_san(&board, nxc2), b"Nxc2".to_vec());
}

#[test]
fn pawn_moves_and_null_moves() {
    let mut b = empty_board();
    board_reset(&mut b);
    assert_eq!(board_san(&b, mov_parse(b"e2e4")), b"e4".to_vec());
    assert_eq!(board_san(&b, mov_parse(b"g1f3")), b"Nf3".to_vec());
    assert_eq!(board_san(&b, 0), b"--".to_vec());
    assert_eq!(board_san(&b, mov_parse(b"e4e5")), b"--".to_vec());
    board_mov(&mut b, mov_parse(b"e2e4"));
    board_mov(&mut b, mov_parse(b"d7d5"));
    assert_eq!(board_san(&b, mov_parse(b"e4d5")), b"exd5".to_vec());
}

#[test]
fn disambiguation() {
    // White knights on b1 and f3, kings on h1 and h8.
    let knights = (1u64 << 1) | (1 << 21);
    let b = board {
        occupied_co: [1 << 63, knights | (1 << 7)],
        occupied: [knights | (1 << 7) | (1 << 63), 0, knights, 0, 0, 0, (1 << 7) | (1 << 63)],
        turn: Enum2::kWhite,
        ep_square: 0,
    };
    assert_eq!(board_san(&b, mov_parse(b"b1d2")), b"Nbd2".to_vec());
    // White knights on b1 and b3.
    let knights = (1u64 << 1) | (1 << 17);
    let b = board {
        occupied_co: [1 << 63, knights | (1 << 7)],
        occupied: [knights | (1 << 7) | (1 << 63), 0, knights, 0, 0, 0, (1 << 7) | (1 << 63)],
        turn: Enum2::kWhite,
        ep_square: 0,
    };
    assert_eq!(board_san(&b, mov_parse(b"b1d2")), b"N1d2".to_vec());
}

#[test]
fn promotion_ending_the_game() {
    // White pawn on a7 and king on e1; black has no pieces after the move
    // only if it has none now: the game is over after any move.
    let b = board {
        occupied_co: [0, (1 << 48) | (1 << 4)],
        occupied: [(1 << 48) | (1 << 4), 1 << 48, 0, 0, 0, 0, 1 << 4],
        turn: Enum2::kWhite,
        ep_square: 0,
    };
    assert_eq!(board_san(&b, mov_parse(b"a7a8q")), b"a8=Q#".to_vec());
    // With a black king on h8 that can move, the game goes on.
    let b = board {
        occupied_co: [1 << 63, (1 << 48) | (1 << 4)],
        occupied: [(1 << 48) | (1 << 4) | (1 << 63), 1 << 48, 0, 0, 0, 0, (1 << 4) | (1 << 63)],
        turn: Enum2::kWhite,
        ep_square: 0,
    };
    assert_eq!(board_san(&b, mov_parse(b"a7a8n")), b"a8=N".to_vec());
}

#[test]
fn mate_mark_follows_the_game_over_test() {
    let over = board {
        occupied_co: [0, (1 << 48) | (1 << 4)],
        occupied: [(1 << 48) | (1 << 4), 1 << 48, 0, 0, 0, 0, 1 << 4],
        turn: Enum2::kWhite,
        ep_square: 0,
    };
    let mut start = empty_board();
    board_reset(&mut start);
    for (b, m) in [(over, "a7a8q"), (over, "e1e2"), (start, "e2e4"), (start, "g1f3")] {
        let mov = mov_parse(m.as_bytes());
        let san = board_san(&b, mov);
        let mut after = b;
        board_mov(&mut after, mov);
        assert_eq!(san.last() == Some(&b'#'), board_is_game_over(&after));
        assert!(!san.contains(&b'+'));
    }
}
