use antichess_tree::board::Enum1;
use antichess_tree::moves::{
    c_strlen, mov_from, mov_parse, mov_promotion, mov_to, mov_uci, square_file, square_rank,
};

#[test]
fn parse_plain_moves() {
    assert_eq!(mov_parse(b"e2e4"), 796);
    assert_eq!(mov_parse(b"a1a2"), 8);
    assert_eq!(mov_parse(b"h8h1"), 7 + 64 * 63);
    assert_eq!(mov_parse(b"e2e4\0junk"), 796);
}

#[test]
fn parse_promotions() {
    assert_eq!(mov_parse(b"e7e8q"), 60 + 64 * 52 + (5 << 12));
    assert_eq!(mov_parse(b"e7e8n"), 60 + 64 * 52 + (2 << 12));
    assert_eq!(mov_parse(b"e7e8k"), 60 + 64 * 52 + (6 << 12));
    assert_eq!(mov_parse(b"e7e8x"), 0);
    assert_eq!(mov_parse(b"e7e8p"), 0);
}

#[test]
fn parse_rejects_lengths() {
    assert_eq!(mov_parse(b"e2e"), 0);
    assert_eq!(mov_parse(b"e2e4qq"), 0);
    assert_eq!(mov_parse(b""), 0);
    assert_eq!(c_strlen(b"ab\0cd"), 2);
    assert_eq!(c_strlen(b"abc"), 3);
}

#[test]
fn uci_text() {
    assert_eq!(mov_uci(796), b"e2e4".to_vec());
    assert_eq!(mov_uci(0), b"(none)".to_vec());
    assert_eq!(mov_uci(60 + 64 * 52 + (5 << 12)), b"e7e8q".to_vec());
    assert_eq!(mov_uci(60 + 64 * 52 + (1 << 12)), b"e7e8".to_vec());
    for m in [b"b1c3".as_slice(), b"g7g8r", b"a2a1k", b"h1a8"] {
        assert_eq!(mov_uci(mov_parse(m)), m.to_vec());
    }
}

#[test]
fn move_parts() {
    let m = mov_parse(b"b1c3");
    assert_eq!(mov_from(m), 1);
    assert_eq!(mov_to(m), 18);
    assert_eq!(square_file(18), 2);
    assert_eq!(square_rank(18), 2);
    assert_eq!(mov_promotion(m), Enum1::kNone);
    assert_eq!(mov_promotion(mov_parse(b"c7c8b")), Enum1::kBishop);
    assert_eq!(mov_promotion(7 << 12), Enum1::kNone);
}
