//! Moves are packed in a `u16`: bits 0..6 the target square, bits 6..12 the
//! origin square, bits 12..16 a promotion code (2 to 6 for knight to king).
//! The move `0` is the null move. Squares are numbered a1 = 0 to h8 = 63.
use vstd::prelude::*;
use crate::board::Enum1;

verus! {

/// The origin square of a move.
pub open spec fn from_of(mov: u16) -> int {
    ((mov / 64) % 64) as int
}

/// The target square of a move.
pub open spec fn to_of(mov: u16) -> int {
    (mov % 64) as int
}

/// The piece a move promotes to, `kNone` if the code is not one of 2 to 6.
pub open spec fn promotion_of(mov: u16) -> Enum1 {
    let k = mov / 4096;
    if k == 2 {
        Enum1::kKnight
    } else if k == 3 {
        Enum1::kBishop
    } else if k == 4 {
        Enum1::kRook
    } else if k == 5 {
        Enum1::kQueen
    } else if k == 6 {
        Enum1::kKing
    } else {
        Enum1::kNone
    }
}

/// The file (0 = a to 7 = h) of a square.
pub open spec fn file_of(s: int) -> int {
    s % 8
}

/// The rank (0 = first rank) of a square.
pub open spec fn rank_of(s: int) -> int {
    s / 8
}

/// Lowercase letter of a piece type as in UCI (`n`, `b`, `r`, `q`, `k`, `p`).
pub open spec fn piece_letter_lower(p: Enum1) -> u8 {
    match p {
        Enum1::kPawn => 'p' as u8,
        Enum1::kKnight => 'n' as u8,
        Enum1::kBishop => 'b' as u8,
        Enum1::kRook => 'r' as u8,
        Enum1::kQueen => 'q' as u8,
        Enum1::kKing => 'k' as u8,
        _ => 0u8,
    }
}

/// Uppercase letter of a piece type as in SAN (`P`, `N`, `B`, `R`, `Q`, `K`).
pub open spec fn piece_letter_upper(p: Enum1) -> u8 {
    match p {
        Enum1::kPawn => 'P' as u8,
        Enum1::kKnight => 'N' as u8,
        Enum1::kBishop => 'B' as u8,
        Enum1::kRook => 'R' as u8,
        Enum1::kQueen => 'Q' as u8,
        Enum1::kKing => 'K' as u8,
        _ => 0u8,
    }
}

/// Lowercase letter of a piece type.
pub fn piece_char_lower(p: Enum1) -> (r: u8)
    ensures
        r == piece_letter_lower(p),
{
    match p {
        Enum1::kPawn => ('p' as u8),
        Enum1::kKnight => ('n' as u8),
        Enum1::kBishop => ('b' as u8),
        Enum1::kRook => ('r' as u8),
        Enum1::kQueen => ('q' as u8),
        Enum1::kKing => ('k' as u8),
        _ => 0u8,
    }
}

/// Uppercase letter of a piece type.
pub fn piece_char_upper(p: Enum1) -> (r: u8)
    ensures
        r == piece_letter_upper(p),
{
    match p {
        Enum1::kPawn => ('P' as u8),
        Enum1::kKnight => ('N' as u8),
        Enum1::kBishop => ('B' as u8),
        Enum1::kRook => ('R' as u8),
        Enum1::kQueen => ('Q' as u8),
        Enum1::kKing => ('K' as u8),
        _ => 0u8,
    }
}

/// The origin square of a move.
pub fn mov_from(mov: u16) -> (r: u8)
    ensures
        r == from_of(mov),
        r < 64,
{
    assert(((mov >> 6u16) & 0x3fu16) == (mov / 64) % 64) by (bit_vector);
    ((mov >> 6) & 0x3f) as u8
}

/// The target square of a move.
pub fn mov_to(mov: u16) -> (r: u8)
    ensures
        r == to_of(mov),
        r < 64,
{
    assert((mov & 0x3fu16) == mov % 64) by (bit_vector);
    (mov & 0x3f) as u8
}

/// The file of a square.
pub fn square_file(square: u8) -> (r: i32)
    ensures
        r == file_of(square as int),
{
    assert((square & 7u8) == square % 8) by (bit_vector);
    (square & 7) as i32
}

/// The rank of a square.
pub fn square_rank(square: u8) -> (r: i32)
    ensures
        r == rank_of(square as int),
{
    assert((square >> 3u8) == square / 8) by (bit_vector);
    (square >> 3) as i32
}

/// The piece type a move promotes to, `kNone` for no promotion.
pub fn mov_promotion(mov: u16) -> (r: Enum1)
    ensures
        r == promotion_of(mov),
{
    let k = mov >> 12;
    assert((mov >> 12u16) == mov / 4096) by (bit_vector);
    if k == 2 {
        Enum1::kKnight
    } else if k == 3 {
        Enum1::kBishop
    } else if k == 4 {
        Enum1::kRook
    } else if k == 5 {
        Enum1::kQueen
    } else if k == 6 {
        Enum1::kKing
    } else {
        Enum1::kNone
    }
}

/// The bytes `(none)`.
pub open spec fn none_text() -> Seq<u8> {
    seq!['(' as u8, 'n' as u8, 'o' as u8, 'n' as u8, 'e' as u8, ')' as u8]
}

/// The two characters naming a square, such as `e4`.
pub open spec fn square_text(s: int) -> Seq<u8> {
    seq![('a' as u8 + file_of(s)) as u8, ('1' as u8 + rank_of(s)) as u8]
}

/// The UCI text of a move: origin, target and the promotion letter if any;
/// `(none)` for the null move.
pub open spec fn uci_text(mov: u16) -> Seq<u8> {
    if mov == 0 {
        none_text()
    } else {
        square_text(from_of(mov)) + square_text(to_of(mov)) + if promotion_of(mov) == Enum1::kNone {
            Seq::<u8>::empty()
        } else {
            seq![piece_letter_lower(promotion_of(mov))]
        }
    }
}

/// The UCI text of a move, such as `e2e4` or `e7e8q`.
pub fn mov_uci(mov: u16) -> (uci: Vec<u8>)
    ensures
        uci@ == uci_text(mov),
{
    let mut out: Vec<u8> = Vec::new();
    if mov == 0 {
        out.push(('(' as u8));
        out.push(('n' as u8));
        out.push(('o' as u8));
        out.push(('n' as u8));
        out.push(('e' as u8));
        out.push((')' as u8));
        assert(out@ =~= none_text());
    } else {
        let from = mov_from(mov);
        let to = mov_to(mov);
        out.push((('a' as u8) as i32 + square_file(from)) as u8);
        out.push((('1' as u8) as i32 + square_rank(from)) as u8);
        out.push((('a' as u8) as i32 + square_file(to)) as u8);
        out.push((('1' as u8) as i32 + square_rank(to)) as u8);
        let promotion = mov_promotion(mov);
        if promotion != Enum1::kNone {
            out.push(piece_char_lower(promotion));
        }
        assert(out@ =~= uci_text(mov));
    }
    out
}

/// The length of a NUL-terminated string held in `s`: the index of the first
/// zero byte, or the whole length when there is none.
pub open spec fn c_len(s: Seq<u8>) -> int
    decreases s.len(),
{
    if s.len() == 0 {
        0
    } else if s[0] == 0 {
        0
    } else {
        1 + c_len(s.drop_first())
    }
}

proof fn lemma_c_len_bounds(s: Seq<u8>)
    ensures
        0 <= c_len(s) <= s.len(),
        c_len(s) < s.len() ==> s[c_len(s)] == 0,
        forall|j: int| 0 <= j < c_len(s) ==> s[j] != 0,
    decreases s.len(),
{
    if s.len() > 0 && s[0] != 0 {
        lemma_c_len_bounds(s.drop_first());
        assert forall|j: int| 0 <= j < c_len(s) implies s[j] != 0 by {
            if j > 0 {
                assert(s[j] == s.drop_first()[j - 1]);
            }
        }
    }
}

proof fn lemma_c_len_step(s: Seq<u8>, i: int)
    requires
        0 <= i < s.len(),
        s[i] != 0,
    ensures
        c_len(s.skip(i)) == 1 + c_len(s.skip(i + 1)),
{
    assert(s.skip(i).drop_first() =~= s.skip(i + 1));
}

/// The length of the NUL-terminated string in `s`.
pub fn c_strlen(s: &[u8]) -> (n: usize)
    ensures
        n == c_len(s@),
{
    let mut i: usize = 0;
    assert(s@.skip(0) =~= s@);
    while i < s.len() && s[i] != 0
        invariant
            0 <= i <= s.len(),
            c_len(s@) == i + c_len(s@.skip(i as int)),
        decreases s.len() - i,
    {
        proof {
            lemma_c_len_step(s@, i as int);
        }
        i = i + 1;
    }
    proof {
        if i < s.len() {
            assert(s@.skip(i as int)[0] == s@[i as int]);
        } else {
            assert(s@.skip(i as int) =~= Seq::<u8>::empty());
        }
    }
    i
}

/// The promotion code of a lowercase letter of `pnbrqk` searched from
/// `n` (2, knight) to `k` (6, king); 0 when the letter is none of them.
pub open spec fn promotion_code_of(c: u8) -> int {
    if c == 'n' as u8 {
        2
    } else if c == 'b' as u8 {
        3
    } else if c == 'r' as u8 {
        4
    } else if c == 'q' as u8 {
        5
    } else if c == 'k' as u8 {
        6
    } else {
        0
    }
}

/// The move packed from the first four characters of a UCI text, before
/// any promotion; characters out of range wrap around as in 16-bit arithmetic.
pub open spec fn parse_base(s: Seq<u8>) -> u16 {
    ((s[2] - 'a' as u8) + (s[3] - '1' as u8) * 8 + (s[0] - 'a' as u8) * 64 + (s[1] - '1' as u8)
        * 512) as u16
}

/// The move that a UCI text stands for: `0` unless it holds 4 or 5
/// characters, and `0` when a fifth character is not a promotion letter.
pub open spec fn parse_uci(s: Seq<u8>) -> u16 {
    let n = c_len(s);
    if n > 5 || n < 4 {
        0
    } else if n == 5 {
        let k = promotion_code_of(s[4]);
        if k == 0 {
            0
        } else {
            parse_base(s) | ((k * 4096) as u16)
        }
    } else {
        parse_base(s)
    }
}

/// Parses a UCI move such as `e2e4` or `e7e8q` (`mov_parse`); the text ends
/// at the first zero byte or at the end of the slice.
pub fn mov_parse(uci: &[u8]) -> (mov: u16)
    ensures
        mov == parse_uci(uci@),
{
    let n = c_strlen(uci);
    proof {
        lemma_c_len_bounds(uci@);
    }
    if n > 5 || n < 4 {
        return 0;
    }
    let sum: i32 = (uci[2] as i32 - ('a' as u8) as i32) + (uci[3] as i32 - ('1' as u8) as i32) * 8 + (uci[0] as i32
        - ('a' as u8) as i32) * 64 + (uci[1] as i32 - ('1' as u8) as i32) * 512;
    let base: u16 = sum as u16;
    if n == 5 {
        let c = uci[4];
        let k: u16 = if c == ('n' as u8) {
            2
        } else if c == ('b' as u8) {
            3
        } else if c == ('r' as u8) {
            4
        } else if c == ('q' as u8) {
            5
        } else if c == ('k' as u8) {
            6
        } else {
            0
        };
        if k == 0 {
            0
        } else {
            base | (k * 4096)
        }
    } else {
        base
    }
}


// ---- UCI text and moves ----

proof fn lemma_c_len_nonzero(s: Seq<u8>)
    requires
        forall|j: int| 0 <= j < s.len() ==> s[j] != 0,
    ensures
        c_len(s) == s.len(),
    decreases s.len(),
{
    if s.len() > 0 {
        assert forall|j: int| 0 <= j < s.drop_first().len() implies s.drop_first()[j] != 0 by {
            assert(s.drop_first()[j] == s[j + 1]);
        }
        lemma_c_len_nonzero(s.drop_first());
    }
}

/// A promotion code other than 1 and 7 to 15.
pub open spec fn uci_code(mov: u16) -> bool {
    let k = mov / 4096;
    k == 0 || (2 <= k <= 6)
}

proof fn lemma_square_parts(s: int)
    requires
        0 <= s < 64,
    ensures
        file_of(s) + 8 * rank_of(s) == s,
        0 <= file_of(s) < 8,
        0 <= rank_of(s) < 8,
{
}

/// Reading back the UCI text of a move gives the move, for every move whose
/// promotion code is 0 or a piece from knight to king.
pub proof fn lemma_parse_uci_text(mov: u16)
    requires
        uci_code(mov),
    ensures
        parse_uci(uci_text(mov)) == mov,
{
    let t = uci_text(mov);
    if mov == 0 {
        reveal_with_fuel(c_len, 7);
        assert(c_len(t) == 6);
    } else {
        let from = from_of(mov);
        let to = to_of(mov);
        lemma_square_parts(from);
        lemma_square_parts(to);
        assert(forall|j: int| 0 <= j < t.len() ==> t[j] != 0);
        lemma_c_len_nonzero(t);
        assert(mov % 64 + 64 * ((mov / 64) % 64) == mov % 4096) by (bit_vector);
        assert(parse_base(t) == mov % 4096);
        let k = mov / 4096;
        if k == 0 {
            assert(mov % 4096 == mov) by (bit_vector)
                requires
                    mov / 4096 == 0,
            ;
        } else {
            assert(promotion_code_of(t[4]) == k);
            let base = (mov % 4096) as u16;
            assert(base | ((k * 4096) as u16) == mov) by (bit_vector)
                requires
                    base == mov % 4096,
                    k == mov / 4096,
            ;
        }
    }
}

/// A UCI text of a move: two squares (file `a` to `h`, rank `1` to `8`)
/// and possibly a promotion letter `n`, `b`, `r`, `q` or `k`.
pub open spec fn uci_shaped(s: Seq<u8>) -> bool {
    &&& s.len() == 4 || s.len() == 5
    &&& 'a' as u8 <= s[0] <= 'h' as u8 && 'a' as u8 <= s[2] <= 'h' as u8
    &&& '1' as u8 <= s[1] <= '8' as u8 && '1' as u8 <= s[3] <= '8' as u8
    &&& s.len() == 5 ==> promotion_code_of(s[4]) != 0
}

proof fn lemma_pack(f0: u16, r0: u16, f1: u16, r1: u16, k: u16)
    by (bit_vector)
    requires
        f0 < 8,
        r0 < 8,
        f1 < 8,
        r1 < 8,
        k < 16,
    ensures
        ((f1 + 8 * r1 + 64 * f0 + 512 * r0 + 4096 * k) / 64) % 64 == f0 + 8 * r0,
        (f1 + 8 * r1 + 64 * f0 + 512 * r0 + 4096 * k) % 64 == f1 + 8 * r1,
        (f1 + 8 * r1 + 64 * f0 + 512 * r0 + 4096 * k) / 4096 == k,
        ((f1 + 8 * r1 + 64 * f0 + 512 * r0) as u16) | ((4096 * k) as u16) == f1 + 8 * r1 + 64 * f0
            + 512 * r0 + 4096 * k,
{
}

/// Writing out a parsed UCI text gives the text back, but for `a1a1`,
/// which is the null move.
pub proof fn lemma_uci_text_parse(s: Seq<u8>)
    requires
        uci_shaped(s),
        parse_uci(s) != 0,
    ensures
        uci_text(parse_uci(s)) == s,
{
    assert(forall|j: int| 0 <= j < s.len() ==> s[j] != 0);
    lemma_c_len_nonzero(s);
    let f0 = (s[0] - 'a' as u8) as u16;
    let r0 = (s[1] - '1' as u8) as u16;
    let f1 = (s[2] - 'a' as u8) as u16;
    let r1 = (s[3] - '1' as u8) as u16;
    let k: u16 = if s.len() == 5 { promotion_code_of(s[4]) as u16 } else { 0 };
    lemma_pack(f0, r0, f1, r1, k);
    let mov = parse_uci(s);
    assert(parse_base(s) == f1 + 8 * r1 + 64 * f0 + 512 * r0);
    assert(mov == f1 + 8 * r1 + 64 * f0 + 512 * r0 + 4096 * k);
    lemma_square_parts(f0 + 8 * r0);
    lemma_square_parts(f1 + 8 * r1);
    assert(file_of(from_of(mov)) == f0);
    assert(rank_of(from_of(mov)) == r0);
    assert(file_of(to_of(mov)) == f1);
    assert(rank_of(to_of(mov)) == r1);
    assert(uci_text(mov) =~= s);
}

} // verus!
