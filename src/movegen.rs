use vstd::prelude::*;
use crate::types::{Color, Piece};
use crate::moves::{
    lemma_move_fields_determine, BitBoardMove, CAPTURE, DOUBLE_PAWN_PUSH, EP_CAPTURE, KING_CASTLE,
    QUEEN_CASTLE,
};
use crate::laws::lemma_double_check_king_moves;
use crate::position::{is_piece_exec, lemma_mirror_move, mirror_move, mirror_move_exec, BitBoardState, Model};
use crate::rules::{
    attacked_by_black_exec, black_attacks_from, castle_long_ok, castle_short_ok, legal, legal_white,
    move_flag, pawn_reaches, piece_attacks_exec, promotes, pseudo_white, target_ok, white_in_check,
    white_in_check_exec, white_reaches,
};

verus! {

fn target_ok_exec(s: &BitBoardState, t: usize) -> (r: bool)
    requires
        t < 64,
    ensures
        r == target_ok(s@, t as int),
{
    match s.bitboard.get_piece(t) {
        None => true,
        Some((c, p)) => c == Color::Black && p != Piece::King,
    }
}

fn castling_flag(s: &BitBoardState, k: u8) -> (r: bool)
    requires
        k < 8,
    ensures
        r == crate::position::flag(s.castling, k),
{
    (s.castling >> k) & 1 == 1
}

fn pawn_reaches_exec(s: &BitBoardState, f: usize, t: usize) -> (r: bool)
    requires
        f < 64,
        t < 64,
    ensures
        r == pawn_reaches(s@, f as int, t as int),
{
    let empty_t = s.bitboard.get_piece(t).is_none();
    if t == f + 8 && empty_t {
        return true;
    }
    if f / 8 == 1 && t == f + 16 && s.bitboard.get_piece(f + 8).is_none() && empty_t {
        return true;
    }
    let df = (t % 8) as i64 - (f % 8) as i64;
    let diag_forward = (df == 1 || df == -1) && t / 8 == f / 8 + 1;
    if diag_forward && !empty_t && target_ok_exec(s, t) {
        return true;
    }
    diag_forward && (s.en_passant as usize) == t && empty_t && t >= 8 && is_piece_exec(
        s.bitboard.get_piece(t - 8),
        Color::Black,
        Piece::Pawn,
    )
}

fn castle_short_exec(s: &BitBoardState, f: usize, t: usize) -> (r: bool)
    requires
        f < 64,
        t < 64,
    ensures
        r == castle_short_ok(s@, f as int, t as int),
{
    f == 4 && t == 6 && castling_flag(s, 2) && castling_flag(s, 1) && s.bitboard.get_piece(
        5,
    ).is_none() && s.bitboard.get_piece(6).is_none() && !attacked_by_black_exec(s, 4)
        && !attacked_by_black_exec(s, 5) && !attacked_by_black_exec(s, 6)
}

fn castle_long_exec(s: &BitBoardState, f: usize, t: usize) -> (r: bool)
    requires
        f < 64,
        t < 64,
    ensures
        r == castle_long_ok(s@, f as int, t as int),
{
    f == 4 && t == 2 && castling_flag(s, 2) && castling_flag(s, 0) && s.bitboard.get_piece(
        1,
    ).is_none() && s.bitboard.get_piece(2).is_none() && s.bitboard.get_piece(3).is_none()
        && !attacked_by_black_exec(s, 4) && !attacked_by_black_exec(s, 3)
        && !attacked_by_black_exec(s, 2)
}

/// Whether White's piece on `f` may move to `t` by the movement rules.
pub fn white_reaches_exec(s: &BitBoardState, f: usize, t: usize) -> (r: bool)
    requires
        f < 64,
        t < 64,
    ensures
        r == white_reaches(s@, f as int, t as int),
{
    match s.bitboard.get_piece(f) {
        Some((Color::White, p)) => match p {
            Piece::Pawn => pawn_reaches_exec(s, f, t),
            Piece::King => {
                let df = (t % 8) as i64 - (f % 8) as i64;
                let dr = (t / 8) as i64 - (f / 8) as i64;
                let step = f != t && -1 <= df && df <= 1 && -1 <= dr && dr <= 1;
                (step && target_ok_exec(s, t)) || castle_short_exec(s, f, t) || castle_long_exec(
                    s,
                    f,
                    t,
                )
            },
            _ => piece_attacks_exec(s, Color::White, p, f, t) && target_ok_exec(s, t),
        },
        _ => false,
    }
}

fn move_flag_exec(s: &BitBoardState, f: usize, t: usize) -> (r: u16)
    requires
        f < 64,
        t < 64,
    ensures
        r as int == move_flag(s@, f as int, t as int),
        r < 8,
{
    let moving = s.bitboard.get_piece(f);
    let king = is_piece_exec(moving, Color::White, Piece::King);
    let pawn = is_piece_exec(moving, Color::White, Piece::Pawn);
    let empty_t = s.bitboard.get_piece(t).is_none();
    if king && f == 4 && t == 6 {
        KING_CASTLE
    } else if king && f == 4 && t == 2 {
        QUEEN_CASTLE
    } else if pawn && t == f + 16 {
        DOUBLE_PAWN_PUSH
    } else if pawn && t % 8 != f % 8 && empty_t {
        EP_CAPTURE
    } else if !empty_t {
        CAPTURE
    } else {
        0
    }
}

/// Whether White's move leaves no White king attacked.
fn keeps_king_safe(s: &BitBoardState, mv: BitBoardMove) -> (r: bool)
    requires
        s.bitboard.disjoint(),
    ensures
        r == !white_in_check(crate::position::apply_white(s@, mv)),
{
    let mut after = *s;
    after.apply_as_white(&mv);
    !white_in_check_exec(&after)
}

pub open spec fn move_key(mv: BitBoardMove) -> int {
    mv.from_spec() * 64 + mv.to_spec()
}

/// The moves in `moves` are exactly White's legal moves whose origin and
/// destination come before `key` in the order origin, then destination.
pub open spec fn holds_legal_below(m: Model, moves: Seq<BitBoardMove>, key: int) -> bool {
    &&& moves.no_duplicates()
    &&& moves.len() <= 4 * key
    &&& forall|mv: BitBoardMove| moves.contains(mv) <==> (legal_white(m, mv) && move_key(mv) < key)
}

/// The moves in `moves` are White's legal moves with a smaller key, and
/// those with key `key` and a flag below `flag`.
pub open spec fn holds_promotions_below(m: Model, moves: Seq<BitBoardMove>, key: int, flag: int) -> bool {
    forall|x: BitBoardMove| #[trigger] moves.contains(x) <==> (legal_white(m, x) && (move_key(x) < key || (
    move_key(x) == key && x.flags_spec() < flag)))
}

/// Adds the promotions from `f` to `t` that are legal, in flag order.
fn add_promotions(s: &BitBoardState, f: usize, t: usize, first: u16, moves: &mut Vec<BitBoardMove>)
    requires
        f < 64,
        t < 64,
        s.bitboard.disjoint(),
        first == 8 || first == 12,
        promotes(s@, f as int, t as int),
        white_reaches(s@, f as int, t as int),
        first as int == 8 + 4 * (move_flag(s@, f as int, t as int) / 4),
        holds_legal_below(s@, old(moves)@, f * 64 + t),
    ensures
        holds_legal_below(s@, final(moves)@, f * 64 + t + 1),
{
    let mut k: u16 = 0;
    while k < 4
        invariant
            f < 64,
            t < 64,
            k <= 4,
            s.bitboard.disjoint(),
            first == 8 || first == 12,
            promotes(s@, f as int, t as int),
            white_reaches(s@, f as int, t as int),
            first as int == 8 + 4 * (move_flag(s@, f as int, t as int) / 4),
            moves@.no_duplicates(),
            moves@.len() <= 4 * (f * 64 + t) + k,
            holds_promotions_below(s@, moves@, f * 64 + t, first as int + k as int),
        decreases 4 - k,
    {
        let mv = BitBoardMove::new(f as u16, t as u16, first + k);
        let ghost prev = moves@;
        assert(mv.from_spec() == f && mv.to_spec() == t && mv.flags_spec() == first + k);
        assert(move_key(mv) == f * 64 + t);
        assert(pseudo_white(s@, mv));
        let safe = keeps_king_safe(s, mv);
        assert(safe == legal_white(s@, mv));
        if safe {
            assert(!prev.contains(mv));
            moves.push(mv);
            proof {
                lemma_push_set(prev, mv);
            }
        }
        proof {
            let bound = first as int + k as int + 1;
            assert forall|m2: BitBoardMove| #[trigger] moves@.contains(m2) <==> (legal_white(s@, m2) && (
            move_key(m2) < f * 64 + t || (move_key(m2) == f * 64 + t && m2.flags_spec() < bound))) by {
                assert(prev.contains(m2) <==> (legal_white(s@, m2) && (move_key(m2) < f * 64 + t || (
                move_key(m2) == f * 64 + t && m2.flags_spec() < first as int + k as int))));
                if move_key(m2) == f * 64 + t {
                    lemma_key(m2, f as int, t as int);
                    if m2.flags_spec() == first as int + k as int {
                        lemma_move_fields_determine(m2, mv);
                    }
                }
            }
        }
        k += 1;
    }
    proof {
        assert forall|m2: BitBoardMove| moves@.contains(m2) <==> (legal_white(s@, m2) && move_key(m2)
            < f * 64 + t + 1) by {
            if move_key(m2) == f * 64 + t && legal_white(s@, m2) {
                lemma_key(m2, f as int, t as int);
            }
        }
    }
}

/// Adds White's legal moves from `f` to `t`.
fn add_moves_between(s: &BitBoardState, f: usize, t: usize, moves: &mut Vec<BitBoardMove>)
    requires
        f < 64,
        t < 64,
        s.bitboard.disjoint(),
        holds_legal_below(s@, old(moves)@, f * 64 + t),
    ensures
        holds_legal_below(s@, final(moves)@, f * 64 + t + 1),
{
    let ghost before = moves@;
    if !white_reaches_exec(s, f, t) {
        proof {
            assert forall|m2: BitBoardMove| moves@.contains(m2) <==> (legal_white(s@, m2) && move_key(m2)
                < f * 64 + t + 1) by {
                if move_key(m2) == f * 64 + t {
                    lemma_key(m2, f as int, t as int);
                }
            }
        }
        return;
    }
    let base = move_flag_exec(s, f, t);
    if is_piece_exec(s.bitboard.get_piece(f), Color::White, Piece::Pawn) && t / 8 == 7 {
        let first: u16 = if base >= 4 {
            12
        } else {
            8
        };
        add_promotions(s, f, t, first, moves);
        return;
    }
    let mv = BitBoardMove::new(f as u16, t as u16, base);
    assert(mv.from_spec() == f && mv.to_spec() == t && mv.flags_spec() == base);
    assert(move_key(mv) == f * 64 + t);
    assert(pseudo_white(s@, mv));
    if keeps_king_safe(s, mv) {
        moves.push(mv);
        proof {
            lemma_push_set(before, mv);
        }
    }
    proof {
        assert forall|m2: BitBoardMove| moves@.contains(m2) <==> (legal_white(s@, m2) && move_key(m2)
            < f * 64 + t + 1) by {
            if move_key(m2) == f * 64 + t {
                lemma_key(m2, f as int, t as int);
                if legal_white(s@, m2) {
                    lemma_move_fields_determine(m2, mv);
                }
            }
        }
    }
}

/// Two Black pieces give check to a White king.
pub open spec fn double_check(m: Model) -> bool {
    exists|k: int, c1: int, c2: int|
        0 <= k < 64 && 0 <= c1 < 64 && 0 <= c2 < 64 && c1 != c2 && m.squares[k] == Some(
            (Color::White, Piece::King),
        ) && #[trigger] black_attacks_from(m, c1, k) && #[trigger] black_attacks_from(m, c2, k)
}

/// Looks for two Black pieces checking the first White king on the board;
/// when it finds them, the position is in double check.
fn find_double_check(s: &BitBoardState) -> (r: bool)
    ensures
        r ==> double_check(s@),
{
    let mut k: usize = 0;
    while k < 64 && !s.bitboard.white_king_on(k)
        invariant
            k <= 64,
        decreases 64 - k,
    {
        k += 1;
    }
    if k == 64 {
        return false;
    }
    let mut found = false;
    let mut first: usize = 0;
    let mut c: usize = 0;
    while c < 64
        invariant
            k < 64,
            c <= 64,
            s@.squares[k as int] == Some((Color::White, Piece::King)),
            found ==> first < c && black_attacks_from(s@, first as int, k as int),
        decreases 64 - c,
    {
        match s.bitboard.get_piece(c) {
            Some((Color::Black, p)) => {
                if piece_attacks_exec(s, Color::Black, p, c, k) {
                    assert(black_attacks_from(s@, c as int, k as int));
                    if found {
                        assert(black_attacks_from(s@, first as int, k as int));
                        return true;
                    }
                    found = true;
                    first = c;
                }
            },
            _ => {},
        }
        c += 1;
    }
    false
}

/// All legal moves of White, each once, ordered by origin, then
/// destination. In double check only the king is looked at, since no
/// other piece then has a legal move.
fn generate_white(s: &BitBoardState) -> (moves: Vec<BitBoardMove>)
    requires
        s.bitboard.disjoint(),
        s.active_color == Color::White,
    ensures
        forall|mv: BitBoardMove| moves@.contains(mv) <==> legal_white(s@, mv),
        moves@.no_duplicates(),
        moves@.len() <= 16384,
{
    let double = find_double_check(s);
    let mut moves: Vec<BitBoardMove> = Vec::new();
    let mut f: usize = 0;
    while f < 64
        invariant
            f <= 64,
            s.bitboard.disjoint(),
            s.active_color == Color::White,
            double ==> double_check(s@),
            holds_legal_below(s@, moves@, f * 64),
        decreases 64 - f,
    {
        let own = match s.bitboard.get_piece(f) {
            Some((Color::White, p)) => !double || p == Piece::King,
            _ => false,
        };
        if own {
            let mut t: usize = 0;
            while t < 64
                invariant
                    f < 64,
                    t <= 64,
                    s.bitboard.disjoint(),
                    holds_legal_below(s@, moves@, f * 64 + t),
                decreases 64 - t,
            {
                add_moves_between(s, f, t, &mut moves);
                t += 1;
            }
        } else {
            proof {
                assert forall|m2: BitBoardMove| moves@.contains(m2) <==> (legal_white(s@, m2)
                    && move_key(m2) < (f + 1) * 64) by {
                    if move_key(m2) >= f * 64 && move_key(m2) < (f + 1) * 64 {
                        assert(m2.from_spec() == f);
                        if legal_white(s@, m2) && double {
                            let (k, c1, c2) = choose|k: int, c1: int, c2: int|
                                0 <= k < 64 && 0 <= c1 < 64 && 0 <= c2 < 64 && c1 != c2 && s@.squares[k]
                                    == Some((Color::White, Piece::King)) && #[trigger] black_attacks_from(
                                    s@,
                                    c1,
                                    k,
                                ) && #[trigger] black_attacks_from(s@, c2, k);
                            lemma_double_check_king_moves(s@, m2, k, c1, c2);
                        }
                    }
                }
            }
        }
        f += 1;
    }
    moves
}

/// The set of legal moves of the side to move.
pub open spec fn legal_set(m: Model) -> Set<BitBoardMove> {
    Set::new(|mv: BitBoardMove| legal(m, mv))
}

/// All legal moves of the side to move, each once. With Black to move
/// the moves are found as White's in the mirrored position and mirrored
/// back. Within one call the order is fixed by the position.
pub fn generate_moves(state: &BitBoardState) -> (moves: Vec<BitBoardMove>)
    requires
        state.bitboard.disjoint(),
    ensures
        forall|mv: BitBoardMove| moves@.contains(mv) <==> legal(state@, mv),
        moves@.no_duplicates(),
        moves@.to_set() == legal_set(state@),
        moves@.len() == legal_set(state@).len(),
        moves@.len() <= 16384,
{
    let moves = match state.active_color {
        Color::White => generate_white(state),
        Color::Black => {
            let mut mirrored = *state;
            mirrored.mirror_board();
            let white_moves = generate_white(&mirrored);
            let mut moves: Vec<BitBoardMove> = Vec::new();
            let mut i: usize = 0;
            while i < white_moves.len()
                invariant
                    i <= white_moves@.len(),
                    moves@.len() == i,
                    forall|j: int| 0 <= j < i ==> #[trigger] moves@[j] == mirror_move(white_moves@[j]),
                decreases white_moves@.len() - i,
            {
                moves.push(mirror_move_exec(&white_moves[i]));
                i += 1;
            }
            proof {
                assert forall|mv: BitBoardMove| moves@.contains(mv) <==> legal(state@, mv) by {
                    lemma_mirror_move(mv);
                    if moves@.contains(mv) {
                        let j = choose|j: int| 0 <= j < moves@.len() && moves@[j] == mv;
                        lemma_mirror_move(white_moves@[j]);
                        assert(white_moves@.contains(white_moves@[j]));
                    }
                    if legal(state@, mv) {
                        let w = mirror_move(mv);
                        assert(white_moves@.contains(w));
                        let j = choose|j: int| 0 <= j < white_moves@.len() && white_moves@[j] == w;
                        assert(moves@[j] == mv);
                    }
                }
                assert forall|a: int, b: int| 0 <= a < moves@.len() && 0 <= b < moves@.len() && a != b
                    implies moves@[a] != moves@[b] by {
                    lemma_mirror_move(white_moves@[a]);
                    lemma_mirror_move(white_moves@[b]);
                }
            }
            moves
        },
    };
    proof {
        assert(moves@.to_set() =~= legal_set(state@));
        moves@.unique_seq_to_set();
    }
    moves
}

proof fn lemma_key(mv: BitBoardMove, f: int, t: int)
    requires
        0 <= t < 64,
        move_key(mv) == f * 64 + t,
    ensures
        mv.from_spec() == f,
        mv.to_spec() == t,
{
}

proof fn lemma_push_set(prev: Seq<BitBoardMove>, mv: BitBoardMove)
    requires
        prev.no_duplicates(),
        !prev.contains(mv),
    ensures
        prev.push(mv).no_duplicates(),
        forall|m2: BitBoardMove| prev.push(mv).contains(m2) <==> (prev.contains(m2) || m2 == mv),
{
    assert forall|m2: BitBoardMove| prev.push(mv).contains(m2) <==> (prev.contains(m2) || m2 == mv) by {
        if prev.contains(m2) {
            let i = choose|i: int| 0 <= i < prev.len() && prev[i] == m2;
            assert(prev.push(mv)[i] == m2);
        }
        if m2 == mv {
            assert(prev.push(mv)[prev.len() as int] == m2);
        }
    }
}

} // verus!
