use vstd::prelude::*;
use crate::types::{Color, Piece};
use crate::moves::{BitBoardMove, CAPTURE, DOUBLE_PAWN_PUSH, EP_CAPTURE, KING_CASTLE, QUEEN_CASTLE};
use crate::position::{apply_white, flag, is_piece, mirror_model, mirror_move, BitBoardState, Model};

verus! {

/// Absolute value.
pub open spec fn abs(x: int) -> int {
    if x < 0 {
        -x
    } else {
        x
    }
}

/// Sign: -1, 0 or 1.
pub open spec fn sign(x: int) -> int {
    if x < 0 {
        -1
    } else if x > 0 {
        1
    } else {
        0
    }
}

/// Files from `f` to `t`, positive toward the h-file.
pub open spec fn dfile(f: int, t: int) -> int {
    t % 8 - f % 8
}

/// Ranks from `f` to `t`, positive toward Black's side.
pub open spec fn drank(f: int, t: int) -> int {
    t / 8 - f / 8
}

pub open spec fn knight_step(f: int, t: int) -> bool {
    (abs(dfile(f, t)) == 1 && abs(drank(f, t)) == 2) || (abs(dfile(f, t)) == 2 && abs(drank(f, t))
        == 1)
}

pub open spec fn king_step(f: int, t: int) -> bool {
    f != t && abs(dfile(f, t)) <= 1 && abs(drank(f, t)) <= 1
}

/// Same rank or same file.
pub open spec fn orthogonal(f: int, t: int) -> bool {
    f != t && (dfile(f, t) == 0 || drank(f, t) == 0)
}

/// Same diagonal or anti-diagonal.
pub open spec fn diagonal(f: int, t: int) -> bool {
    f != t && abs(dfile(f, t)) == abs(drank(f, t))
}

/// Index step from one square to the next on the line from `f` toward `t`.
pub open spec fn line_step(f: int, t: int) -> int {
    sign(drank(f, t)) * 8 + sign(dfile(f, t))
}

/// Number of steps from `f` to `t` along their line.
pub open spec fn line_dist(f: int, t: int) -> int {
    if abs(dfile(f, t)) > abs(drank(f, t)) {
        abs(dfile(f, t))
    } else {
        abs(drank(f, t))
    }
}

/// The `n - 1` squares after `s` in steps of `step` are all empty.
pub open spec fn ray_clear(m: Model, s: int, step: int, n: int) -> bool
    decreases n,
{
    if n <= 1 {
        true
    } else {
        m.squares[s + step] is None && ray_clear(m, s + step, step, n - 1)
    }
}

/// No piece stands strictly between `f` and `t`.
pub open spec fn path_clear(m: Model, f: int, t: int) -> bool {
    ray_clear(m, f, line_step(f, t), line_dist(f, t))
}

/// A piece of `c` and kind `p` on `f` attacks `t` (for a pawn: the
/// squares it could capture on).
pub open spec fn piece_attacks(m: Model, c: Color, p: Piece, f: int, t: int) -> bool {
    match p {
        Piece::Knight => knight_step(f, t),
        Piece::King => king_step(f, t),
        Piece::Pawn => abs(dfile(f, t)) == 1 && drank(f, t) == (if c == Color::White {
            1int
        } else {
            -1int
        }),
        Piece::Rook => orthogonal(f, t) && path_clear(m, f, t),
        Piece::Bishop => diagonal(f, t) && path_clear(m, f, t),
        Piece::Queen => (orthogonal(f, t) || diagonal(f, t)) && path_clear(m, f, t),
    }
}

/// The piece on `f`, if Black's, attacks `t`.
pub open spec fn black_attacks_from(m: Model, f: int, t: int) -> bool {
    match m.squares[f] {
        Some((Color::Black, p)) => piece_attacks(m, Color::Black, p, f, t),
        _ => false,
    }
}

/// Some Black piece attacks square `t`.
pub open spec fn attacked_by_black(m: Model, t: int) -> bool {
    exists|f: int| 0 <= f < 64 && #[trigger] black_attacks_from(m, f, t)
}

/// A White king stands on an attacked square.
pub open spec fn white_in_check(m: Model) -> bool {
    exists|k: int| 0 <= k < 64 && #[trigger] m.squares[k] == Some((Color::White, Piece::King))
        && attacked_by_black(m, k)
}

/// White may move onto `t`: it is empty or holds a Black piece other
/// than the king.
pub open spec fn target_ok(m: Model, t: int) -> bool {
    match m.squares[t] {
        None => true,
        Some((c, p)) => c == Color::Black && p != Piece::King,
    }
}

pub open spec fn castle_short_ok(m: Model, f: int, t: int) -> bool {
    &&& f == 4 && t == 6
    &&& flag(m.castling, 2) && flag(m.castling, 1)
    &&& m.squares[5] is None && m.squares[6] is None
    &&& !attacked_by_black(m, 4) && !attacked_by_black(m, 5) && !attacked_by_black(m, 6)
}

pub open spec fn castle_long_ok(m: Model, f: int, t: int) -> bool {
    &&& f == 4 && t == 2
    &&& flag(m.castling, 2) && flag(m.castling, 0)
    &&& m.squares[1] is None && m.squares[2] is None && m.squares[3] is None
    &&& !attacked_by_black(m, 4) && !attacked_by_black(m, 3) && !attacked_by_black(m, 2)
}

pub open spec fn en_passant_ok(m: Model, f: int, t: int) -> bool {
    &&& m.ep == Some(t)
    &&& abs(dfile(f, t)) == 1 && drank(f, t) == 1
    &&& m.squares[t] is None
    &&& t >= 8 && m.squares[t - 8] == Some((Color::Black, Piece::Pawn))
}

/// A White pawn on `f` may go to `t`: one step forward to an empty
/// square, two from its starting rank over empty squares, a diagonal
/// capture, or an en-passant capture.
pub open spec fn pawn_reaches(m: Model, f: int, t: int) -> bool {
    ||| (t == f + 8 && m.squares[t] is None)
    ||| (f / 8 == 1 && t == f + 16 && m.squares[f + 8] is None && m.squares[t] is None)
    ||| (abs(dfile(f, t)) == 1 && drank(f, t) == 1 && m.squares[t] is Some && target_ok(m, t))
    ||| en_passant_ok(m, f, t)
}

/// The White piece on `f` may move to `t` by the movement rules, before
/// asking whether the White king is left in check.
pub open spec fn white_reaches(m: Model, f: int, t: int) -> bool {
    match m.squares[f] {
        Some((Color::White, p)) => match p {
            Piece::Pawn => pawn_reaches(m, f, t),
            Piece::King => (king_step(f, t) && target_ok(m, t)) || castle_short_ok(m, f, t)
                || castle_long_ok(m, f, t),
            _ => piece_attacks(m, Color::White, p, f, t) && target_ok(m, t),
        },
        _ => false,
    }
}

/// The flag of White's move from `f` to `t`, promotions aside.
pub open spec fn move_flag(m: Model, f: int, t: int) -> int {
    if is_piece(m.squares[f], Color::White, Piece::King) && f == 4 && t == 6 {
        KING_CASTLE as int
    } else if is_piece(m.squares[f], Color::White, Piece::King) && f == 4 && t == 2 {
        QUEEN_CASTLE as int
    } else if is_piece(m.squares[f], Color::White, Piece::Pawn) && t == f + 16 {
        DOUBLE_PAWN_PUSH as int
    } else if is_piece(m.squares[f], Color::White, Piece::Pawn) && dfile(f, t) != 0
        && m.squares[t] is None {
        EP_CAPTURE as int
    } else if m.squares[t] is Some {
        CAPTURE as int
    } else {
        0
    }
}

/// A White pawn reaching the last rank must promote.
pub open spec fn promotes(m: Model, f: int, t: int) -> bool {
    is_piece(m.squares[f], Color::White, Piece::Pawn) && t / 8 == 7
}

/// `mv` is a move of White by the movement rules, with the right flag.
pub open spec fn pseudo_white(m: Model, mv: BitBoardMove) -> bool {
    let f = mv.from_spec();
    let t = mv.to_spec();
    let fl = mv.flags_spec();
    &&& white_reaches(m, f, t)
    &&& if promotes(m, f, t) {
        fl >= 8 && (fl - 8) / 4 == move_flag(m, f, t) / 4
    } else {
        fl == move_flag(m, f, t)
    }
}

/// `mv` is a legal move of White: it follows the movement rules and
/// leaves no White king attacked.
pub open spec fn legal_white(m: Model, mv: BitBoardMove) -> bool {
    pseudo_white(m, mv) && !white_in_check(apply_white(m, mv))
}

/// `mv` is a legal move of the side to move; Black's legal moves are
/// the mirror images of White's legal moves in the mirrored position.
pub open spec fn legal(m: Model, mv: BitBoardMove) -> bool {
    if m.side == Color::White {
        legal_white(m, mv)
    } else {
        legal_white(mirror_model(m), mirror_move(mv))
    }
}

fn abs_exec(x: i64) -> (r: i64)
    requires
        -64 <= x <= 64,
    ensures
        r as int == abs(x as int),
{
    if x < 0 {
        -x
    } else {
        x
    }
}

fn sign_exec(x: i64) -> (r: i64)
    ensures
        r as int == sign(x as int),
{
    if x < 0 {
        -1
    } else if x > 0 {
        1
    } else {
        0
    }
}

/// Whether no piece stands strictly between two squares on one line.
pub fn path_is_clear(s: &BitBoardState, f: usize, t: usize) -> (r: bool)
    requires
        f < 64,
        t < 64,
        orthogonal(f as int, t as int) || diagonal(f as int, t as int),
    ensures
        r == path_clear(s@, f as int, t as int),
{
    let ff = (f % 8) as i64;
    let fr = (f / 8) as i64;
    let tf = (t % 8) as i64;
    let tr = (t / 8) as i64;
    let sf = sign_exec(tf - ff);
    let sr = sign_exec(tr - fr);
    let step = sr * 8 + sf;
    let adf = abs_exec(tf - ff);
    let adr = abs_exec(tr - fr);
    let n = if adf > adr { adf } else { adr };
    let mut cf = ff;
    let mut cr = fr;
    let mut k = n;
    let ghost m = s@;
    assert(step == line_step(f as int, t as int));
    assert(n == line_dist(f as int, t as int));
    while k > 1
        invariant
            1 <= k <= n <= 7,
            0 <= ff < 8 && 0 <= fr < 8 && 0 <= tf < 8 && 0 <= tr < 8,
            adf == abs(tf - ff) && adr == abs(tr - fr),
            n == adf || n == adr,
            adf == 0 || adr == 0 || adf == adr,
            sf == sign(tf - ff) && sr == sign(tr - fr),
            step == sr * 8 + sf,
            tf - cf == (if sf > 0 {
                k as int
            } else if sf < 0 {
                -k
            } else {
                0
            }),
            tr - cr == (if sr > 0 {
                k as int
            } else if sr < 0 {
                -k
            } else {
                0
            }),
            path_clear(m, f as int, t as int) == ray_clear(m, cr * 8 + cf, step as int, k as int),
            m == s@,
        decreases k,
    {
        cf = cf + sf;
        cr = cr + sr;
        k = k - 1;
        let sq = (cr * 8 + cf) as usize;
        if s.bitboard.get_piece(sq).is_some() {
            return false;
        }
    }
    true
}

/// Whether a piece of colour `c` and kind `p` on `f` attacks `t`.
pub fn piece_attacks_exec(s: &BitBoardState, c: Color, p: Piece, f: usize, t: usize) -> (r: bool)
    requires
        f < 64,
        t < 64,
    ensures
        r == crate::rules::piece_attacks(s@, c, p, f as int, t as int),
{
    let df = (t % 8) as i64 - (f % 8) as i64;
    let dr = (t / 8) as i64 - (f / 8) as i64;
    let adf = abs_exec(df);
    let adr = abs_exec(dr);
    let orth = f != t && (df == 0 || dr == 0);
    let diag = f != t && adf == adr;
    match p {
        Piece::Knight => (adf == 1 && adr == 2) || (adf == 2 && adr == 1),
        Piece::King => f != t && adf <= 1 && adr <= 1,
        Piece::Pawn => adf == 1 && dr == (match c {
            Color::White => 1,
            Color::Black => -1,
        }),
        Piece::Rook => orth && path_is_clear(s, f, t),
        Piece::Bishop => diag && path_is_clear(s, f, t),
        Piece::Queen => (orth || diag) && path_is_clear(s, f, t),
    }
}

/// Whether some Black piece attacks square `t`.
pub fn attacked_by_black_exec(s: &BitBoardState, t: usize) -> (r: bool)
    requires
        t < 64,
    ensures
        r == attacked_by_black(s@, t as int),
{
    let mut f: usize = 0;
    while f < 64
        invariant
            f <= 64,
            t < 64,
            forall|g: int| 0 <= g < f ==> !#[trigger] black_attacks_from(s@, g, t as int),
        decreases 64 - f,
    {
        match s.bitboard.get_piece(f) {
            Some((Color::Black, p)) => {
                if piece_attacks_exec(s, Color::Black, p, f, t) {
                    assert(black_attacks_from(s@, f as int, t as int));
                    return true;
                }
            },
            _ => {},
        }
        f += 1;
    }
    false
}

/// Whether a White king stands on an attacked square.
pub fn white_in_check_exec(s: &BitBoardState) -> (r: bool)
    ensures
        r == white_in_check(s@),
{
    let mut k: usize = 0;
    while k < 64
        invariant
            k <= 64,
            forall|j: int| 0 <= j < k ==> !(#[trigger] s@.squares[j] == Some((Color::White, Piece::King))
                && attacked_by_black(s@, j)),
        decreases 64 - k,
    {
        if s.bitboard.white_king_on(k) {
            if attacked_by_black_exec(s, k) {
                assert(s@.squares[k as int] == Some((Color::White, Piece::King)));
                return true;
            }
        }
        k += 1;
    }
    false
}

} // verus!
