use vstd::prelude::*;
use crate::types::{Color, Piece};
use crate::moves::{BitBoardMove, EP_CAPTURE};
use crate::position::{
    apply_model, apply_white, castling_after_white, castling_ok, clear_flag, ep_ok, flag, flip_sq,
    is_piece, lemma_flip_sq, lemma_mirror_castling, lemma_mirror_involution, lemma_mirror_move,
    mirror_model, mirror_move, no_pawn_on_edge, one_king, promoted_piece, squares_after_white,
    wf_model, Model,
};
use crate::rules::{
    attacked_by_black, black_attacks_from, castle_long_ok, castle_short_ok, dfile, diagonal, drank,
    en_passant_ok, legal, line_dist, line_step, orthogonal, piece_attacks, pseudo_white, ray_clear,
    sign, target_ok, white_in_check,
};
use crate::movegen::legal_set;
use crate::search::king_attacked;

verus! {

proof fn lemma_ray_clear_squares(x: Model, y: Model, s: int, step: int, n: int)
    requires
        x.squares == y.squares,
    ensures
        ray_clear(x, s, step, n) == ray_clear(y, s, step, n),
    decreases n,
{
    if n > 1 {
        lemma_ray_clear_squares(x, y, s + step, step, n - 1);
    }
}

/// Whether a White king is attacked depends on the board alone.
proof fn lemma_check_squares(x: Model, y: Model)
    requires
        x.squares == y.squares,
    ensures
        white_in_check(x) == white_in_check(y),
{
    assert forall|f: int, t: int| 0 <= f < 64 && 0 <= t < 64 implies black_attacks_from(x, f, t)
        == black_attacks_from(y, f, t) by {
        lemma_ray_clear_squares(x, y, f, crate::rules::line_step(f, t), crate::rules::line_dist(f, t));
    }
    assert forall|t: int| 0 <= t < 64 implies attacked_by_black(x, t) == attacked_by_black(y, t) by {
        if attacked_by_black(x, t) {
            let f = choose|f: int| 0 <= f < 64 && #[trigger] black_attacks_from(x, f, t);
            assert(black_attacks_from(y, f, t));
        }
        if attacked_by_black(y, t) {
            let f = choose|f: int| 0 <= f < 64 && #[trigger] black_attacks_from(y, f, t);
            assert(black_attacks_from(x, f, t));
        }
    }
    if white_in_check(x) {
        let k = choose|k: int| 0 <= k < 64 && #[trigger] x.squares[k] == Some((Color::White, Piece::King))
            && attacked_by_black(x, k);
        assert(y.squares[k] == Some((Color::White, Piece::King)) && attacked_by_black(y, k));
    }
    if white_in_check(y) {
        let k = choose|k: int| 0 <= k < 64 && #[trigger] y.squares[k] == Some((Color::White, Piece::King))
            && attacked_by_black(y, k);
        assert(x.squares[k] == Some((Color::White, Piece::King)) && attacked_by_black(x, k));
    }
}

/// Mirroring twice gives back the board.
proof fn lemma_mirror_squares_twice(m: Model)
    requires
        m.squares.len() == 64,
    ensures
        mirror_model(mirror_model(m)).squares == m.squares,
{
    let mm = mirror_model(mirror_model(m));
    assert forall|i: int| 0 <= i < 64 implies mm.squares[i] == m.squares[i] by {
        lemma_flip_sq(i);
        match m.squares[i] {
            Some((c, p)) => {},
            None => {},
        }
    }
    assert(mm.squares =~= m.squares);
}

/// No legal move leaves a king of the side that made it attacked.
pub proof fn lemma_no_self_check(m: Model, mv: BitBoardMove)
    requires
        m.squares.len() == 64,
        legal(m, mv),
    ensures
        !king_attacked(apply_model(m, mv), m.side),
{
    if m.side == Color::Black {
        let a = apply_white(mirror_model(m), mirror_move(mv));
        let r = apply_model(m, mv);
        assert(a.squares.len() == 64);
        lemma_mirror_squares_twice(a);
        assert(mirror_model(r).squares == mirror_model(mirror_model(a)).squares);
        lemma_check_squares(mirror_model(r), a);
    }
}

/// The legal moves of the mirrored position are the mirror images of the
/// legal moves of the position.
pub proof fn lemma_mirror_symmetry(m: Model)
    requires
        wf_model(m),
    ensures
        forall|mv: BitBoardMove| legal(mirror_model(m), mv) <==> legal(m, #[trigger] mirror_move(mv)),
        legal_set(mirror_model(m)) == legal_set(m).map(|mv: BitBoardMove| mirror_move(mv)),
{
    lemma_mirror_involution(m);
    assert forall|mv: BitBoardMove| legal(mirror_model(m), mv) <==> legal(m, #[trigger] mirror_move(mv)) by {
        lemma_mirror_move(mv);
        match m.side {
            Color::White => {},
            Color::Black => {},
        }
    }
    let image = legal_set(m).map(|mv: BitBoardMove| mirror_move(mv));
    assert forall|x: BitBoardMove| legal_set(mirror_model(m)).contains(x) <==> image.contains(x) by {
        lemma_mirror_move(x);
        if legal(mirror_model(m), x) {
            assert(legal_set(m).contains(mirror_move(x)));
            assert(x == mirror_move(mirror_move(x)));
        }
        if image.contains(x) {
            let y = choose|y: BitBoardMove| legal_set(m).contains(y) && x == mirror_move(y);
            lemma_mirror_move(y);
        }
    }
    assert(legal_set(mirror_model(m)) =~= image);
}

proof fn lemma_clear_flag(c: u8, j: u8)
    requires
        j < 8,
    ensures
        forall|k: u8| k < 8 ==> #[trigger] flag(clear_flag(c, j), k) == (flag(c, k) && k != j),
        c < 64 ==> clear_flag(c, j) < 64,
{
    assert forall|k: u8| k < 8 implies #[trigger] flag(clear_flag(c, j), k) == (flag(c, k) && k != j) by {
        assert(j < 8 && k < 8 ==> (((c & !(1u8 << j)) >> k) & 1 == 1) == (((c >> k) & 1 == 1) && k != j))
            by (bit_vector);
    }
    assert(c < 64 ==> (c & !(1u8 << j)) < 64) by (bit_vector);
}

/// What a White move that follows the movement rules looks like.
proof fn lemma_pseudo_facts(m: Model, mv: BitBoardMove)
    requires
        m.squares.len() == 64,
        pseudo_white(m, mv),
    ensures
        ({
            let f = mv.from_spec();
            let t = mv.to_spec();
            let fl = mv.flags_spec();
            &&& 0 <= f < 64 && 0 <= t < 64 && f != t
            &&& m.squares[f] matches Some((Color::White, _))
            &&& (fl == 2 || fl == 3) <==> (is_piece(m.squares[f], Color::White, Piece::King) && f == 4 && (t == 6 || t == 2))
            &&& fl == 2 ==> castle_short_ok(m, f, t)
            &&& fl == 3 ==> castle_long_ok(m, f, t)
            &&& !(fl == 2 || fl == 3) ==> target_ok(m, t)
            &&& fl == 5 ==> en_passant_ok(m, f, t) && is_piece(m.squares[f], Color::White, Piece::Pawn)
            &&& fl == 1 ==> is_piece(m.squares[f], Color::White, Piece::Pawn) && f / 8 == 1
            &&& is_piece(m.squares[f], Color::White, Piece::Pawn) ==> t / 8 == f / 8 + 1 || t / 8 == f / 8 + 2
            &&& is_piece(m.squares[f], Color::White, Piece::Pawn) && t / 8 == 7 ==> fl >= 8
            &&& fl >= 8 ==> is_piece(m.squares[f], Color::White, Piece::Pawn)
        }),
{
    let f = mv.from_spec();
    let t = mv.to_spec();
    assert(0 <= f < 64 && 0 <= t < 64);
}

/// What a square holds after White's move, square by square.
proof fn lemma_square_after(m: Model, mv: BitBoardMove, j: int)
    requires
        m.squares.len() == 64,
        pseudo_white(m, mv),
        0 <= j < 64,
    ensures
        ({
            let f = mv.from_spec();
            let t = mv.to_spec();
            let fl = mv.flags_spec();
            let a = squares_after_white(m, mv);
            &&& a.len() == 64
            &&& j == f ==> a[j] is None
            &&& j == t && j != f ==> a[j] == (if fl >= 8 {
                Some((Color::White, promoted_piece(fl)))
            } else {
                m.squares[f]
            })
            &&& j != f && j != t && fl == 5 && j == t - 8 ==> a[j] is None
            &&& j != f && j != t && fl == 2 && j == 7 ==> a[j] is None
            &&& j != f && j != t && fl == 2 && j == 5 ==> a[j] == Some((Color::White, Piece::Rook))
            &&& j != f && j != t && fl == 3 && j == 0 ==> a[j] is None
            &&& j != f && j != t && fl == 3 && j == 3 ==> a[j] == Some((Color::White, Piece::Rook))
            &&& j != f && j != t && !(fl == 5 && j == t - 8) && !(fl == 2 && (j == 7 || j == 5)) && !(fl
                == 3 && (j == 0 || j == 3)) ==> a[j] == m.squares[j]
        }),
{
    lemma_pseudo_facts(m, mv);
}

/// After a White move each side still has exactly one king.
proof fn lemma_white_move_kings(m: Model, mv: BitBoardMove)
    requires
        wf_model(m),
        pseudo_white(m, mv),
    ensures
        one_king(apply_white(m, mv), Color::White),
        one_king(apply_white(m, mv), Color::Black),
{
    lemma_pseudo_facts(m, mv);
    let f = mv.from_spec();
    let t = mv.to_spec();
    let fl = mv.flags_spec();
    let a = apply_white(m, mv);
    let kw = choose|k: int| 0 <= k < 64 && m.squares[k] == Some((Color::White, Piece::King)) && forall|j: int|
        0 <= j < 64 && #[trigger] m.squares[j] == Some((Color::White, Piece::King)) ==> j == k;
    let kb = choose|k: int| 0 <= k < 64 && m.squares[k] == Some((Color::Black, Piece::King)) && forall|j: int|
        0 <= j < 64 && #[trigger] m.squares[j] == Some((Color::Black, Piece::King)) ==> j == k;
    let king_moves = is_piece(m.squares[f], Color::White, Piece::King);
    let nw = if king_moves { t } else { kw };
    lemma_square_after(m, mv, nw);
    lemma_square_after(m, mv, kb);
    if fl == 5 {
        assert(m.squares[t - 8] == Some((Color::Black, Piece::Pawn)));
    }
    assert(a.squares[nw] == Some((Color::White, Piece::King)));
    assert forall|j: int| 0 <= j < 64 && #[trigger] a.squares[j] == Some((Color::White, Piece::King))
        implies j == nw by {
        lemma_square_after(m, mv, j);
    }
    assert(a.squares[kb] == Some((Color::Black, Piece::King)));
    assert forall|j: int| 0 <= j < 64 && #[trigger] a.squares[j] == Some((Color::Black, Piece::King))
        implies j == kb by {
        lemma_square_after(m, mv, j);
    }
}

/// After a White move no pawn stands on the first or last rank and the
/// en-passant target is on the third rank or absent.
proof fn lemma_white_move_pawns_ep(m: Model, mv: BitBoardMove)
    requires
        wf_model(m),
        pseudo_white(m, mv),
    ensures
        no_pawn_on_edge(apply_white(m, mv)),
        ep_ok(apply_white(m, mv)),
{
    lemma_pseudo_facts(m, mv);
    let a = apply_white(m, mv);
    assert forall|i: int| 0 <= i < 64 && (i / 8 == 0 || i / 8 == 7) implies !(#[trigger] a.squares[i] matches Some(
        (_, Piece::Pawn),
    )) by {
        lemma_square_after(m, mv, i);
    }
}

/// After a White move every castling flag still set has its piece home.
proof fn lemma_white_move_castling(m: Model, mv: BitBoardMove)
    requires
        wf_model(m),
        pseudo_white(m, mv),
    ensures
        castling_ok(apply_white(m, mv)),
{
    lemma_pseudo_facts(m, mv);
    let f = mv.from_spec();
    let t = mv.to_spec();
    let fl = mv.flags_spec();
    let c = m.castling;
    let moving = m.squares[f];
    let captured = m.squares[t];
    let c1 = if is_piece(captured, Color::Black, Piece::Rook) && t == 56 {
        clear_flag(c, 3)
    } else if is_piece(captured, Color::Black, Piece::Rook) && t == 63 {
        clear_flag(c, 4)
    } else {
        c
    };
    lemma_clear_flag(c, 3);
    lemma_clear_flag(c, 4);
    lemma_clear_flag(c1, 0);
    lemma_clear_flag(c1, 1);
    lemma_clear_flag(clear_flag(c1, 0), 1);
    lemma_clear_flag(clear_flag(clear_flag(c1, 0), 1), 2);
    let c2 = castling_after_white(c, f, t, moving, captured);
    assert(c2 < 64);
    lemma_square_after(m, mv, 0);
    lemma_square_after(m, mv, 7);
    lemma_square_after(m, mv, 4);
    lemma_square_after(m, mv, 56);
    lemma_square_after(m, mv, 63);
    lemma_square_after(m, mv, 60);
    if fl == 5 {
        assert(m.squares[t - 8] == Some((Color::Black, Piece::Pawn)));
    }
}

/// A position whose invariants hold keeps them when mirrored.
pub proof fn lemma_mirror_wf(m: Model)
    requires
        wf_model(m),
    ensures
        wf_model(mirror_model(m)),
{
    let r = mirror_model(m);
    lemma_mirror_castling(m.castling);
    assert forall|i: int| 0 <= i < 64 implies #[trigger] r.squares[i] == match m.squares[flip_sq(i)] {
        Some((c, p)) => Some((c.flip(), p)),
        None => None,
    } by {}
    let kw = choose|k: int| 0 <= k < 64 && m.squares[k] == Some((Color::White, Piece::King)) && forall|j: int|
        0 <= j < 64 && #[trigger] m.squares[j] == Some((Color::White, Piece::King)) ==> j == k;
    let kb = choose|k: int| 0 <= k < 64 && m.squares[k] == Some((Color::Black, Piece::King)) && forall|j: int|
        0 <= j < 64 && #[trigger] m.squares[j] == Some((Color::Black, Piece::King)) ==> j == k;
    lemma_flip_sq(kw);
    lemma_flip_sq(kb);
    assert(r.squares[flip_sq(kb)] == Some((Color::White, Piece::King)));
    assert forall|j: int| 0 <= j < 64 && #[trigger] r.squares[j] == Some((Color::White, Piece::King))
        implies j == flip_sq(kb) by {
        lemma_flip_sq(j);
        assert(m.squares[flip_sq(j)] == Some((Color::Black, Piece::King)));
    }
    assert(r.squares[flip_sq(kw)] == Some((Color::Black, Piece::King)));
    assert forall|j: int| 0 <= j < 64 && #[trigger] r.squares[j] == Some((Color::Black, Piece::King))
        implies j == flip_sq(kw) by {
        lemma_flip_sq(j);
        assert(m.squares[flip_sq(j)] == Some((Color::White, Piece::King)));
    }
    assert forall|i: int| 0 <= i < 64 && (i / 8 == 0 || i / 8 == 7) implies !(#[trigger] r.squares[i] matches Some(
        (_, Piece::Pawn),
    )) by {
        lemma_flip_sq(i);
        assert(!(m.squares[flip_sq(i)] matches Some((_, Piece::Pawn))));
    }
    if m.ep is Some {
        lemma_flip_sq(m.ep->0);
    }
    assert(flag(r.castling, 0) == flag(m.castling, 3));
    assert(flag(r.castling, 1) == flag(m.castling, 4));
    assert(flag(r.castling, 2) == flag(m.castling, 5));
    assert(flag(r.castling, 3) == flag(m.castling, 0));
    assert(flag(r.castling, 4) == flag(m.castling, 1));
    assert(flag(r.castling, 5) == flag(m.castling, 2));
    assert(flip_sq(0) == 56 && flip_sq(7) == 63 && flip_sq(4) == 60);
    assert(flip_sq(56) == 0 && flip_sq(63) == 7 && flip_sq(60) == 4);
}

/// Playing a legal move keeps every invariant of the position: one king
/// for each side, no pawn on the first or last rank, an en-passant
/// target on the third or sixth rank, and castling flags that match the
/// pieces on their home squares.
pub proof fn lemma_legal_move_keeps_invariants(m: Model, mv: BitBoardMove)
    requires
        wf_model(m),
        legal(m, mv),
    ensures
        wf_model(apply_model(m, mv)),
{
    if m.side == Color::White {
        lemma_white_move_kings(m, mv);
        lemma_white_move_pawns_ep(m, mv);
        lemma_white_move_castling(m, mv);
    } else {
        let w = mirror_model(m);
        lemma_mirror_wf(m);
        lemma_white_move_kings(w, mirror_move(mv));
        lemma_white_move_pawns_ep(w, mirror_move(mv));
        lemma_white_move_castling(w, mirror_move(mv));
        let a = apply_white(w, mirror_move(mv));
        assert(a.squares.len() == 64);
        lemma_mirror_wf(a);
    }
}

/// Square `x` is one of the `n - 1` squares after `s` in steps of `step`.
pub open spec fn on_ray(s: int, step: int, n: int, x: int) -> bool
    decreases n,
{
    if n <= 1 {
        false
    } else {
        s + step == x || on_ray(s + step, step, n - 1, x)
    }
}

/// Square `x` lies strictly between `s` and `k` on their line.
pub open spec fn strictly_between(s: int, k: int, x: int) -> bool {
    on_ray(s, line_step(s, k), line_dist(s, k), x)
}

/// The squares from `s` on, in steps of (`sf` files, `sr` ranks), stay
/// on the board for `n` steps.
pub open spec fn ray_on_board(cf: int, cr: int, sf: int, sr: int, n: int) -> bool {
    &&& 0 <= cf < 8 && 0 <= cr < 8
    &&& -1 <= sf <= 1 && -1 <= sr <= 1
    &&& n >= 1
    &&& 0 <= cf + (if sf > 0 { n } else if sf < 0 { -n } else { 0 }) < 8
    &&& 0 <= cr + (if sr > 0 { n } else if sr < 0 { -n } else { 0 }) < 8
}

/// Putting a piece on `x` closes a ray exactly when `x` is on it.
proof fn lemma_ray_after_put(r: Model, a: Model, x: int, cf: int, cr: int, sf: int, sr: int, n: int)
    requires
        r.squares.len() == 64,
        a.squares == r.squares.update(x, a.squares[x]),
        a.squares[x] is Some,
        0 <= x < 64,
        ray_on_board(cf, cr, sf, sr, n),
    ensures
        ray_clear(a, cr * 8 + cf, sr * 8 + sf, n) == (ray_clear(r, cr * 8 + cf, sr * 8 + sf, n)
            && !on_ray(cr * 8 + cf, sr * 8 + sf, n, x)),
    decreases n,
{
    if n > 1 {
        assert(ray_on_board(cf + sf, cr + sr, sf, sr, n - 1));
        lemma_ray_after_put(r, a, x, cf + sf, cr + sr, sf, sr, n - 1);
        assert((cr + sr) * 8 + (cf + sf) == cr * 8 + cf + (sr * 8 + sf));
    }
}

/// The ray from `s` toward an aligned square `k` stays on the board.
proof fn lemma_line_on_board(s: int, k: int)
    requires
        0 <= s < 64,
        0 <= k < 64,
        orthogonal(s, k) || diagonal(s, k),
    ensures
        ray_on_board(s % 8, s / 8, sign(dfile(s, k)), sign(drank(s, k)), line_dist(s, k)),
        line_step(s, k) == sign(drank(s, k)) * 8 + sign(dfile(s, k)),
        s == (s / 8) * 8 + s % 8,
{
}

/// The kind of the piece on a square (a pawn stands in for an empty one).
pub open spec fn kind_at(x: Option<(Color, Piece)>) -> Piece {
    match x {
        Some((_, p)) => p,
        None => Piece::Pawn,
    }
}

/// A Black rook, bishop or queen on `s` attacks `k` along its line.
pub open spec fn black_slider_attacks(m: Model, s: int, k: int) -> bool {
    match m.squares[s] {
        Some((Color::Black, p)) => (p == Piece::Rook || p == Piece::Bishop || p == Piece::Queen)
            && piece_attacks(m, Color::Black, p, s, k),
        _ => false,
    }
}

/// The position with the capturing pawn and the captured pawn of an
/// en-passant capture taken off the board.
pub open spec fn without_both_pawns(m: Model, mv: BitBoardMove) -> Model {
    Model { squares: m.squares.update(mv.from_spec(), None).update(mv.to_spec() - 8, None), ..m }
}

/// An en-passant capture of White is legal exactly when, with both pawns
/// taken off, no Black rook, bishop or queen attacks the White king along
/// its line. Left out are the positions where the statement does not
/// hold: a Black knight, king or pawn other than the captured pawn
/// attacking the king, or the capturing pawn landing between the king
/// and a piece that the removal uncovers.
pub proof fn lemma_en_passant_discovery(m: Model, mv: BitBoardMove, k: int)
    requires
        wf_model(m),
        m.side == Color::White,
        pseudo_white(m, mv),
        mv.flags_spec() == EP_CAPTURE as int,
        0 <= k < 64,
        m.squares[k] == Some((Color::White, Piece::King)),
        forall|s: int|
            0 <= s < 64 && s != mv.to_spec() - 8 && (#[trigger] m.squares[s] matches Some(
                (Color::Black, p),
            ) && (p == Piece::Knight || p == Piece::Pawn || p == Piece::King)) ==> !black_attacks_from(
                m,
                s,
                k,
            ),
        forall|s: int|
            0 <= s < 64 && #[trigger] black_slider_attacks(without_both_pawns(m, mv), s, k)
                ==> !strictly_between(s, k, mv.to_spec()),
    ensures
        legal(m, mv) <==> !exists|s: int|
            0 <= s < 64 && #[trigger] black_slider_attacks(without_both_pawns(m, mv), s, k),
{
    lemma_pseudo_facts(m, mv);
    let f = mv.from_spec();
    let t = mv.to_spec();
    let v = t - 8;
    let r = without_both_pawns(m, mv);
    let a = apply_white(m, mv);
    assert(m.squares[v] == Some((Color::Black, Piece::Pawn)));
    assert(m.squares[t] is None);
    assert forall|j: int| 0 <= j < 64 implies a.squares[j] == r.squares.update(t, Some(
        (Color::White, Piece::Pawn),
    ))[j] by {
        lemma_square_after(m, mv, j);
    }
    assert(a.squares =~= r.squares.update(t, Some((Color::White, Piece::Pawn))));
    let kw = choose|q: int| 0 <= q < 64 && m.squares[q] == Some((Color::White, Piece::King)) && forall|j: int|
        0 <= j < 64 && #[trigger] m.squares[j] == Some((Color::White, Piece::King)) ==> j == q;
    assert(kw == k);
    assert(a.squares[k] == Some((Color::White, Piece::King)));
    assert forall|s: int| 0 <= s < 64 implies #[trigger] black_attacks_from(a, s, k) == black_slider_attacks(
        r,
        s,
        k,
    ) by {
        if a.squares[s] matches Some((Color::Black, _)) {
            assert(s != f && s != t && s != v);
            assert(a.squares[s] == m.squares[s] && r.squares[s] == m.squares[s]);
            let p = kind_at(a.squares[s]);
            if p == Piece::Rook || p == Piece::Bishop || p == Piece::Queen {
                if orthogonal(s, k) || diagonal(s, k) {
                    lemma_line_on_board(s, k);
                    lemma_ray_after_put(
                        r,
                        a,
                        t,
                        s % 8,
                        s / 8,
                        sign(dfile(s, k)),
                        sign(drank(s, k)),
                        line_dist(s, k),
                    );
                }
            } else {
                assert(!black_attacks_from(m, s, k));
            }
        } else {
            if r.squares[s] matches Some((Color::Black, _)) {
                assert(s != t);
            }
        }
    }
    if white_in_check(a) {
        let q = choose|q: int| 0 <= q < 64 && #[trigger] a.squares[q] == Some((Color::White, Piece::King))
            && attacked_by_black(a, q);
        lemma_square_after(m, mv, q);
        assert(q == k);
        let s = choose|s: int| 0 <= s < 64 && #[trigger] black_attacks_from(a, s, k);
        assert(black_slider_attacks(r, s, k));
    }
    if exists|s: int| 0 <= s < 64 && #[trigger] black_slider_attacks(r, s, k) {
        let s = choose|s: int| 0 <= s < 64 && #[trigger] black_slider_attacks(r, s, k);
        assert(black_attacks_from(a, s, k));
        assert(attacked_by_black(a, k));
    }
}

/// `j` steps of sign `s`.
pub open spec fn off(s: int, j: int) -> int {
    if s > 0 {
        j
    } else if s < 0 {
        -j
    } else {
        0
    }
}

/// A square on a ray is `j` steps from its start, with `0 < j < n`.
proof fn lemma_on_ray_point(cf: int, cr: int, sf: int, sr: int, n: int, x: int) -> (j: int)
    requires
        ray_on_board(cf, cr, sf, sr, n),
        on_ray(cr * 8 + cf, sr * 8 + sf, n, x),
    ensures
        1 <= j < n,
        x % 8 == cf + off(sf, j),
        x / 8 == cr + off(sr, j),
    decreases n,
{
    assert(ray_on_board(cf + sf, cr + sr, sf, sr, n - 1));
    assert((cr + sr) * 8 + (cf + sf) == cr * 8 + cf + (sr * 8 + sf));
    if cr * 8 + cf + (sr * 8 + sf) == x {
        1
    } else {
        let j = lemma_on_ray_point(cf + sf, cr + sr, sf, sr, n - 1, x);
        j + 1
    }
}

/// The square `j` steps along a ray, with `0 < j < n`, is on it.
proof fn lemma_point_on_ray(cf: int, cr: int, sf: int, sr: int, n: int, j: int, x: int)
    requires
        ray_on_board(cf, cr, sf, sr, n),
        1 <= j < n,
        x == (cr + off(sr, j)) * 8 + cf + off(sf, j),
    ensures
        on_ray(cr * 8 + cf, sr * 8 + sf, n, x),
    decreases j,
{
    assert(ray_on_board(cf + sf, cr + sr, sf, sr, n - 1));
    assert((cr + sr) * 8 + (cf + sf) == cr * 8 + cf + (sr * 8 + sf));
    if j > 1 {
        lemma_point_on_ray(cf + sf, cr + sr, sf, sr, n - 1, j - 1, x);
    }
}

/// On a clear ray every square between is empty.
proof fn lemma_clear_point_empty(m: Model, s: int, step: int, n: int, x: int)
    requires
        ray_clear(m, s, step, n),
        on_ray(s, step, n, x),
    ensures
        m.squares[x] is None,
    decreases n,
{
    if s + step != x {
        lemma_clear_point_empty(m, s + step, step, n - 1, x);
    }
}

/// A ray stays clear when no square on it is newly occupied.
proof fn lemma_ray_stays_clear(m: Model, a: Model, t: int, cf: int, cr: int, sf: int, sr: int, n: int)
    requires
        ray_on_board(cf, cr, sf, sr, n),
        forall|x: int| 0 <= x < 64 && x != t && #[trigger] m.squares[x] is None ==> a.squares[x] is None,
        ray_clear(m, cr * 8 + cf, sr * 8 + sf, n),
        !on_ray(cr * 8 + cf, sr * 8 + sf, n, t),
    ensures
        ray_clear(a, cr * 8 + cf, sr * 8 + sf, n),
    decreases n,
{
    if n > 1 {
        assert(ray_on_board(cf + sf, cr + sr, sf, sr, n - 1));
        assert((cr + sr) * 8 + (cf + sf) == cr * 8 + cf + (sr * 8 + sf));
        lemma_ray_stays_clear(m, a, t, cf + sf, cr + sr, sf, sr, n - 1);
    }
}

/// The line from `s` to an aligned `k`, in coordinates.
proof fn lemma_line_coords(s: int, k: int)
    requires
        0 <= s < 64,
        0 <= k < 64,
        orthogonal(s, k) || diagonal(s, k),
    ensures
        ray_on_board(s % 8, s / 8, sign(dfile(s, k)), sign(drank(s, k)), line_dist(s, k)),
        line_step(s, k) == sign(drank(s, k)) * 8 + sign(dfile(s, k)),
        s == (s / 8) * 8 + s % 8,
        k % 8 == s % 8 + off(sign(dfile(s, k)), line_dist(s, k)),
        k / 8 == s / 8 + off(sign(drank(s, k)), line_dist(s, k)),
        sign(dfile(s, k)) != 0 || sign(drank(s, k)) != 0,
{
}

/// A rook, bishop or queen stands on the square.
pub open spec fn is_slider(x: Option<(Color, Piece)>) -> bool {
    x matches Some((_, p)) && (p == Piece::Rook || p == Piece::Bishop || p == Piece::Queen)
}

/// A checking piece still gives check after a White move that neither
/// captures it nor lands between it and the king.
proof fn lemma_checker_survives(m: Model, mv: BitBoardMove, k: int, c: int)
    requires
        m.squares.len() == 64,
        pseudo_white(m, mv),
        !is_piece(m.squares[mv.from_spec()], Color::White, Piece::King),
        0 <= k < 64,
        m.squares[k] == Some((Color::White, Piece::King)),
        0 <= c < 64,
        black_attacks_from(m, c, k),
        c != mv.to_spec(),
        !(mv.flags_spec() == 5 && c == mv.to_spec() - 8),
        is_slider(m.squares[c]) ==> !strictly_between(c, k, mv.to_spec()),
    ensures
        black_attacks_from(apply_white(m, mv), c, k),
{
    lemma_pseudo_facts(m, mv);
    let a = apply_white(m, mv);
    let t = mv.to_spec();
    lemma_square_after(m, mv, c);
    assert(a.squares[c] == m.squares[c]);
    if is_slider(m.squares[c]) {
        lemma_line_coords(c, k);
        assert forall|x: int| 0 <= x < 64 && x != t && #[trigger] m.squares[x] is None implies a.squares[x] is None by {
            lemma_square_after(m, mv, x);
        }
        lemma_ray_stays_clear(
            m,
            a,
            t,
            c % 8,
            c / 8,
            sign(dfile(c, k)),
            sign(drank(c, k)),
            line_dist(c, k),
        );
    }
}

/// Two distinct sliders checking the king cannot both have `t` between
/// themselves and the king.
proof fn lemma_two_sliders_one_square(m: Model, k: int, c1: int, c2: int, t: int)
    requires
        0 <= k < 64,
        0 <= c1 < 64,
        0 <= c2 < 64,
        0 <= t < 64,
        c1 != c2,
        black_attacks_from(m, c1, k),
        black_attacks_from(m, c2, k),
        is_slider(m.squares[c1]),
        is_slider(m.squares[c2]),
    ensures
        !(strictly_between(c1, k, t) && strictly_between(c2, k, t)),
{
    if strictly_between(c1, k, t) && strictly_between(c2, k, t) {
        lemma_line_coords(c1, k);
        lemma_line_coords(c2, k);
        let f1 = sign(dfile(c1, k));
        let r1 = sign(drank(c1, k));
        let n1 = line_dist(c1, k);
        let f2 = sign(dfile(c2, k));
        let r2 = sign(drank(c2, k));
        let n2 = line_dist(c2, k);
        let j1 = lemma_on_ray_point(c1 % 8, c1 / 8, f1, r1, n1, t);
        let j2 = lemma_on_ray_point(c2 % 8, c2 / 8, f2, r2, n2, t);
        assert(f1 == f2 && r1 == r2 && n1 - j1 == n2 - j2);
        assert(n1 != n2);
        if n1 < n2 {
            assert(c1 % 8 == c2 % 8 + off(f2, n2 - n1) && c1 / 8 == c2 / 8 + off(r2, n2 - n1));
            lemma_point_on_ray(c2 % 8, c2 / 8, f2, r2, n2, n2 - n1, c1);
            lemma_clear_point_empty(m, c2, line_step(c2, k), n2, c1);
        } else {
            assert(c2 % 8 == c1 % 8 + off(f1, n1 - n2) && c2 / 8 == c1 / 8 + off(r1, n1 - n2));
            lemma_point_on_ray(c1 % 8, c1 / 8, f1, r1, n1, n1 - n2, c2);
            lemma_clear_point_empty(m, c1, line_step(c1, k), n1, c2);
        }
    }
}

/// A checker is put out of action by a White move only if the move
/// captures it, takes it en passant, or lands between it and the king.
pub open spec fn neutralizes(m: Model, mv: BitBoardMove, k: int, c: int) -> bool {
    ||| c == mv.to_spec()
    ||| (mv.flags_spec() == 5 && c == mv.to_spec() - 8)
    ||| (is_slider(m.squares[c]) && strictly_between(c, k, mv.to_spec()))
}

/// One move cannot put two checkers out of action.
proof fn lemma_one_move_one_checker(m: Model, mv: BitBoardMove, k: int, c1: int, c2: int)
    requires
        m.squares.len() == 64,
        pseudo_white(m, mv),
        0 <= k < 64,
        m.squares[k] == Some((Color::White, Piece::King)),
        0 <= c1 < 64,
        0 <= c2 < 64,
        c1 != c2,
        black_attacks_from(m, c1, k),
        black_attacks_from(m, c2, k),
        neutralizes(m, mv, k, c1),
    ensures
        !neutralizes(m, mv, k, c2),
{
    lemma_pseudo_facts(m, mv);
    let t = mv.to_spec();
    let fl = mv.flags_spec();
    if neutralizes(m, mv, k, c2) {
        if is_slider(m.squares[c1]) && is_slider(m.squares[c2]) {
            lemma_two_sliders_one_square(m, k, c1, c2, t);
        }
        // A checker captured on `t` stands between the other and the king.
        if c1 == t && is_slider(m.squares[c2]) && strictly_between(c2, k, t) {
            lemma_clear_point_empty(m, c2, line_step(c2, k), line_dist(c2, k), t);
        }
        if c2 == t && is_slider(m.squares[c1]) && strictly_between(c1, k, t) {
            lemma_clear_point_empty(m, c1, line_step(c1, k), line_dist(c1, k), t);
        }
        // A pawn taken en passant checks diagonally; `t` is then a
        // knight's jump from the king, on no line through it.
        if fl == 5 && c1 == t - 8 && is_slider(m.squares[c2]) && strictly_between(c2, k, t) {
            lemma_line_coords(c2, k);
            let j = lemma_on_ray_point(c2 % 8, c2 / 8, sign(dfile(c2, k)), sign(drank(c2, k)),
                line_dist(c2, k), t);
            assert(t / 8 == (t - 8) / 8 + 1 && t % 8 == (t - 8) % 8);
        }
        if fl == 5 && c2 == t - 8 && is_slider(m.squares[c1]) && strictly_between(c1, k, t) {
            lemma_line_coords(c1, k);
            let j = lemma_on_ray_point(c1 % 8, c1 / 8, sign(dfile(c1, k)), sign(drank(c1, k)),
                line_dist(c1, k), t);
            assert(t / 8 == (t - 8) / 8 + 1 && t % 8 == (t - 8) % 8);
        }
    }
}

/// When two Black pieces give check to the White king, every legal move
/// of White is a king move.
pub proof fn lemma_double_check_king_moves(m: Model, mv: BitBoardMove, k: int, c1: int, c2: int)
    requires
        m.squares.len() == 64,
        m.side == Color::White,
        0 <= k < 64,
        m.squares[k] == Some((Color::White, Piece::King)),
        0 <= c1 < 64,
        0 <= c2 < 64,
        c1 != c2,
        black_attacks_from(m, c1, k),
        black_attacks_from(m, c2, k),
        legal(m, mv),
    ensures
        is_piece(m.squares[mv.from_spec()], Color::White, Piece::King),
{
    if !is_piece(m.squares[mv.from_spec()], Color::White, Piece::King) {
        lemma_pseudo_facts(m, mv);
        let a = apply_white(m, mv);
        lemma_square_after(m, mv, k);
        if mv.flags_spec() == EP_CAPTURE as int {
            assert(m.squares[mv.to_spec() - 8] == Some((Color::Black, Piece::Pawn)));
        }
        assert(a.squares[k] == Some((Color::White, Piece::King)));
        let c = if neutralizes(m, mv, k, c1) {
            lemma_one_move_one_checker(m, mv, k, c1, c2);
            c2
        } else {
            c1
        };
        lemma_checker_survives(m, mv, k, c);
        assert(attacked_by_black(a, k));
        assert(white_in_check(a));
    }
}

/// The same for Black: when two White pieces give check to the Black
/// king (as seen on the mirrored board), every legal move of Black is a
/// king move.
pub proof fn lemma_double_check_king_moves_black(m: Model, mv: BitBoardMove, k: int, c1: int, c2: int)
    requires
        wf_model(m),
        m.side == Color::Black,
        0 <= k < 64,
        m.squares[k] == Some((Color::Black, Piece::King)),
        0 <= c1 < 64,
        0 <= c2 < 64,
        c1 != c2,
        black_attacks_from(mirror_model(m), flip_sq(c1), flip_sq(k)),
        black_attacks_from(mirror_model(m), flip_sq(c2), flip_sq(k)),
        legal(m, mv),
    ensures
        is_piece(m.squares[mv.from_spec()], Color::Black, Piece::King),
{
    let w = mirror_model(m);
    lemma_mirror_wf(m);
    lemma_flip_sq(k);
    lemma_flip_sq(c1);
    lemma_flip_sq(c2);
    lemma_mirror_move(mv);
    lemma_flip_sq(mv.from_spec());
    assert(flip_sq(c1) != flip_sq(c2));
    lemma_double_check_king_moves(w, mirror_move(mv), flip_sq(k), flip_sq(c1), flip_sq(c2));
    assert(w.squares[flip_sq(mv.from_spec())] == Some((Color::White, Piece::King)));
}

} // verus!
