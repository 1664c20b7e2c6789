use vstd::prelude::*;
use crate::types::{Color, Piece};
use crate::moves::BitBoardMove;
use crate::position::{apply_model, mirror_model, BitBoardState, Model};
use crate::rules::{legal, white_in_check, white_in_check_exec};
use crate::movegen::{generate_moves, legal_set};

verus! {

/// Score of a checkmated side.
pub const MATE_SCORE: i64 = 1_000_000_000;

/// Larger than any score.
pub const INFINITY: i64 = 2_000_000_000;

/// Weight of one legal move in the evaluation.
pub const MOBILITY_WEIGHT: i64 = 10;

pub open spec fn piece_value_spec(p: Piece) -> int {
    match p {
        Piece::King => 0,
        Piece::Queen => 900,
        Piece::Rook => 500,
        Piece::Bishop => 300,
        Piece::Knight => 300,
        Piece::Pawn => 100,
    }
}

/// Material value of a piece: pawn 100, knight and bishop 300, rook 500,
/// queen 900, king 0.
pub fn piece_value(piece: Piece) -> (r: i64)
    ensures
        r as int == piece_value_spec(piece),
{
    match piece {
        Piece::King => 0,
        Piece::Queen => 900,
        Piece::Rook => 500,
        Piece::Bishop => 300,
        Piece::Knight => 300,
        Piece::Pawn => 100,
    }
}

/// Material of colour `c` on the first `n` squares.
pub open spec fn material_upto(sq: Seq<Option<(Color, Piece)>>, c: Color, n: int) -> int
    decreases n,
{
    if n <= 0 {
        0
    } else {
        material_upto(sq, c, n - 1) + match sq[n - 1] {
            Some((pc, p)) => if pc == c {
                piece_value_spec(p)
            } else {
                0
            },
            None => 0,
        }
    }
}

pub open spec fn material(m: Model, c: Color) -> int {
    material_upto(m.squares, c, 64)
}

/// The position with `c` to move and all else kept.
pub open spec fn with_side(m: Model, c: Color) -> Model {
    Model { side: c, ..m }
}

/// The evaluation of a position for `c`: material of `c` minus material
/// of the other side, plus ten times the difference between the numbers
/// of legal moves each side would have if it were to move.
pub open spec fn evaluation(m: Model, c: Color) -> int {
    material(m, c) - material(m, c.flip()) + MOBILITY_WEIGHT * (legal_set(with_side(m, c)).len()
        - legal_set(with_side(m, c.flip())).len())
}

/// A king of colour `c` is attacked; for Black this is White's check in
/// the mirrored position.
pub open spec fn king_attacked(m: Model, c: Color) -> bool {
    if c == Color::White {
        white_in_check(m)
    } else {
        white_in_check(mirror_model(m))
    }
}

/// The side to move has a king in check.
pub open spec fn in_check(m: Model) -> bool {
    king_attacked(m, m.side)
}

fn material_exec(s: &BitBoardState, c: Color) -> (r: i64)
    ensures
        r as int == material(s@, c),
        0 <= r <= 57600,
{
    let mut total: i64 = 0;
    let mut i: usize = 0;
    while i < 64
        invariant
            i <= 64,
            total as int == material_upto(s@.squares, c, i as int),
            0 <= total <= 900 * i,
        decreases 64 - i,
    {
        match s.bitboard.get_piece(i) {
            Some((pc, p)) => {
                if pc == c {
                    total = total + piece_value(p);
                }
            },
            None => {},
        }
        i += 1;
    }
    total
}

/// Evaluates a position for `evaluate_color`.
pub fn evaluate_bitboard(bitboard: &BitBoardState, evaluate_color: Color) -> (r: i64)
    requires
        bitboard.bitboard.disjoint(),
    ensures
        r as int == evaluation(bitboard@, evaluate_color),
        -300_000 <= r <= 300_000,
{
    let opposite = evaluate_color.opposite();
    let ours = material_exec(bitboard, evaluate_color);
    let theirs = material_exec(bitboard, opposite);
    let mut s = *bitboard;
    s.active_color = evaluate_color;
    assert(s@ == with_side(bitboard@, evaluate_color));
    let our_moves = generate_moves(&s).len() as i64;
    s.active_color = opposite;
    assert(s@ == with_side(bitboard@, opposite));
    let their_moves = generate_moves(&s).len() as i64;
    ours - theirs + MOBILITY_WEIGHT * (our_moves - their_moves)
}

/// Whether the side to move has a king in check.
pub fn side_in_check(state: &BitBoardState) -> (r: bool)
    requires
        state.bitboard.disjoint(),
    ensures
        r == in_check(state@),
{
    match state.active_color {
        Color::White => white_in_check_exec(state),
        Color::Black => {
            let mut m = *state;
            m.mirror_board();
            white_in_check_exec(&m)
        },
    }
}

/// The move whose 16 bits are `c`.
pub open spec fn code_move(c: int) -> BitBoardMove {
    BitBoardMove(c as u16)
}

/// Number of leaf positions reached by playing every sequence of `depth`
/// legal moves.
pub open spec fn perft_spec(m: Model, depth: nat) -> int
    decreases depth, 65537int,
{
    if depth == 0 {
        1
    } else {
        perft_sum(m, depth, 65536)
    }
}

/// The leaf counts below the legal moves whose codes are below `n`.
pub open spec fn perft_sum(m: Model, depth: nat, n: int) -> int
    decreases depth, n,
{
    if n <= 0 || n > 65536 || depth == 0 {
        0
    } else {
        perft_sum(m, depth, n - 1) + if legal(m, code_move(n - 1)) {
            perft_spec(apply_model(m, code_move(n - 1)), (depth - 1) as nat)
        } else {
            0
        }
    }
}

/// A count, capped at the largest `usize`.
pub open spec fn capped(x: int) -> int {
    if x > usize::MAX {
        usize::MAX as int
    } else {
        x
    }
}

/// The leaf counts below the moves of `s`, in order.
pub open spec fn seq_sum(m: Model, depth: nat, s: Seq<BitBoardMove>) -> int
    decreases s.len(),
{
    if s.len() == 0 {
        0
    } else {
        seq_sum(m, depth, s.drop_last()) + perft_spec(apply_model(m, s.last()), (depth - 1) as nat)
    }
}

/// The leaf counts below the moves of `s`, taken in the order of their codes below `n`.
pub open spec fn code_sum(m: Model, depth: nat, s: Seq<BitBoardMove>, n: int) -> int
    decreases n,
{
    if n <= 0 {
        0
    } else {
        code_sum(m, depth, s, n - 1) + if s.contains(code_move(n - 1)) {
            perft_spec(apply_model(m, code_move(n - 1)), (depth - 1) as nat)
        } else {
            0
        }
    }
}

proof fn lemma_perft_nonneg(m: Model, depth: nat)
    ensures
        perft_spec(m, depth) >= 0,
    decreases depth, 65537int,
{
    if depth > 0 {
        lemma_perft_sum_nonneg(m, depth, 65536);
    }
}

proof fn lemma_perft_sum_nonneg(m: Model, depth: nat, n: int)
    ensures
        perft_sum(m, depth, n) >= 0,
    decreases depth, n,
{
    if n > 0 && n <= 65536 && depth > 0 {
        lemma_perft_sum_nonneg(m, depth, n - 1);
        if legal(m, code_move(n - 1)) {
            lemma_perft_nonneg(apply_model(m, code_move(n - 1)), (depth - 1) as nat);
        }
    }
}

proof fn lemma_code_sum_push(m: Model, depth: nat, s: Seq<BitBoardMove>, a: BitBoardMove, n: int)
    requires
        !s.contains(a),
        0 <= n <= 65536,
    ensures
        code_sum(m, depth, s.push(a), n) == code_sum(m, depth, s, n) + if (a.0 as int) < n {
            perft_spec(apply_model(m, a), (depth - 1) as nat)
        } else {
            0
        },
    decreases n,
{
    if n > 0 {
        lemma_code_sum_push(m, depth, s, a, n - 1);
        let x = code_move(n - 1);
        assert(s.push(a).contains(x) <==> (s.contains(x) || x == a)) by {
            if s.push(a).contains(x) {
                let i = choose|i: int| 0 <= i < s.push(a).len() && s.push(a)[i] == x;
                if i < s.len() {
                    assert(s[i] == x);
                }
            }
            if s.contains(x) {
                let i = choose|i: int| 0 <= i < s.len() && s[i] == x;
                assert(s.push(a)[i] == x);
            }
            if x == a {
                assert(s.push(a)[s.len() as int] == x);
            }
        }
        assert(code_move(a.0 as int) == a);
    }
}

/// Summing in the order of a list without repeats, or in the order of
/// the codes of its moves, gives the same total.
proof fn lemma_seq_sum_by_codes(m: Model, depth: nat, s: Seq<BitBoardMove>)
    requires
        s.no_duplicates(),
    ensures
        seq_sum(m, depth, s) == code_sum(m, depth, s, 65536),
    decreases s.len(),
{
    if s.len() == 0 {
        lemma_code_sum_empty(m, depth, s, 65536);
    } else {
        let p = s.drop_last();
        assert(p.no_duplicates());
        assert(!p.contains(s.last())) by {
            if p.contains(s.last()) {
                let i = choose|i: int| 0 <= i < p.len() && p[i] == s.last();
                assert(s[i] == s[s.len() - 1]);
            }
        }
        lemma_seq_sum_by_codes(m, depth, p);
        assert(p.push(s.last()) == s);
        lemma_code_sum_push(m, depth, p, s.last(), 65536);
    }
}

proof fn lemma_code_sum_empty(m: Model, depth: nat, s: Seq<BitBoardMove>, n: int)
    requires
        s.len() == 0,
    ensures
        code_sum(m, depth, s, n) == 0,
    decreases n,
{
    if n > 0 {
        lemma_code_sum_empty(m, depth, s, n - 1);
    }
}

/// Over a list of exactly the legal moves, the code-ordered sum is perft's.
proof fn lemma_code_sum_legal(m: Model, depth: nat, s: Seq<BitBoardMove>, n: int)
    requires
        depth > 0,
        0 <= n <= 65536,
        forall|mv: BitBoardMove| s.contains(mv) <==> legal(m, mv),
    ensures
        code_sum(m, depth, s, n) == perft_sum(m, depth, n),
    decreases n,
{
    if n > 0 {
        lemma_code_sum_legal(m, depth, s, n - 1);
    }
}

proof fn lemma_seq_sum_depth_one(m: Model, s: Seq<BitBoardMove>)
    ensures
        seq_sum(m, 1, s) == s.len(),
    decreases s.len(),
{
    if s.len() > 0 {
        lemma_seq_sum_depth_one(m, s.drop_last());
    }
}

/// Number of leaf positions reached by playing every sequence of `depth`
/// legal moves, capped at the largest `usize`.
pub fn perft(board: &BitBoardState, depth: usize) -> (r: usize)
    requires
        board.bitboard.disjoint(),
    ensures
        r as int == capped(perft_spec(board@, depth as nat)),
        depth == 1 ==> r == legal_set(board@).len(),
    decreases depth,
{
    if depth == 0 {
        return 1;
    }
    let moves = generate_moves(board);
    proof {
        lemma_seq_sum_by_codes(board@, depth as nat, moves@);
        lemma_code_sum_legal(board@, depth as nat, moves@, 65536);
    }
    if depth == 1 {
        proof {
            lemma_seq_sum_depth_one(board@, moves@);
        }
        return moves.len();
    }
    let mut total: usize = 0;
    let mut i: usize = 0;
    while i < moves.len()
        invariant
            i <= moves@.len(),
            depth >= 2,
            board.bitboard.disjoint(),
            total as int == capped(seq_sum(board@, depth as nat, moves@.subrange(0, i as int))),
            seq_sum(board@, depth as nat, moves@.subrange(0, i as int)) >= 0,
        decreases moves@.len() - i,
    {
        let mut child = *board;
        child.apply_move(&moves[i]);
        let n = perft(&child, depth - 1);
        proof {
            lemma_perft_nonneg(child@, (depth - 1) as nat);
            let next = moves@.subrange(0, i as int + 1);
            assert(next.drop_last() =~= moves@.subrange(0, i as int));
            assert(next.last() == moves@[i as int]);
        }
        total = if total <= usize::MAX - n {
            total + n
        } else {
            usize::MAX
        };
        i += 1;
    }
    proof {
        assert(moves@.subrange(0, moves@.len() as int) =~= moves@);
    }
    total
}

/// Every set of legal moves has at most 65536 members: one per code.
pub proof fn lemma_legal_set_bound(m: Model)
    ensures
        legal_set(m).finite(),
        legal_set(m).len() <= 65536,
{
    let codes = vstd::set_lib::set_int_range(0, 65536);
    let all = codes.map(|c: int| code_move(c));
    vstd::set_lib::lemma_int_range(0, 65536);
    vstd::set_lib::lemma_map_size_bound(codes, all, |c: int| code_move(c));
    assert forall|mv: BitBoardMove| legal_set(m).contains(mv) implies all.contains(mv) by {
        assert(codes.contains(mv.0 as int));
        assert(code_move(mv.0 as int) == mv);
    }
    vstd::set_lib::lemma_len_subset(legal_set(m), all);
}

proof fn lemma_material_bound(sq: Seq<Option<(Color, Piece)>>, c: Color, n: int)
    requires
        n >= 0,
    ensures
        0 <= material_upto(sq, c, n) <= 900 * n,
    decreases n,
{
    if n > 0 {
        lemma_material_bound(sq, c, n - 1);
    }
}

/// The evaluation lies well inside the mate scores.
pub proof fn lemma_evaluation_bound(m: Model, c: Color)
    ensures
        -800_000 <= evaluation(m, c) <= 800_000,
{
    lemma_material_bound(m.squares, c, 64);
    lemma_material_bound(m.squares, c.flip(), 64);
    lemma_legal_set_bound(with_side(m, c));
    lemma_legal_set_bound(with_side(m, c.flip()));
}

/// The negamax score of a position searched `depth` plies deep: the
/// evaluation at depth 0, `-MATE_SCORE` when checkmated, 0 when
/// stalemated, and otherwise the best over the legal moves of the
/// negated score of the position after the move.
pub open spec fn negamax(m: Model, depth: nat) -> int
    decreases depth, 65537int,
{
    if depth == 0 {
        evaluation(m, m.side)
    } else if !(exists|mv: BitBoardMove| legal(m, mv)) {
        if in_check(m) {
            -MATE_SCORE as int
        } else {
            0
        }
    } else {
        best_score(m, depth, 65536)
    }
}

/// The best negated child score over the legal moves with codes below `n`
/// (`-INFINITY` when there is none).
pub open spec fn best_score(m: Model, depth: nat, n: int) -> int
    decreases depth, n,
{
    if n <= 0 || n > 65536 || depth == 0 {
        -INFINITY as int
    } else {
        let rest = best_score(m, depth, n - 1);
        if legal(m, code_move(n - 1)) {
            let w = -negamax(apply_model(m, code_move(n - 1)), (depth - 1) as nat);
            if w > rest {
                w
            } else {
                rest
            }
        } else {
            rest
        }
    }
}

/// The score of a move: the negated score of the position after it.
pub open spec fn move_score(m: Model, depth: nat, mv: BitBoardMove) -> int {
    -negamax(apply_model(m, mv), (depth - 1) as nat)
}

/// The best move score along a list of moves (`-INFINITY` when empty).
pub open spec fn seq_best(m: Model, depth: nat, s: Seq<BitBoardMove>) -> int
    decreases s.len(),
{
    if s.len() == 0 {
        -INFINITY as int
    } else {
        let rest = seq_best(m, depth, s.drop_last());
        let w = move_score(m, depth, s.last());
        if w > rest {
            w
        } else {
            rest
        }
    }
}

/// The best move score over the moves of `s` with codes below `n`.
pub open spec fn code_best(m: Model, depth: nat, s: Seq<BitBoardMove>, n: int) -> int
    decreases n,
{
    if n <= 0 {
        -INFINITY as int
    } else {
        let rest = code_best(m, depth, s, n - 1);
        if s.contains(code_move(n - 1)) {
            let w = move_score(m, depth, code_move(n - 1));
            if w > rest {
                w
            } else {
                rest
            }
        } else {
            rest
        }
    }
}

/// A result of a search with window (`alpha`, `beta`) for a true score
/// `v`: exact inside the window, and on the right side of it outside.
pub open spec fn window_ok(r: int, v: int, alpha: int, beta: int) -> bool {
    &&& (alpha < v < beta ==> r == v)
    &&& (v <= alpha ==> r <= alpha)
    &&& (v >= beta ==> r >= beta)
}

proof fn lemma_negamax_bound(m: Model, depth: nat)
    ensures
        -MATE_SCORE <= negamax(m, depth) <= MATE_SCORE,
    decreases depth, 65537int,
{
    if depth == 0 {
        lemma_evaluation_bound(m, m.side);
    } else if exists|mv: BitBoardMove| legal(m, mv) {
        let mv = choose|mv: BitBoardMove| legal(m, mv);
        lemma_best_score_bound(m, depth, 65536);
        lemma_best_score_at_least(m, depth, 65536, mv);
        lemma_negamax_bound(apply_model(m, mv), (depth - 1) as nat);
    }
}

proof fn lemma_best_score_bound(m: Model, depth: nat, n: int)
    ensures
        best_score(m, depth, n) <= MATE_SCORE,
        best_score(m, depth, n) == -INFINITY || best_score(m, depth, n) >= -MATE_SCORE,
    decreases depth, n,
{
    if n > 0 && n <= 65536 && depth > 0 {
        lemma_best_score_bound(m, depth, n - 1);
        if legal(m, code_move(n - 1)) {
            lemma_negamax_bound(apply_model(m, code_move(n - 1)), (depth - 1) as nat);
        }
    }
}

proof fn lemma_best_score_at_least(m: Model, depth: nat, n: int, mv: BitBoardMove)
    requires
        depth > 0,
        0 <= n <= 65536,
        legal(m, mv),
        (mv.0 as int) < n,
    ensures
        best_score(m, depth, n) >= move_score(m, depth, mv),
    decreases n,
{
    if (mv.0 as int) < n - 1 {
        lemma_best_score_at_least(m, depth, n - 1, mv);
    } else {
        assert(code_move(n - 1) == mv);
    }
}

proof fn lemma_code_best_push(m: Model, depth: nat, s: Seq<BitBoardMove>, a: BitBoardMove, n: int)
    requires
        !s.contains(a),
        0 <= n <= 65536,
    ensures
        code_best(m, depth, s.push(a), n) == if (a.0 as int) < n && move_score(m, depth, a) > code_best(
            m,
            depth,
            s,
            n,
        ) {
            move_score(m, depth, a)
        } else {
            code_best(m, depth, s, n)
        },
    decreases n,
{
    if n > 0 {
        lemma_code_best_push(m, depth, s, a, n - 1);
        let x = code_move(n - 1);
        assert(s.push(a).contains(x) <==> (s.contains(x) || x == a)) by {
            if s.push(a).contains(x) {
                let i = choose|i: int| 0 <= i < s.push(a).len() && s.push(a)[i] == x;
                if i < s.len() {
                    assert(s[i] == x);
                }
            }
            if s.contains(x) {
                let i = choose|i: int| 0 <= i < s.len() && s[i] == x;
                assert(s.push(a)[i] == x);
            }
            if x == a {
                assert(s.push(a)[s.len() as int] == x);
            }
        }
        assert(code_move(a.0 as int) == a);
    }
}

proof fn lemma_code_best_empty(m: Model, depth: nat, s: Seq<BitBoardMove>, n: int)
    requires
        s.len() == 0,
    ensures
        code_best(m, depth, s, n) == -INFINITY,
    decreases n,
{
    if n > 0 {
        lemma_code_best_empty(m, depth, s, n - 1);
    }
}

/// The best score along a list without repeats does not depend on its order.
proof fn lemma_seq_best_by_codes(m: Model, depth: nat, s: Seq<BitBoardMove>)
    requires
        s.no_duplicates(),
    ensures
        seq_best(m, depth, s) == code_best(m, depth, s, 65536),
    decreases s.len(),
{
    if s.len() == 0 {
        lemma_code_best_empty(m, depth, s, 65536);
    } else {
        let p = s.drop_last();
        assert(p.no_duplicates());
        assert(!p.contains(s.last())) by {
            if p.contains(s.last()) {
                let i = choose|i: int| 0 <= i < p.len() && p[i] == s.last();
                assert(s[i] == s[s.len() - 1]);
            }
        }
        lemma_seq_best_by_codes(m, depth, p);
        assert(p.push(s.last()) == s);
        lemma_code_best_push(m, depth, p, s.last(), 65536);
    }
}

proof fn lemma_code_best_legal(m: Model, depth: nat, s: Seq<BitBoardMove>, n: int)
    requires
        depth > 0,
        0 <= n <= 65536,
        forall|mv: BitBoardMove| s.contains(mv) <==> legal(m, mv),
    ensures
        code_best(m, depth, s, n) == best_score(m, depth, n),
    decreases n,
{
    if n > 0 {
        lemma_code_best_legal(m, depth, s, n - 1);
    }
}

/// The best score along a list is at least the score of each of its moves.
proof fn lemma_seq_best_at_least(m: Model, depth: nat, s: Seq<BitBoardMove>, i: int)
    requires
        0 <= i < s.len(),
    ensures
        seq_best(m, depth, s) >= move_score(m, depth, s[i]),
    decreases s.len(),
{
    if i < s.len() - 1 {
        lemma_seq_best_at_least(m, depth, s.drop_last(), i);
    }
}

/// A searcher that counts the positions it visits.
pub struct SearchDriver {
    pub nodes: u64,
}

impl SearchDriver {
    pub fn new() -> (r: Self)
        ensures
            r.nodes == 0,
    {
        SearchDriver { nodes: 0 }
    }

    /// Negamax search with alpha-beta pruning for the side to move. The
    /// result is the negamax score when that lies inside the window
    /// (`alpha`, `beta`), at most `alpha` when the score is, and at least
    /// `beta` when the score is.
    #[verifier::rlimit(60)]
    pub fn alpha_beta_max(&mut self, bitboard: &BitBoardState, alpha: i64, beta: i64, depth: usize) -> (r: i64)
        requires
            bitboard.bitboard.disjoint(),
            -INFINITY <= alpha < beta <= INFINITY,
        ensures
            -MATE_SCORE <= r <= MATE_SCORE,
            window_ok(r as int, negamax(bitboard@, depth as nat), alpha as int, beta as int),
        decreases depth, 0nat,
    {
        self.nodes = if self.nodes < u64::MAX {
            self.nodes + 1
        } else {
            self.nodes
        };
        if depth == 0 {
            return evaluate_bitboard(bitboard, bitboard.active_color);
        }
        let moves = generate_moves(bitboard);
        if moves.len() == 0 {
            proof {
                assert(!exists|mv: BitBoardMove| legal(bitboard@, mv)) by {
                    if exists|mv: BitBoardMove| legal(bitboard@, mv) {
                        let mv = choose|mv: BitBoardMove| legal(bitboard@, mv);
                        assert(moves@.contains(mv));
                    }
                }
            }
            return if side_in_check(bitboard) {
                -MATE_SCORE
            } else {
                0
            };
        }
        let ghost m = bitboard@;
        let ghost d = depth as nat;
        proof {
            assert(moves@.contains(moves@[0]));
            assert(legal(m, moves@[0]));
            lemma_seq_best_by_codes(m, d, moves@);
            lemma_code_best_legal(m, d, moves@, 65536);
            lemma_negamax_bound(m, d);
        }
        let mut best: i64 = -INFINITY;
        let mut a = alpha;
        let mut i: usize = 0;
        while i < moves.len()
            invariant
                i <= moves@.len(),
                depth > 0,
                m == bitboard@,
                d == depth as nat,
                bitboard.bitboard.disjoint(),
                forall|mv: BitBoardMove| moves@.contains(mv) <==> legal(m, mv),
                seq_best(m, d, moves@) == negamax(m, d),
                -INFINITY <= alpha < beta <= INFINITY,
                a as int == if best > alpha { best as int } else { alpha as int },
                best < beta,
                i == 0 ==> best == -INFINITY,
                i > 0 ==> -MATE_SCORE <= best <= MATE_SCORE,
                seq_best(m, d, moves@.subrange(0, i as int)) <= alpha ==> best <= alpha,
                seq_best(m, d, moves@.subrange(0, i as int)) > alpha ==> best as int == seq_best(
                    m,
                    d,
                    moves@.subrange(0, i as int),
                ),
                seq_best(m, d, moves@.subrange(0, i as int)) < beta,
            decreases moves@.len() - i,
        {
            let mut child = *bitboard;
            child.apply_move(&moves[i]);
            let score = self.alpha_beta_min(&child, a, beta, depth - 1);
            let ghost w = move_score(m, d, moves@[i as int]);
            proof {
                lemma_negamax_bound(child@, (d - 1) as nat);
                let next = moves@.subrange(0, i as int + 1);
                assert(next.drop_last() =~= moves@.subrange(0, i as int));
                assert(next.last() == moves@[i as int]);
            }
            if score > best {
                best = score;
            }
            if best >= beta {
                proof {
                    lemma_seq_best_at_least(m, d, moves@, i as int);
                }
                return best;
            }
            if best > a {
                a = best;
            }
            i += 1;
        }
        proof {
            assert(moves@.subrange(0, moves@.len() as int) =~= moves@);
        }
        best
    }

    /// The search from the side that just moved: the negated alpha-beta
    /// search of the side to move with the negated window. The result
    /// obeys the same window rule for the negated negamax score.
    pub fn alpha_beta_min(&mut self, bitboard: &BitBoardState, alpha: i64, beta: i64, depth: usize) -> (r: i64)
        requires
            bitboard.bitboard.disjoint(),
            -INFINITY <= alpha < beta <= INFINITY,
        ensures
            -MATE_SCORE <= r <= MATE_SCORE,
            window_ok(r as int, -negamax(bitboard@, depth as nat), alpha as int, beta as int),
        decreases depth, 1nat,
    {
        let v = self.alpha_beta_max(bitboard, -beta, -alpha, depth);
        -v
    }

    /// The move with the highest score after a search of `depth` plies
    /// (one ply less below each root move), the first such move in
    /// generation order; `None` when the side to move has no legal move.
    #[verifier::rlimit(60)]
    pub fn best_move(&mut self, bitboard: &BitBoardState, depth: usize) -> (r: Option<BitBoardMove>)
        requires
            bitboard.bitboard.disjoint(),
        ensures
            r is None <==> legal_set(bitboard@).len() == 0,
            r is Some ==> legal(bitboard@, r->0),
            r is Some ==> forall|mv: BitBoardMove| #[trigger] legal(bitboard@, mv) ==> move_score(
                bitboard@,
                root_depth(depth),
                mv,
            ) <= move_score(bitboard@, root_depth(depth), r->0),
    {
        let moves = generate_moves(bitboard);
        if moves.len() == 0 {
            return None;
        }
        let child_depth = if depth > 0 {
            depth - 1
        } else {
            0
        };
        let ghost m = bitboard@;
        let ghost d = root_depth(depth);
        let mut best = moves[0];
        let mut best_score: i64 = -INFINITY;
        assert(moves@.contains(moves@[0]));
        let mut i: usize = 0;
        while i < moves.len()
            invariant
                i <= moves@.len(),
                moves@.len() > 0,
                m == bitboard@,
                d == root_depth(depth),
                (d - 1) as nat == child_depth as nat,
                bitboard.bitboard.disjoint(),
                legal(m, best),
                forall|mv: BitBoardMove| moves@.contains(mv) <==> legal(m, mv),
                best_score as int == seq_best(m, d, moves@.subrange(0, i as int)),
                i > 0 ==> best_score as int == move_score(m, d, best),
            decreases moves@.len() - i,
        {
            let mut child = *bitboard;
            child.apply_move(&moves[i]);
            let score = self.alpha_beta_min(&child, -INFINITY, INFINITY, child_depth);
            proof {
                lemma_negamax_bound(child@, child_depth as nat);
                assert(child@ == apply_model(m, moves@[i as int]));
                assert(score as int == move_score(m, d, moves@[i as int]));
                let next = moves@.subrange(0, i as int + 1);
                assert(next.drop_last() =~= moves@.subrange(0, i as int));
                assert(next.last() == moves@[i as int]);
            }
            if score > best_score {
                best_score = score;
                best = moves[i];
                assert(moves@.contains(moves@[i as int]));
            }
            i += 1;
        }
        proof {
            assert(moves@.subrange(0, moves@.len() as int) =~= moves@);
            assert forall|mv: BitBoardMove| #[trigger] legal(m, mv) implies move_score(m, d, mv) <= move_score(
                m,
                d,
                best,
            ) by {
                assert(moves@.contains(mv));
                let j = choose|j: int| 0 <= j < moves@.len() && moves@[j] == mv;
                lemma_seq_best_at_least(m, d, moves@, j);
            }
        }
        Some(best)
    }
}

/// The depth whose moves the root scores: one ply below each root move
/// is searched `depth - 1` deep (0 when `depth` is 0).
pub open spec fn root_depth(depth: usize) -> nat {
    if depth == 0 {
        1
    } else {
        depth as nat
    }
}

/// The best move after a search of `depth` plies, as `SearchDriver::best_move`.
pub fn best_move(bitboard: &BitBoardState, depth: usize) -> (r: Option<BitBoardMove>)
    requires
        bitboard.bitboard.disjoint(),
    ensures
        r is None <==> legal_set(bitboard@).len() == 0,
        r is Some ==> legal(bitboard@, r->0),
        r is Some ==> forall|mv: BitBoardMove| #[trigger] legal(bitboard@, mv) ==> move_score(
            bitboard@,
            root_depth(depth),
            mv,
        ) <= move_score(bitboard@, root_depth(depth), r->0),
{
    let mut driver = SearchDriver::new();
    driver.best_move(bitboard, depth)
}

} // verus!
