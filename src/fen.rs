use vstd::prelude::*;
use vstd::string::StringSliceAdditionalSpecFns;
use crate::types::{Color, Piece};
use crate::square::{algebraic_to_index, square_of_name};
use crate::position::{is_piece_exec, one_king, wf_model, BitBoard, BitBoardState, Model, NO_SQUARE};

verus! {

/// Why a FEN string was refused.
#[derive(Clone, Copy, Debug, PartialEq, Eq, Structural)]
pub enum FenError {
    /// The string holds no field at all.
    MissingBoard,
    /// The piece placement is malformed: an unknown character, a rank
    /// that does not hold eight files, or not eight ranks.
    BadPlacement,
    /// The side to move is neither `w` nor `b`.
    BadSide,
    /// The castling field holds something other than `KQkq` or `-`.
    BadCastling,
    /// The en-passant field is neither `-` nor a square name.
    BadEnPassant,
    /// A clock is not a number of one to nine digits (the full-move
    /// number must also be positive).
    BadCounter,
    /// The fields parse but the position breaks one of its invariants.
    InvalidPosition,
}

pub open spec fn is_space(c: u8) -> bool {
    c == 32 || c == 9 || c == 10 || c == 12 || c == 13
}

/// Start and end of each maximal run of non-space bytes among the first `n`.
pub open spec fn spans(b: Seq<u8>, n: int) -> Seq<(usize, usize)>
    decreases n,
{
    if n <= 0 {
        seq![]
    } else {
        let prev = spans(b, n - 1);
        if is_space(b[n - 1]) {
            prev
        } else if n >= 2 && !is_space(b[n - 2]) && prev.len() > 0 {
            prev.update(prev.len() - 1, (prev.last().0, n as usize))
        } else {
            prev.push(((n - 1) as usize, n as usize))
        }
    }
}

/// The whitespace-separated fields of a text.
pub open spec fn fields(b: Seq<u8>) -> Seq<Seq<u8>> {
    spans(b, b.len() as int).map_values(|p: (usize, usize)| b.subrange(p.0 as int, p.1 as int))
}

/// Field `k`, or the default when the text has fewer fields.
pub open spec fn field_or(b: Seq<u8>, k: int, default: Seq<u8>) -> Seq<u8> {
    if k < fields(b).len() {
        fields(b)[k]
    } else {
        default
    }
}

/// The piece that a FEN letter names: upper case for White.
pub open spec fn piece_of_letter(c: u8) -> Option<(Color, Piece)> {
    if c == 75 {
        Some((Color::White, Piece::King))
    } else if c == 81 {
        Some((Color::White, Piece::Queen))
    } else if c == 82 {
        Some((Color::White, Piece::Rook))
    } else if c == 66 {
        Some((Color::White, Piece::Bishop))
    } else if c == 78 {
        Some((Color::White, Piece::Knight))
    } else if c == 80 {
        Some((Color::White, Piece::Pawn))
    } else if c == 107 {
        Some((Color::Black, Piece::King))
    } else if c == 113 {
        Some((Color::Black, Piece::Queen))
    } else if c == 114 {
        Some((Color::Black, Piece::Rook))
    } else if c == 98 {
        Some((Color::Black, Piece::Bishop))
    } else if c == 110 {
        Some((Color::Black, Piece::Knight))
    } else if c == 112 {
        Some((Color::Black, Piece::Pawn))
    } else {
        None
    }
}

pub open spec fn empty_board() -> Seq<Option<(Color, Piece)>> {
    Seq::new(64, |i: int| None)
}

/// Reading one more character of the placement: `/` ends a full rank,
/// a digit skips that many files, a letter puts a piece.
pub open spec fn place_step(st: Option<(int, int, Seq<Option<(Color, Piece)>>)>, c: u8) -> Option<
    (int, int, Seq<Option<(Color, Piece)>>),
> {
    match st {
        None => None,
        Some((r, f, sq)) => if c == 47 {
            if f == 8 && r > 0 {
                Some((r - 1, 0, sq))
            } else {
                None
            }
        } else if 49 <= c <= 56 {
            if f + (c - 48) <= 8 {
                Some((r, f + (c - 48), sq))
            } else {
                None
            }
        } else if piece_of_letter(c) is Some {
            if f < 8 {
                Some((r, f + 1, sq.update(r * 8 + f, piece_of_letter(c))))
            } else {
                None
            }
        } else {
            None
        },
    }
}

/// The state after the first `n` characters of the placement, which
/// starts on the eighth rank.
pub open spec fn place_prefix(p: Seq<u8>, n: int) -> Option<(int, int, Seq<Option<(Color, Piece)>>)>
    decreases n,
{
    if n <= 0 {
        Some((7, 0, empty_board()))
    } else {
        place_step(place_prefix(p, n - 1), p[n - 1])
    }
}

/// The board a placement field describes: eight ranks of eight files.
pub open spec fn placement(p: Seq<u8>) -> Option<Seq<Option<(Color, Piece)>>> {
    match place_prefix(p, p.len() as int) {
        Some((r, f, sq)) => if r == 0 && f == 8 {
            Some(sq)
        } else {
            None
        },
        None => None,
    }
}

pub open spec fn side_of(s: Seq<u8>) -> Option<Color> {
    if s == seq![119u8] {
        Some(Color::White)
    } else if s == seq![98u8] {
        Some(Color::Black)
    } else {
        None
    }
}

/// The castling flags that one letter grants: `K` White short, `Q` White
/// long, `k` and `q` the same for Black.
pub open spec fn castling_letter(c: u8) -> Option<u8> {
    if c == 75 {
        Some(6u8)
    } else if c == 81 {
        Some(5u8)
    } else if c == 107 {
        Some(48u8)
    } else if c == 113 {
        Some(40u8)
    } else {
        None
    }
}

pub open spec fn castling_prefix(s: Seq<u8>, n: int) -> Option<u8>
    decreases n,
{
    if n <= 0 {
        Some(0u8)
    } else {
        match (castling_prefix(s, n - 1), castling_letter(s[n - 1])) {
            (Some(c), Some(l)) => Some(c | l),
            _ => None,
        }
    }
}

pub open spec fn castling_of(s: Seq<u8>) -> Option<u8> {
    if s == seq![45u8] {
        Some(0u8)
    } else if s.len() == 0 {
        None
    } else {
        castling_prefix(s, s.len() as int)
    }
}

pub open spec fn ep_of(s: Seq<u8>) -> Option<Option<int>> {
    if s == seq![45u8] {
        Some(None)
    } else {
        match square_of_name(s) {
            Some(e) => Some(Some(e)),
            None => None,
        }
    }
}

pub open spec fn digits_value(s: Seq<u8>, n: int) -> int
    decreases n,
{
    if n <= 0 {
        0
    } else {
        digits_value(s, n - 1) * 10 + (s[n - 1] - 48)
    }
}

/// A number of one to nine decimal digits.
pub open spec fn number_of(s: Seq<u8>) -> Option<int> {
    if 1 <= s.len() <= 9 && forall|i: int| 0 <= i < s.len() ==> 48 <= #[trigger] s[i] <= 57 {
        Some(digits_value(s, s.len() as int))
    } else {
        None
    }
}

/// What a FEN string denotes: the position, or the first error met in
/// the order placement, side, castling, en passant, clocks, invariants.
/// Missing trailing fields take the values `w`, `KQkq`, `-`, `0`, `1`.
pub open spec fn parse_fen(b: Seq<u8>) -> Result<Model, FenError> {
    let fs = fields(b);
    if fs.len() == 0 {
        Err(FenError::MissingBoard)
    } else {
        let board = placement(fs[0]);
        let side = side_of(field_or(b, 1, seq![119u8]));
        let castling = castling_of(field_or(b, 2, seq![75u8, 81u8, 107u8, 113u8]));
        let ep = ep_of(field_or(b, 3, seq![45u8]));
        let half = number_of(field_or(b, 4, seq![48u8]));
        let full = number_of(field_or(b, 5, seq![49u8]));
        if board is None {
            Err(FenError::BadPlacement)
        } else if side is None {
            Err(FenError::BadSide)
        } else if castling is None {
            Err(FenError::BadCastling)
        } else if ep is None {
            Err(FenError::BadEnPassant)
        } else if half is None || full is None || full->0 == 0 {
            Err(FenError::BadCounter)
        } else {
            let m = Model {
                squares: board->0,
                side: side->0,
                castling: castling->0,
                ep: ep->0,
                half_moves: half->0,
                full_moves: full->0,
            };
            if wf_model(m) {
                Ok(m)
            } else {
                Err(FenError::InvalidPosition)
            }
        }
    }
}

fn is_space_exec(c: u8) -> (r: bool)
    ensures
        r == is_space(c),
{
    c == 32 || c == 9 || c == 10 || c == 12 || c == 13
}

proof fn lemma_spans_last(b: Seq<u8>, n: int)
    requires
        1 <= n <= b.len(),
        b.len() <= usize::MAX,
        !is_space(b[n - 1]),
    ensures
        spans(b, n).len() > 0,
        spans(b, n).last().1 == n,
        spans(b, n).last().0 < n,
    decreases n,
{
    if n >= 2 && !is_space(b[n - 2]) {
        lemma_spans_last(b, n - 1);
    }
}

proof fn lemma_spans_bounds(b: Seq<u8>, n: int)
    requires
        0 <= n <= b.len(),
        b.len() <= usize::MAX,
    ensures
        forall|k: int| 0 <= k < spans(b, n).len() ==> #[trigger] spans(b, n)[k].0 < spans(b, n)[k].1 <= n,
    decreases n,
{
    if n > 0 {
        lemma_spans_bounds(b, n - 1);
        if !is_space(b[n - 1]) && n >= 2 && !is_space(b[n - 2]) && spans(b, n - 1).len() > 0 {
            lemma_spans_last(b, n - 1);
        }
    }
}

/// Start and end of each whitespace-separated field.
fn split_fields(b: &[u8]) -> (r: Vec<(usize, usize)>)
    ensures
        r@ == spans(b@, b@.len() as int),
        spans_in(r@, b@.len() as int),
{
    let mut r: Vec<(usize, usize)> = Vec::new();
    let mut i: usize = 0;
    while i < b.len()
        invariant
            i <= b@.len(),
            r@ == spans(b@, i as int),
        decreases b@.len() - i,
    {
        if !is_space_exec(b[i]) {
            if i >= 1 && !is_space_exec(b[i - 1]) && r.len() > 0 {
                let last = r.pop().unwrap();
                r.push((last.0, i + 1));
                proof {
                    assert(r@ =~= spans(b@, i as int + 1));
                }
            } else {
                r.push((i, i + 1));
            }
        }
        i += 1;
    }
    proof {
        lemma_spans_bounds(b@, b@.len() as int);
    }
    r
}

/// A copy of `b[start..end]`.
fn copy_range(b: &[u8], start: usize, end: usize) -> (r: Vec<u8>)
    requires
        start <= end <= b@.len(),
    ensures
        r@ == b@.subrange(start as int, end as int),
{
    let mut r: Vec<u8> = Vec::new();
    let mut i = start;
    while i < end
        invariant
            start <= i <= end <= b@.len(),
            r@ == b@.subrange(start as int, i as int),
        decreases end - i,
    {
        r.push(b[i]);
        proof {
            assert(r@ =~= b@.subrange(start as int, i as int + 1));
        }
        i += 1;
    }
    r
}

fn piece_of_letter_exec(c: u8) -> (r: Option<(Color, Piece)>)
    ensures
        r == piece_of_letter(c),
{
    if c == 75 {
        Some((Color::White, Piece::King))
    } else if c == 81 {
        Some((Color::White, Piece::Queen))
    } else if c == 82 {
        Some((Color::White, Piece::Rook))
    } else if c == 66 {
        Some((Color::White, Piece::Bishop))
    } else if c == 78 {
        Some((Color::White, Piece::Knight))
    } else if c == 80 {
        Some((Color::White, Piece::Pawn))
    } else if c == 107 {
        Some((Color::Black, Piece::King))
    } else if c == 113 {
        Some((Color::Black, Piece::Queen))
    } else if c == 114 {
        Some((Color::Black, Piece::Rook))
    } else if c == 98 {
        Some((Color::Black, Piece::Bishop))
    } else if c == 110 {
        Some((Color::Black, Piece::Knight))
    } else if c == 112 {
        Some((Color::Black, Piece::Pawn))
    } else {
        None
    }
}

proof fn lemma_place_none(p: Seq<u8>, i: int, n: int)
    requires
        0 <= i <= n,
        place_prefix(p, i) is None,
    ensures
        place_prefix(p, n) is None,
    decreases n - i,
{
    if i < n {
        lemma_place_none(p, i, n - 1);
    }
}

/// The board of a placement field.
fn parse_placement(p: &Vec<u8>) -> (r: Option<BitBoard>)
    ensures
        match placement(p@) {
            Some(sq) => r is Some && r->0.disjoint() && r->0.squares() == sq,
            None => r is None,
        },
{
    let mut bb = BitBoard::new();
    assert(bb.squares() =~= empty_board());
    let mut rank: usize = 7;
    let mut file: usize = 0;
    let mut i: usize = 0;
    while i < p.len()
        invariant
            i <= p@.len(),
            rank <= 7,
            file <= 8,
            bb.disjoint(),
            place_prefix(p@, i as int) == Some((rank as int, file as int, bb.squares())),
        decreases p@.len() - i,
    {
        let c = p[i];
        proof {
            assert(place_prefix(p@, i as int + 1) == place_step(place_prefix(p@, i as int), c));
        }
        if c == 47 {
            if file == 8 && rank > 0 {
                rank = rank - 1;
                file = 0;
            } else {
                proof {
                    lemma_place_none(p@, i as int + 1, p@.len() as int);
                }
                return None;
            }
        } else if 49 <= c && c <= 56 {
            let d = (c - 48) as usize;
            if file + d <= 8 {
                file = file + d;
            } else {
                proof {
                    lemma_place_none(p@, i as int + 1, p@.len() as int);
                }
                return None;
            }
        } else {
            match piece_of_letter_exec(c) {
                Some((color, piece)) => {
                    if file < 8 {
                        bb.put_piece(rank * 8 + file, color, piece);
                        file = file + 1;
                    } else {
                        proof {
                            lemma_place_none(p@, i as int + 1, p@.len() as int);
                        }
                        return None;
                    }
                },
                None => {
                    proof {
                        lemma_place_none(p@, i as int + 1, p@.len() as int);
                    }
                    return None;
                },
            }
        }
        i += 1;
    }
    if rank == 0 && file == 8 {
        Some(bb)
    } else {
        None
    }
}

fn side_exec(s: &Vec<u8>) -> (r: Option<Color>)
    ensures
        r == side_of(s@),
{
    if s.len() == 1 && s[0] == 119 {
        assert(s@ =~= seq![119u8]);
        Some(Color::White)
    } else if s.len() == 1 && s[0] == 98 {
        assert(s@ =~= seq![98u8]);
        Some(Color::Black)
    } else {
        assert(s@ != seq![119u8] && s@ != seq![98u8]) by {
            if s@.len() == 1 {
                assert(s@[0] == s[0]);
            }
        }
        None
    }
}

proof fn lemma_castling_none(s: Seq<u8>, i: int, n: int)
    requires
        0 <= i <= n,
        castling_prefix(s, i) is None,
    ensures
        castling_prefix(s, n) is None,
    decreases n - i,
{
    if i < n {
        lemma_castling_none(s, i, n - 1);
    }
}

fn castling_exec(s: &Vec<u8>) -> (r: Option<u8>)
    ensures
        r == castling_of(s@),
{
    if s.len() == 1 && s[0] == 45 {
        assert(s@ =~= seq![45u8]);
        return Some(0);
    }
    assert(s@ != seq![45u8]) by {
        if s@.len() == 1 {
            assert(s@[0] == s[0]);
        }
    }
    if s.len() == 0 {
        return None;
    }
    let ghost not_dash = s@ != seq![45u8];
    let mut c: u8 = 0;
    let mut i: usize = 0;
    while i < s.len()
        invariant
            i <= s@.len(),
            castling_prefix(s@, i as int) == Some(c),
            not_dash,
            s@ != seq![45u8],
            s@.len() > 0,
        decreases s@.len() - i,
    {
        let l = s[i];
        let bits: u8 = if l == 75 {
            6
        } else if l == 81 {
            5
        } else if l == 107 {
            48
        } else if l == 113 {
            40
        } else {
            proof {
                assert(castling_prefix(s@, i as int + 1) is None);
                lemma_castling_none(s@, i as int + 1, s@.len() as int);
                assert(s@ != seq![45u8]);
                assert(castling_of(s@) == castling_prefix(s@, s@.len() as int));
            }
            return None;
        };
        c = c | bits;
        i += 1;
    }
    Some(c)
}

fn ep_exec(s: &Vec<u8>) -> (r: Option<Option<u8>>)
    ensures
        match ep_of(s@) {
            Some(Some(e)) => r == Some(Some(e as u8)) && 0 <= e < 64,
            Some(None) => r == Some(None::<u8>),
            None => r is None,
        },
{
    if s.len() == 1 && s[0] == 45 {
        assert(s@ =~= seq![45u8]);
        return Some(None);
    }
    assert(s@ != seq![45u8]) by {
        if s@.len() == 1 {
            assert(s@[0] == s[0]);
        }
    }
    match algebraic_to_index(s.as_slice()) {
        Ok(e) => Some(Some(e as u8)),
        Err(_) => None,
    }
}

fn number_exec(s: &Vec<u8>) -> (r: Option<u32>)
    ensures
        match number_of(s@) {
            Some(v) => r == Some(v as u32) && 0 <= v < 1_000_000_000,
            None => r is None,
        },
{
    if s.len() < 1 || s.len() > 9 {
        return None;
    }
    let mut v: u32 = 0;
    let mut i: usize = 0;
    let ghost mut bound: int = 1;
    while i < s.len()
        invariant
            i <= s@.len() <= 9,
            v as int == digits_value(s@, i as int),
            0 <= v < bound,
            bound == pow10(i as nat),
            forall|j: int| 0 <= j < i ==> 48 <= #[trigger] s@[j] <= 57,
        decreases s@.len() - i,
    {
        let c = s[i];
        if c < 48 || c > 57 {
            return None;
        }
        proof {
            lemma_pow10_bound(i as nat);
            assert(v * 10 + (c - 48) < bound * 10) by (nonlinear_arith)
                requires
                    0 <= v < bound,
                    0 <= c - 48 <= 9,
            ;
            bound = bound * 10;
        }
        v = v * 10 + (c - 48) as u32;
        i += 1;
    }
    proof {
        lemma_pow10_bound(i as nat);
    }
    Some(v)
}

/// Ten to the power `n`.
pub open spec fn pow10(n: nat) -> int
    decreases n,
{
    if n == 0 {
        1
    } else {
        10 * pow10((n - 1) as nat)
    }
}

proof fn lemma_pow10_bound(n: nat)
    requires
        n <= 9,
    ensures
        pow10(n) <= 1_000_000_000,
        n < 9 ==> pow10(n) <= 100_000_000,
    decreases n,
{
    reveal_with_fuel(pow10, 10);
}

/// Whether exactly one king of colour `c` is on the board.
fn one_king_exec(bb: &BitBoard, c: Color) -> (r: bool)
    ensures
        r == one_king(Model { squares: bb.squares(), side: c, castling: 0, ep: None, half_moves: 0, full_moves: 0 }, c),
{
    let ghost sq = bb.squares();
    let mut count: usize = 0;
    let mut pos: usize = 0;
    let mut i: usize = 0;
    while i < 64
        invariant
            i <= 64,
            count <= 1,
            count == 0 ==> forall|j: int| 0 <= j < i ==> #[trigger] sq[j] != Some((c, Piece::King)),
            count == 1 ==> pos < i && sq[pos as int] == Some((c, Piece::King)) && forall|j: int|
                0 <= j < i && #[trigger] sq[j] == Some((c, Piece::King)) ==> j == pos,
            sq == bb.squares(),
        decreases 64 - i,
    {
        if is_piece_exec(bb.get_piece(i), c, Piece::King) {
            if count == 1 {
                proof {
                    assert(sq[i as int] == Some((c, Piece::King)));
                    assert(sq[pos as int] == Some((c, Piece::King)));
                }
                return false;
            }
            count = 1;
            pos = i;
        }
        i += 1;
    }
    count == 1
}

fn one_byte(c: u8) -> (r: Vec<u8>)
    ensures
        r@ == seq![c],
{
    let mut r: Vec<u8> = Vec::new();
    r.push(c);
    assert(r@ =~= seq![c]);
    r
}

/// Every span starts before it ends, and ends within `n` bytes.
pub open spec fn spans_in(sp: Seq<(usize, usize)>, n: int) -> bool {
    forall|j: int| 0 <= j < sp.len() ==> #[trigger] sp[j].0 < sp[j].1 <= n
}

/// Field `k` of the text, or `default` when there are fewer fields.
fn field_or_exec(b: &[u8], sp: &Vec<(usize, usize)>, k: usize, default: Vec<u8>) -> (r: Vec<u8>)
    requires
        sp@ == spans(b@, b@.len() as int),
        spans_in(sp@, b@.len() as int),
    ensures
        r@ == field_or(b@, k as int, default@),
{
    if k < sp.len() {
        let (start, end) = sp[k];
        copy_range(b, start, end)
    } else {
        default
    }
}

impl BitBoardState {
    /// Reads a position from Forsyth-Edwards Notation. Missing trailing
    /// fields take the values `w`, `KQkq`, `-`, `0` and `1`; the position
    /// must satisfy its invariants.
    pub fn from_fen(text: &str) -> (r: Result<BitBoardState, FenError>)
        ensures
            match parse_fen(text.spec_bytes()) {
                Ok(m) => r is Ok && r->Ok_0.wf() && r->Ok_0@ == m,
                Err(e) => r == Err::<BitBoardState, FenError>(e),
            },
    {
        from_fen_bytes(text.as_bytes())
    }
}

/// Reads a position from the bytes of a FEN string.
pub fn from_fen_bytes(b: &[u8]) -> (r: Result<BitBoardState, FenError>)
    ensures
        match parse_fen(b@) {
            Ok(m) => r is Ok && r->Ok_0.wf() && r->Ok_0@ == m,
            Err(e) => r == Err::<BitBoardState, FenError>(e),
        },
{
    let sp = split_fields(b);
    if sp.len() == 0 {
        return Err(FenError::MissingBoard);
    }
    let board_text = field_or_exec(b, &sp, 0, Vec::new());
    let side_text = field_or_exec(b, &sp, 1, one_byte(119));
    let mut all_rights: Vec<u8> = Vec::new();
    all_rights.push(75);
    all_rights.push(81);
    all_rights.push(107);
    all_rights.push(113);
    assert(all_rights@ =~= seq![75u8, 81u8, 107u8, 113u8]);
    let castling_text = field_or_exec(b, &sp, 2, all_rights);
    let ep_text = field_or_exec(b, &sp, 3, one_byte(45));
    let half_text = field_or_exec(b, &sp, 4, one_byte(48));
    let full_text = field_or_exec(b, &sp, 5, one_byte(49));
    let bb = match parse_placement(&board_text) {
        Some(bb) => bb,
        None => {
            return Err(FenError::BadPlacement);
        },
    };
    let side = match side_exec(&side_text) {
        Some(c) => c,
        None => {
            return Err(FenError::BadSide);
        },
    };
    let castling = match castling_exec(&castling_text) {
        Some(c) => c,
        None => {
            return Err(FenError::BadCastling);
        },
    };
    let en_passant = match ep_exec(&ep_text) {
        Some(Some(e)) => e,
        Some(None) => NO_SQUARE,
        None => {
            return Err(FenError::BadEnPassant);
        },
    };
    let half = number_exec(&half_text);
    let full = number_exec(&full_text);
    let (half_moves, full_moves) = match (half, full) {
        (Some(h), Some(f)) => {
            if f == 0 {
                return Err(FenError::BadCounter);
            }
            (h, f)
        },
        _ => {
            return Err(FenError::BadCounter);
        },
    };
    let state = BitBoardState {
        bitboard: bb,
        active_color: side,
        castling,
        en_passant,
        half_moves,
        full_moves,
    };
    if check_invariants(&state) {
        Ok(state)
    } else {
        Err(FenError::InvalidPosition)
    }
}

impl BitBoardState {
    /// Whether the position satisfies its invariants.
    pub fn is_valid(&self) -> (r: bool)
        ensures
            r == wf_model(self@),
    {
        check_invariants(self)
    }
}

/// Whether a position satisfies its invariants.
fn check_invariants(s: &BitBoardState) -> (r: bool)
    ensures
        r == wf_model(s@),
{
    if !one_king_exec(&s.bitboard, Color::White) || !one_king_exec(&s.bitboard, Color::Black) {
        return false;
    }
    let mut i: usize = 0;
    while i < 64
        invariant
            i <= 64,
            forall|j: int| 0 <= j < i && (j / 8 == 0 || j / 8 == 7) ==> !(#[trigger] s@.squares[j] matches Some(
                (_, Piece::Pawn),
            )),
        decreases 64 - i,
    {
        if i / 8 == 0 || i / 8 == 7 {
            match s.bitboard.get_piece(i) {
                Some((_, Piece::Pawn)) => {
                    assert(s@.squares[i as int] matches Some((_, Piece::Pawn)));
                    return false;
                },
                _ => {},
            }
        }
        i += 1;
    }
    if s.en_passant < 64 && !(s.en_passant / 8 == 2 || s.en_passant / 8 == 5) {
        return false;
    }
    let c = s.castling;
    if c >= 64 {
        return false;
    }
    let b = &s.bitboard;
    if (c >> 0u8) & 1 == 1 && !is_piece_exec(b.get_piece(0), Color::White, Piece::Rook) {
        return false;
    }
    if (c >> 1u8) & 1 == 1 && !is_piece_exec(b.get_piece(7), Color::White, Piece::Rook) {
        return false;
    }
    if (c >> 2u8) & 1 == 1 && !is_piece_exec(b.get_piece(4), Color::White, Piece::King) {
        return false;
    }
    if (c >> 3u8) & 1 == 1 && !is_piece_exec(b.get_piece(56), Color::Black, Piece::Rook) {
        return false;
    }
    if (c >> 4u8) & 1 == 1 && !is_piece_exec(b.get_piece(63), Color::Black, Piece::Rook) {
        return false;
    }
    if (c >> 5u8) & 1 == 1 && !is_piece_exec(b.get_piece(60), Color::Black, Piece::King) {
        return false;
    }
    true
}

} // verus!
