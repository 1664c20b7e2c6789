use vstd::prelude::*;
use crate::types::{Color, Piece};
use crate::moves::{BitBoardMove, DOUBLE_PAWN_PUSH, EP_CAPTURE, KING_CASTLE, QUEEN_CASTLE};

verus! {

/// Whether bit `i` of a bitboard is set, i.e. square `i` is in the set.
pub open spec fn bit(b: u64, i: u64) -> bool {
    (b >> i) & 1 == 1
}

/// The piece that bitboard `k` of the twelve holds: White's six kinds,
/// then Black's, each side in the order king, queen, rook, bishop,
/// knight, pawn.
pub open spec fn kind_of(k: int) -> (Color, Piece) {
    (if k < 6 { Color::White } else { Color::Black }, Piece::from_index_spec(k % 6))
}

pub open spec fn board_index(c: Color, p: Piece) -> int {
    (if c == Color::White { 0int } else { 6int }) + p.index_spec()
}

/// The first of the bitboards `k..12` that holds square `i`.
pub open spec fn first_holder(bb: Seq<u64>, i: int, k: int) -> Option<(Color, Piece)>
    decreases 12 - k,
{
    if k >= 12 || k < 0 {
        None
    } else if bit(bb[k], i as u64) {
        Some(kind_of(k))
    } else {
        first_holder(bb, i, k + 1)
    }
}

/// No square is held by two of the twelve bitboards.
pub open spec fn disjoint(bb: Seq<u64>) -> bool {
    &&& bb.len() == 12
    &&& forall|i: int, k1: int, k2: int|
        0 <= i < 64 && 0 <= k1 < 12 && 0 <= k2 < 12 && k1 != k2 && #[trigger] bit(bb[k1], i as u64)
            ==> !#[trigger] bit(bb[k2], i as u64)
}

/// The mathematical view of a position: what stands on each of the 64
/// squares, the side to move, the castling flags, the en-passant target
/// and the two clocks.
pub struct Model {
    pub squares: Seq<Option<(Color, Piece)>>,
    pub side: Color,
    pub castling: u8,
    pub ep: Option<int>,
    pub half_moves: int,
    pub full_moves: int,
}

/// The twelve bitboards of a position, indexed by `color * 6 + piece`.
#[derive(Clone, Copy, Debug)]
pub struct BitBoard(pub [u64; 12]);

/// A position: the board, the side to move, the castling flags (bits 0-2
/// White's a-rook, h-rook and king not yet moved, bits 3-5 the same for
/// Black), the en-passant target (64 when there is none) and the clocks.
#[derive(Clone, Copy, Debug)]
pub struct BitBoardState {
    pub bitboard: BitBoard,
    pub active_color: Color,
    pub castling: u8,
    pub en_passant: u8,
    pub half_moves: u32,
    pub full_moves: u32,
}

pub const NO_SQUARE: u8 = 64;
pub const WHITE_A_ROOK: u8 = 1;
pub const WHITE_H_ROOK: u8 = 2;
pub const WHITE_KING: u8 = 4;
pub const BLACK_A_ROOK: u8 = 8;
pub const BLACK_H_ROOK: u8 = 16;
pub const BLACK_KING: u8 = 32;

/// Castling flag `k` (0-5, in the order of the bits above).
pub open spec fn flag(c: u8, k: u8) -> bool {
    (c >> k) & 1 == 1
}

/// What stands on each square, square by square.
#[derive(Clone, Copy, Debug)]
pub struct BoardMailbox(pub [Option<(Color, Piece)>; 64]);

impl BoardMailbox {
    /// The squares of a set of bitboards.
    pub fn from_bitboard(bitboard: &BitBoard) -> (r: Self)
        ensures
            r.0@ == bitboard.squares(),
    {
        let mut squares: [Option<(Color, Piece)>; 64] = [None; 64];
        let mut i: usize = 0;
        while i < 64
            invariant
                i <= 64,
                squares@.len() == 64,
                forall|j: int| 0 <= j < i ==> squares@[j] == bitboard.view_at(j),
            decreases 64 - i,
        {
            squares[i] = bitboard.get_piece(i);
            i += 1;
        }
        assert(squares@ =~= bitboard.squares());
        BoardMailbox(squares)
    }
}

impl BitBoard {
    /// The bitboards of a square-by-square board.
    pub fn from_mailbox(mailbox: &BoardMailbox) -> (r: Self)
        ensures
            r.disjoint(),
            r.squares() == mailbox.0@,
    {
        let mut bb = BitBoard::new();
        assert(bb.squares() =~= Seq::new(64, |j: int| if j < 0 { mailbox.0@[j] } else { None }));
        let mut i: usize = 0;
        while i < 64
            invariant
                i <= 64,
                bb.disjoint(),
                bb.squares() == Seq::new(64, |j: int| if j < i { mailbox.0@[j] } else { None }),
            decreases 64 - i,
        {
            match mailbox.0[i] {
                Some((c, p)) => bb.put_piece(i, c, p),
                None => bb.clear_square(i),
            }
            assert(bb.squares() =~= Seq::new(64, |j: int| if j < i + 1 { mailbox.0@[j] } else { None }));
            i += 1;
        }
        assert(bb.squares() =~= mailbox.0@);
        bb
    }

    /// Turns the board upside down and gives every piece to the other side.
    pub fn flip_board(&mut self)
        requires
            old(self).disjoint(),
        ensures
            final(self).disjoint(),
            final(self).squares() == Seq::new(64, |i: int| swap_owner(old(self).squares()[flip_sq(i)])),
    {
        let ghost old_sq = self.squares();
        let old_bb = self.0;
        let mut nb = [0u64; 12];
        let mut k: usize = 0;
        while k < 12
            invariant
                k <= 12,
                nb@.len() == 12,
                forall|j: int| 0 <= j < k ==> nb@[j] == flip_bits(old_bb@[(j + 6) % 12]),
            decreases 12 - k,
        {
            nb[k] = flip_vertical(old_bb[(k + 6) % 12]);
            k += 1;
        }
        self.0 = nb;
        proof {
            lemma_mirror_boards(old_bb@, nb@);
            assert forall|i: int| 0 <= i < 64 implies 0 <= #[trigger] flip_sq(i) < 64 by {
                lemma_flip_sq(i);
            }
            assert(self.squares() =~= Seq::new(64, |i: int| swap_owner(old_sq[flip_sq(i)])));
        }
    }

    /// Whether White's king stands on square `index`.
    pub fn white_king_on(&self, index: usize) -> (r: bool)
        requires
            index < 64,
        ensures
            r == (self.view_at(index as int) == Some((Color::White, Piece::King))),
    {
        proof {
            lemma_first_holder_not_white_king(self.0@, index as int, 1);
        }
        (self.0[0] >> index as u64) & 1 == 1
    }

    pub open spec fn view_at(&self, i: int) -> Option<(Color, Piece)> {
        first_holder(self.0@, i, 0)
    }

    pub open spec fn squares(&self) -> Seq<Option<(Color, Piece)>> {
        Seq::new(64, |i: int| self.view_at(i))
    }

    pub open spec fn disjoint(&self) -> bool {
        disjoint(self.0@)
    }

    pub fn new() -> (r: Self)
        ensures
            r.disjoint(),
            forall|i: int| 0 <= i < 64 ==> r.view_at(i) is None,
    {
        let r = BitBoard([0u64; 12]);
        assert forall|k: int, i: int| 0 <= k < 12 && 0 <= i < 64 implies !#[trigger] bit(r.0@[k], i as u64) by {
            lemma_bit_zero(i as u64);
        }
        assert forall|i: int| 0 <= i < 64 implies r.view_at(i) is None by {
            lemma_first_holder_none(r.0@, i, 0);
        }
        r
    }

    /// The bitboard of one colour and kind.
    pub fn get_set(&self, color: Color, piece: Piece) -> (r: u64)
        ensures
            r == self.0@[board_index(color, piece)],
    {
        let base: usize = match color {
            Color::White => 0,
            Color::Black => 6,
        };
        self.0[base + piece.index()]
    }

    /// What stands on a square.
    pub fn get_piece(&self, index: usize) -> (r: Option<(Color, Piece)>)
        requires
            index < 64,
        ensures
            r == self.view_at(index as int),
    {
        let mut k: usize = 0;
        while k < 12
            invariant
                k <= 12,
                index < 64,
                first_holder(self.0@, index as int, 0) == first_holder(self.0@, index as int, k as int),
            decreases 12 - k,
        {
            if (self.0[k] >> index as u64) & 1 == 1 {
                let color = if k < 6 { Color::White } else { Color::Black };
                let piece = match k % 6 {
                    0 => Piece::King,
                    1 => Piece::Queen,
                    2 => Piece::Rook,
                    3 => Piece::Bishop,
                    4 => Piece::Knight,
                    _ => Piece::Pawn,
                };
                return Some((color, piece));
            }
            k += 1;
        }
        None
    }

    /// Empties one square.
    pub fn clear_square(&mut self, index: usize)
        requires
            index < 64,
            old(self).disjoint(),
        ensures
            final(self).disjoint(),
            final(self).squares() == old(self).squares().update(index as int, None),
    {
        let ghost old_bb = self.0@;
        let mut k: usize = 0;
        while k < 12
            invariant
                k <= 12,
                index < 64,
                self.0@.len() == 12,
                old_bb.len() == 12,
                forall|j: int, i: int| 0 <= j < 12 && 0 <= i < 64 ==> #[trigger] bit(self.0@[j], i as u64)
                    == (bit(old_bb[j], i as u64) && !(i == index && j < k)),
            decreases 12 - k,
        {
            let v = self.0[k] & !(1u64 << index as u64);
            proof {
                lemma_bit_clear(self.0@[k as int], index as u64);
            }
            self.0[k] = v;
            k += 1;
        }
        proof {
            self.lemma_squares_after_clear(old_bb, index as int);
        }
    }

    proof fn lemma_squares_after_clear(&self, old_bb: Seq<u64>, index: int)
        requires
            0 <= index < 64,
            disjoint(old_bb),
            self.0@.len() == 12,
            forall|j: int, i: int| 0 <= j < 12 && 0 <= i < 64 ==> #[trigger] bit(self.0@[j], i as u64)
                == (bit(old_bb[j], i as u64) && i != index),
        ensures
            self.disjoint(),
            self.squares() == Seq::new(64, |i: int| first_holder(old_bb, i, 0)).update(index, None),
    {
        assert forall|i: int| 0 <= i < 64 && i != index implies first_holder(self.0@, i, 0)
            == first_holder(old_bb, i, 0) by {
            lemma_first_holder_same(self.0@, old_bb, i, 0);
        }
        lemma_first_holder_none(self.0@, index, 0);
        assert(self.squares() =~= Seq::new(64, |i: int| first_holder(old_bb, i, 0)).update(index, None));
    }

    /// Puts a piece on a square, replacing whatever stood there.
    pub fn put_piece(&mut self, index: usize, color: Color, piece: Piece)
        requires
            index < 64,
            old(self).disjoint(),
        ensures
            final(self).disjoint(),
            final(self).squares() == old(self).squares().update(index as int, Some((color, piece))),
    {
        self.clear_square(index);
        let ghost mid = self.0@;
        let ghost mid_sq = self.squares();
        proof {
            assert(self.squares()[index as int] is None);
            lemma_first_holder_none_bits(mid, index as int, 0);
        }
        let base: usize = match color {
            Color::White => 0,
            Color::Black => 6,
        };
        let k = base + piece.index();
        let v = self.0[k] | (1u64 << index as u64);
        proof {
            lemma_bit_set(self.0@[k as int], index as u64);
        }
        self.0[k] = v;
        proof {
            assert(mid == self.0@.update(k as int, mid[k as int]));
            assert forall|i: int| 0 <= i < 64 && i != index implies first_holder(self.0@, i, 0)
                == first_holder(mid, i, 0) by {
                lemma_first_holder_same(self.0@, mid, i, 0);
            }
            lemma_first_holder_single(self.0@, index as int, k as int, 0);
            assert(kind_of(k as int) == (color, piece));
            assert(self.squares() =~= mid_sq.update(index as int, Some((color, piece))));
        }
    }
}

/// The square in the same file on the mirrored rank.
pub open spec fn flip_sq(i: int) -> int {
    (7 - i / 8) * 8 + i % 8
}

/// The same piece, given to the other side.
pub open spec fn swap_owner(x: Option<(Color, Piece)>) -> Option<(Color, Piece)> {
    match x {
        Some((c, p)) => Some((c.flip(), p)),
        None => None,
    }
}

/// White's three castling flags and Black's trade places.
pub open spec fn mirror_castling(c: u8) -> u8 {
    ((c & 7) << 3) | ((c >> 3) & 7)
}

/// The position seen from the other side: the board turned upside down,
/// the colours of all pieces swapped, and the side to move swapped.
pub open spec fn mirror_model(m: Model) -> Model {
    Model {
        squares: Seq::new(64, |i: int| swap_owner(m.squares[flip_sq(i)])),
        side: m.side.flip(),
        castling: mirror_castling(m.castling),
        ep: match m.ep {
            Some(e) => Some(flip_sq(e)),
            None => None,
        },
        half_moves: m.half_moves,
        full_moves: m.full_moves,
    }
}

/// The bitboard turned upside down: rank `r` goes to rank `7 - r`.
pub open spec fn flip_bits(x: u64) -> u64 {
    ((x >> 56) & 0xff) | ((x >> 40) & 0xff00) | ((x >> 24) & 0xff0000) | ((x >> 8) & 0xff000000) | ((
    x << 8) & 0xff00000000) | ((x << 24) & 0xff0000000000) | ((x << 40) & 0xff000000000000) | (x
        << 56)
}

fn flip_vertical(x: u64) -> (r: u64)
    ensures
        r == flip_bits(x),
{
    ((x >> 56) & 0xff) | ((x >> 40) & 0xff00) | ((x >> 24) & 0xff0000) | ((x >> 8) & 0xff000000) | ((
    x << 8) & 0xff00000000) | ((x << 24) & 0xff0000000000) | ((x << 40) & 0xff000000000000) | (x
        << 56)
}

proof fn lemma_flip_bits(x: u64)
    ensures
        forall|i: u64| i < 64 ==> #[trigger] bit(flip_bits(x), i) == bit(x, i ^ 56),
{
    assert forall|i: u64| i < 64 implies #[trigger] bit(flip_bits(x), i) == bit(x, i ^ 56) by {
        assert(i < 64 ==> (((((x >> 56) & 0xff) | ((x >> 40) & 0xff00) | ((x >> 24) & 0xff0000) | ((x
            >> 8) & 0xff000000) | ((x << 8) & 0xff00000000) | ((x << 24) & 0xff0000000000) | ((x << 40)
            & 0xff000000000000) | (x << 56)) >> i) & 1 == 1) == (((x >> (i ^ 56)) & 1) == 1))
            by (bit_vector);
    }
}

proof fn lemma_flip_sq_xor(i: u64)
    requires
        i < 64,
    ensures
        (i ^ 56) as int == flip_sq(i as int),
        (i ^ 56) < 64,
{
    assert(i < 64 ==> (i ^ 56) == (7 - i / 8) * 8 + i % 8 && (i ^ 56) < 64) by (bit_vector);
}

pub proof fn lemma_flip_sq(i: int)
    requires
        0 <= i < 64,
    ensures
        0 <= flip_sq(i) < 64,
        flip_sq(flip_sq(i)) == i,
        flip_sq(i) % 8 == i % 8,
        flip_sq(i) / 8 == 7 - i / 8,
{
}

pub(crate) proof fn lemma_mirror_castling(c: u8)
    ensures
        mirror_castling(c) < 64,
        c < 64 ==> mirror_castling(mirror_castling(c)) == c,
        forall|k: u8| k < 3 ==> #[trigger] flag(mirror_castling(c), k) == flag(c, (k + 3) as u8),
        forall|k: u8| 3 <= k < 6 ==> #[trigger] flag(mirror_castling(c), k) == flag(c, (k - 3) as u8),
{
    assert(((c & 7) << 3) | ((c >> 3) & 7) < 64) by (bit_vector);
    assert(c < 64 ==> ((((c & 7) << 3) | ((c >> 3) & 7)) & 7) << 3 | (((((c & 7) << 3) | ((c >> 3)
        & 7)) >> 3) & 7) == c) by (bit_vector);
    assert forall|k: u8| k < 3 implies #[trigger] flag(mirror_castling(c), k) == flag(c, (k + 3) as u8) by {
        assert(k < 3 ==> (((((c & 7) << 3) | ((c >> 3) & 7)) >> k) & 1 == 1) == (((c >> (k + 3) as u8)
            & 1) == 1)) by (bit_vector);
    }
    assert forall|k: u8| 3 <= k < 6 implies #[trigger] flag(mirror_castling(c), k) == flag(c, (k - 3) as u8) by {
        assert(3 <= k < 6 ==> (((((c & 7) << 3) | ((c >> 3) & 7)) >> k) & 1 == 1) == (((c >> (k - 3) as u8)
            & 1) == 1)) by (bit_vector);
    }
}

/// Mirroring twice gives back the same position.
pub proof fn lemma_mirror_involution(m: Model)
    requires
        m.squares.len() == 64,
        m.castling < 64,
        m.ep is Some ==> 0 <= m.ep->0 < 64,
    ensures
        mirror_model(mirror_model(m)) == m,
{
    lemma_mirror_castling(m.castling);
    let mm = mirror_model(mirror_model(m));
    assert forall|i: int| 0 <= i < 64 implies mm.squares[i] == m.squares[i] by {
        lemma_flip_sq(i);
        match m.squares[i] {
            Some((c, p)) => {},
            None => {},
        }
    }
    assert(mm.squares =~= m.squares);
    if m.ep is Some {
        lemma_flip_sq(m.ep->0);
    }
    assert(mm.side == m.side) by {
        match m.side {
            Color::White => {},
            Color::Black => {},
        }
    }
}

/// Exactly one king of colour `c` is on the board.
pub open spec fn one_king(m: Model, c: Color) -> bool {
    exists|k: int|
        0 <= k < 64 && m.squares[k] == Some((c, Piece::King)) && forall|j: int|
            0 <= j < 64 && #[trigger] m.squares[j] == Some((c, Piece::King)) ==> j == k
}

/// No pawn stands on the first or the last rank.
pub open spec fn no_pawn_on_edge(m: Model) -> bool {
    forall|i: int| 0 <= i < 64 && (i / 8 == 0 || i / 8 == 7) ==> !(#[trigger] m.squares[i] matches Some(
        (_, Piece::Pawn),
    ))
}

/// The en-passant target, when there is one, is on the third or sixth rank.
pub open spec fn ep_ok(m: Model) -> bool {
    match m.ep {
        Some(e) => 0 <= e < 64 && (e / 8 == 2 || e / 8 == 5),
        None => true,
    }
}

/// Each castling flag that is set has its king or rook on its home square.
pub open spec fn castling_ok(m: Model) -> bool {
    &&& m.castling < 64
    &&& flag(m.castling, 0) ==> m.squares[0] == Some((Color::White, Piece::Rook))
    &&& flag(m.castling, 1) ==> m.squares[7] == Some((Color::White, Piece::Rook))
    &&& flag(m.castling, 2) ==> m.squares[4] == Some((Color::White, Piece::King))
    &&& flag(m.castling, 3) ==> m.squares[56] == Some((Color::Black, Piece::Rook))
    &&& flag(m.castling, 4) ==> m.squares[63] == Some((Color::Black, Piece::Rook))
    &&& flag(m.castling, 5) ==> m.squares[60] == Some((Color::Black, Piece::King))
}

/// The invariants of a position: one king for each side, no pawn on the
/// first or last rank, an en-passant target on the third or sixth rank,
/// and castling flags that match the pieces on their home squares.
pub open spec fn wf_model(m: Model) -> bool {
    &&& m.squares.len() == 64
    &&& one_king(m, Color::White)
    &&& one_king(m, Color::Black)
    &&& no_pawn_on_edge(m)
    &&& ep_ok(m)
    &&& castling_ok(m)
}

impl BitBoardState {
    /// The twelve bitboards are disjoint and the position's invariants hold.
    pub open spec fn wf(&self) -> bool {
        self.bitboard.disjoint() && wf_model(self@)
    }
}

impl View for BitBoardState {
    type V = Model;

    open spec fn view(&self) -> Model {
        Model {
            squares: self.bitboard.squares(),
            side: self.active_color,
            castling: self.castling,
            ep: if self.en_passant < 64 {
                Some(self.en_passant as int)
            } else {
                None
            },
            half_moves: self.half_moves as int,
            full_moves: self.full_moves as int,
        }
    }
}

impl BitBoardState {
    /// Turns the position into its mirror image: the board upside down,
    /// every piece given to the other side, the castling flags and the
    /// en-passant target carried along, and the other side to move.
    /// Doing it twice gives back the same position.
    pub fn mirror_board(&mut self)
        requires
            old(self).bitboard.disjoint(),
        ensures
            final(self).bitboard.disjoint(),
            final(self)@ == mirror_model(old(self)@),
    {
        let ghost old_sq = self.bitboard.squares();
        self.bitboard.flip_board();
        self.en_passant = if self.en_passant < 64 {
            proof {
                lemma_flip_sq_xor(self.en_passant as u64);
            }
            self.en_passant ^ 56
        } else {
            NO_SQUARE
        };
        self.castling = ((self.castling & 7) << 3) | ((self.castling >> 3) & 7);
        self.active_color = self.active_color.opposite();
        proof {
            assert(self.bitboard.squares() =~= mirror_model(Model { squares: old_sq, ..self@ }).squares);
        }
    }
}

/// The castling flags with flag `k` cleared.
pub open spec fn clear_flag(c: u8, k: u8) -> u8 {
    c & !(1u8 << k)
}

/// The piece that a promotion flag asks for.
pub open spec fn promoted_piece(flags: int) -> Piece {
    if flags % 4 == 0 {
        Piece::Knight
    } else if flags % 4 == 1 {
        Piece::Bishop
    } else if flags % 4 == 2 {
        Piece::Rook
    } else {
        Piece::Queen
    }
}

/// The square holds exactly this piece.
pub open spec fn is_piece(x: Option<(Color, Piece)>, c: Color, p: Piece) -> bool {
    x == Some((c, p))
}

/// The castling flags after White plays from `f` to `t`, with `moving`
/// the piece on `f` and `captured` the piece on `t`.
pub open spec fn castling_after_white(
    c: u8,
    f: int,
    t: int,
    moving: Option<(Color, Piece)>,
    captured: Option<(Color, Piece)>,
) -> u8 {
    let c1 = if is_piece(captured, Color::Black, Piece::Rook) && t == 56 {
        clear_flag(c, 3)
    } else if is_piece(captured, Color::Black, Piece::Rook) && t == 63 {
        clear_flag(c, 4)
    } else {
        c
    };
    if is_piece(moving, Color::White, Piece::King) {
        clear_flag(clear_flag(clear_flag(c1, 0), 1), 2)
    } else if is_piece(moving, Color::White, Piece::Rook) && f == 0 {
        clear_flag(c1, 0)
    } else if is_piece(moving, Color::White, Piece::Rook) && f == 7 {
        clear_flag(c1, 1)
    } else {
        c1
    }
}

/// The board after White plays `mv`: a captured piece leaves `t`, an
/// en-passant capture also takes the pawn behind `t`, castling moves the
/// rook, a promotion puts the new piece on `t`, and `f` is emptied.
pub open spec fn squares_after_white(m: Model, mv: BitBoardMove) -> Seq<Option<(Color, Piece)>> {
    let f = mv.from_spec();
    let t = mv.to_spec();
    let fl = mv.flags_spec();
    let moving = m.squares[f];
    let sq1 = m.squares.update(t, None);
    let sq2 = if fl == EP_CAPTURE as int && t >= 8 {
        sq1.update(t - 8, None)
    } else if fl == KING_CASTLE as int {
        sq1.update(7, None).update(5, Some((Color::White, Piece::Rook)))
    } else if fl == QUEEN_CASTLE as int {
        sq1.update(0, None).update(3, Some((Color::White, Piece::Rook)))
    } else {
        sq1
    };
    let placed = match moving {
        Some((c, p)) => if fl >= 8 {
            Some((c, promoted_piece(fl)))
        } else {
            Some((c, p))
        },
        None => None,
    };
    sq2.update(t, placed).update(f, None)
}

/// The clock after one more ply, stopping at its largest value.
pub open spec fn tick(n: int) -> int {
    if n < 0xffff_ffff {
        n + 1
    } else {
        n
    }
}

/// The position after White plays `mv`; Black is then to move.
pub open spec fn apply_white(m: Model, mv: BitBoardMove) -> Model {
    let f = mv.from_spec();
    let t = mv.to_spec();
    let fl = mv.flags_spec();
    let moving = m.squares[f];
    let captured = m.squares[t];
    let resets = captured is Some || (moving matches Some((_, Piece::Pawn)));
    Model {
        squares: squares_after_white(m, mv),
        side: Color::Black,
        castling: castling_after_white(m.castling, f, t, moving, captured),
        ep: if fl == DOUBLE_PAWN_PUSH as int && f + 8 < 64 {
            Some(f + 8)
        } else {
            None
        },
        half_moves: if resets {
            0
        } else {
            tick(m.half_moves)
        },
        full_moves: m.full_moves,
    }
}

/// The same move seen on the mirrored board.
pub open spec fn mirror_move(mv: BitBoardMove) -> BitBoardMove {
    BitBoardMove(crate::moves::encode(flip_sq(mv.from_spec()), flip_sq(mv.to_spec()), mv.flags_spec()))
}

/// The position after the side to move plays `mv`. Black's moves are
/// White's moves on the mirrored board; the full-move number grows after
/// each move of Black.
pub open spec fn apply_model(m: Model, mv: BitBoardMove) -> Model {
    if m.side == Color::White {
        apply_white(m, mv)
    } else {
        let r = mirror_model(apply_white(mirror_model(m), mirror_move(mv)));
        Model { full_moves: tick(r.full_moves), ..r }
    }
}

impl BitBoardState {
    pub(crate) fn apply_as_white(&mut self, m: &BitBoardMove)
        requires
            old(self).bitboard.disjoint(),
        ensures
            final(self).bitboard.disjoint(),
            final(self)@ == apply_white(old(self)@, *m),
    {
        let ghost m0 = self@;
        let f = m.get_from() as usize;
        let t = m.get_to() as usize;
        let fl = m.get_flags();
        let moving = self.bitboard.get_piece(f);
        let captured = self.bitboard.get_piece(t);
        proof {
            assert(moving == m0.squares[f as int]);
            assert(captured == m0.squares[t as int]);
        }
        let mut c = self.castling;
        let takes_rook = is_piece_exec(captured, Color::Black, Piece::Rook);
        if takes_rook && t == 56 {
            c = clear_flag_exec(c, 3);
        } else if takes_rook && t == 63 {
            c = clear_flag_exec(c, 4);
        }
        if is_piece_exec(moving, Color::White, Piece::King) {
            c = clear_flag_exec(clear_flag_exec(clear_flag_exec(c, 0), 1), 2);
        } else if is_piece_exec(moving, Color::White, Piece::Rook) && f == 0 {
            c = clear_flag_exec(c, 0);
        } else if is_piece_exec(moving, Color::White, Piece::Rook) && f == 7 {
            c = clear_flag_exec(c, 1);
        }
        assert(c == castling_after_white(m0.castling, f as int, t as int, moving, captured));
        self.castling = c;
        self.bitboard.clear_square(t);
        if fl == EP_CAPTURE && t >= 8 {
            self.bitboard.clear_square(t - 8);
        } else if fl == KING_CASTLE {
            self.bitboard.clear_square(7);
            self.bitboard.put_piece(5, Color::White, Piece::Rook);
        } else if fl == QUEEN_CASTLE {
            self.bitboard.clear_square(0);
            self.bitboard.put_piece(3, Color::White, Piece::Rook);
        }
        match moving {
            Some((color, piece)) => {
                let p = if fl >= 8 {
                    let kind = fl % 4;
                    if kind == 0 {
                        Piece::Knight
                    } else if kind == 1 {
                        Piece::Bishop
                    } else if kind == 2 {
                        Piece::Rook
                    } else {
                        Piece::Queen
                    }
                } else {
                    piece
                };
                self.bitboard.put_piece(t, color, p);
            },
            None => {
                self.bitboard.clear_square(t);
            },
        }
        self.bitboard.clear_square(f);
        self.en_passant = if fl == DOUBLE_PAWN_PUSH && f + 8 < 64 {
            (f + 8) as u8
        } else {
            NO_SQUARE
        };
        let resets = captured.is_some() || match moving {
            Some((_, Piece::Pawn)) => true,
            _ => false,
        };
        if resets {
            self.half_moves = 0;
        } else if self.half_moves < 0xffff_ffff {
            self.half_moves = self.half_moves + 1;
        }
        self.active_color = Color::Black;
        proof {
            assert(self@.squares =~= squares_after_white(m0, *m));
            let ex = apply_white(m0, *m);
            assert(self@.castling == ex.castling);
            assert(self@.ep == ex.ep);
            assert(self@.half_moves == ex.half_moves);
            assert(self@.full_moves == ex.full_moves);
            assert(self@.side == ex.side);
        }
    }

    /// Plays a move for the side to move. Black's moves are played as
    /// White's moves on the mirrored board, which is then mirrored back.
    pub fn apply_move(&mut self, m: &BitBoardMove)
        requires
            old(self).bitboard.disjoint(),
        ensures
            final(self).bitboard.disjoint(),
            final(self)@ == apply_model(old(self)@, *m),
            old(self).wf() && crate::rules::legal(old(self)@, *m) ==> final(self).wf(),
    {
        proof {
            if old(self).wf() && crate::rules::legal(old(self)@, *m) {
                crate::laws::lemma_legal_move_keeps_invariants(old(self)@, *m);
            }
        }
        match self.active_color {
            Color::White => self.apply_as_white(m),
            Color::Black => {
                let mm = mirror_move_exec(m);
                self.mirror_board();
                self.apply_as_white(&mm);
                self.mirror_board();
                if self.full_moves < 0xffff_ffff {
                    self.full_moves = self.full_moves + 1;
                }
            },
        }
    }

    /// Hands the move to the other side: the side to move flips, the
    /// full-move number grows after Black and the half-move clock grows.
    pub fn change_side(&mut self)
        ensures
            final(self).bitboard == old(self).bitboard,
            final(self).active_color == old(self).active_color.flip(),
            final(self).full_moves as int == if old(self).active_color == Color::Black {
                tick(old(self).full_moves as int)
            } else {
                old(self).full_moves as int
            },
            final(self).half_moves as int == tick(old(self).half_moves as int),
            final(self).castling == old(self).castling,
            final(self).en_passant == old(self).en_passant,
    {
        if self.active_color == Color::Black && self.full_moves < 0xffff_ffff {
            self.full_moves = self.full_moves + 1;
        }
        self.active_color = self.active_color.opposite();
        if self.half_moves < 0xffff_ffff {
            self.half_moves = self.half_moves + 1;
        }
    }
}

/// Whether a square holds the given piece.
pub fn is_piece_exec(x: Option<(Color, Piece)>, c: Color, p: Piece) -> (r: bool)
    ensures
        r == is_piece(x, c, p),
{
    match x {
        Some((c2, p2)) => c2 == c && p2 == p,
        None => false,
    }
}

fn clear_flag_exec(c: u8, k: u8) -> (r: u8)
    requires
        k < 8,
    ensures
        r == clear_flag(c, k),
{
    c & !(1u8 << k)
}

/// The piece that starts on file `f` of a back rank.
pub open spec fn back_rank_piece(f: int) -> Piece {
    if f == 0 || f == 7 {
        Piece::Rook
    } else if f == 1 || f == 6 {
        Piece::Knight
    } else if f == 2 || f == 5 {
        Piece::Bishop
    } else if f == 3 {
        Piece::Queen
    } else {
        Piece::King
    }
}

/// What stands on square `i` in the starting position.
pub open spec fn start_square(i: int) -> Option<(Color, Piece)> {
    if i / 8 == 0 {
        Some((Color::White, back_rank_piece(i % 8)))
    } else if i / 8 == 1 {
        Some((Color::White, Piece::Pawn))
    } else if i / 8 == 6 {
        Some((Color::Black, Piece::Pawn))
    } else if i / 8 == 7 {
        Some((Color::Black, back_rank_piece(i % 8)))
    } else {
        None
    }
}

/// The starting position: White to move, all castling flags set, no
/// en-passant target, clocks 0 and 1.
pub open spec fn start_model() -> Model {
    Model {
        squares: Seq::new(64, |i: int| start_square(i)),
        side: Color::White,
        castling: 63,
        ep: None,
        half_moves: 0,
        full_moves: 1,
    }
}

fn back_rank_piece_exec(f: usize) -> (r: Piece)
    ensures
        r == back_rank_piece(f as int),
{
    if f == 0 || f == 7 {
        Piece::Rook
    } else if f == 1 || f == 6 {
        Piece::Knight
    } else if f == 2 || f == 5 {
        Piece::Bishop
    } else if f == 3 {
        Piece::Queen
    } else {
        Piece::King
    }
}

impl BitBoardState {
    /// The starting position.
    pub fn new() -> (r: Self)
        ensures
            r.wf(),
            r@ == start_model(),
    {
        let mut bb = BitBoard::new();
        assert(bb.squares() =~= Seq::new(64, |i: int| if i % 8 < 0 { start_square(i) } else { None }));
        let mut f: usize = 0;
        while f < 8
            invariant
                f <= 8,
                bb.disjoint(),
                bb.squares() == Seq::new(64, |i: int| if i % 8 < f { start_square(i) } else { None }),
            decreases 8 - f,
        {
            let p = back_rank_piece_exec(f);
            bb.put_piece(f, Color::White, p);
            bb.put_piece(8 + f, Color::White, Piece::Pawn);
            bb.put_piece(48 + f, Color::Black, Piece::Pawn);
            bb.put_piece(56 + f, Color::Black, p);
            assert(bb.squares() =~= Seq::new(64, |i: int| if i % 8 < f + 1 { start_square(i) } else { None }));
            f += 1;
        }
        let r = BitBoardState {
            bitboard: bb,
            active_color: Color::White,
            castling: 63,
            en_passant: NO_SQUARE,
            half_moves: 0,
            full_moves: 1,
        };
        proof {
            assert(r@.squares =~= start_model().squares);
            let m = r@;
            assert(m.squares[4] == Some((Color::White, Piece::King)));
            assert(m.squares[60] == Some((Color::Black, Piece::King)));
            assert forall|j: int| 0 <= j < 64 && #[trigger] m.squares[j] == Some((Color::White, Piece::King))
                implies j == 4 by {}
            assert forall|j: int| 0 <= j < 64 && #[trigger] m.squares[j] == Some((Color::Black, Piece::King))
                implies j == 60 by {}
        }
        r
    }
}

impl Default for BitBoardState {
    fn default() -> (r: Self)
        ensures
            r.wf(),
            r@ == start_model(),
    {
        BitBoardState::new()
    }
}

/// The same move on the mirrored board.
pub fn mirror_move_exec(m: &BitBoardMove) -> (r: BitBoardMove)
    ensures
        r == mirror_move(*m),
{
    let f = m.get_from();
    let t = m.get_to();
    let fl = m.get_flags();
    proof {
        lemma_flip_sq_xor(f as u64);
        lemma_flip_sq_xor(t as u64);
        assert((f ^ 56) as u64 == (f as u64) ^ 56) by (bit_vector);
        assert((t ^ 56) as u64 == (t as u64) ^ 56) by (bit_vector);
    }
    let r = BitBoardMove((t ^ 56) + (f ^ 56) * 64 + fl * 4096);
    r
}

proof fn lemma_encode_fields(f: int, t: int, fl: int)
    requires
        0 <= f < 64,
        0 <= t < 64,
        0 <= fl < 16,
    ensures
        BitBoardMove(crate::moves::encode(f, t, fl)).from_spec() == f,
        BitBoardMove(crate::moves::encode(f, t, fl)).to_spec() == t,
        BitBoardMove(crate::moves::encode(f, t, fl)).flags_spec() == fl,
{
    let x = t + f * 64 + fl * 4096;
    assert(0 <= x < 65536) by (nonlinear_arith)
        requires
            0 <= f < 64,
            0 <= t < 64,
            0 <= fl < 16,
            x == t + f * 64 + fl * 4096,
    ;
    assert(x % 64 == t && (x / 64) % 64 == f && x / 4096 == fl) by (nonlinear_arith)
        requires
            0 <= f < 64,
            0 <= t < 64,
            0 <= fl < 16,
            x == t + f * 64 + fl * 4096,
    ;
}

/// The mirrored move has mirrored squares and the same flag; mirroring
/// it again gives back the move.
pub proof fn lemma_mirror_move(mv: BitBoardMove)
    ensures
        mirror_move(mv).from_spec() == flip_sq(mv.from_spec()),
        mirror_move(mv).to_spec() == flip_sq(mv.to_spec()),
        mirror_move(mv).flags_spec() == mv.flags_spec(),
        mirror_move(mirror_move(mv)) == mv,
{
    lemma_flip_sq(mv.from_spec());
    lemma_flip_sq(mv.to_spec());
    lemma_encode_fields(flip_sq(mv.from_spec()), flip_sq(mv.to_spec()), mv.flags_spec());
    let mm = mirror_move(mv);
    lemma_flip_sq(mm.from_spec());
    lemma_flip_sq(mm.to_spec());
    lemma_encode_fields(flip_sq(mm.from_spec()), flip_sq(mm.to_spec()), mm.flags_spec());
    crate::moves::lemma_move_fields_determine(mirror_move(mm), mv);
}

proof fn lemma_mirror_boards(old_bb: Seq<u64>, nb: Seq<u64>)
    requires
        disjoint(old_bb),
        nb.len() == 12,
        forall|j: int| 0 <= j < 12 ==> nb[j] == flip_bits(old_bb[(j + 6) % 12]),
    ensures
        disjoint(nb),
        forall|i: int| 0 <= i < 64 ==> #[trigger] first_holder(nb, i, 0) == swap_owner(
            first_holder(old_bb, flip_sq(i), 0),
        ),
{
    assert forall|j: int, i: int| 0 <= j < 12 && 0 <= i < 64 implies #[trigger] bit(nb[j], i as u64)
        == bit(old_bb[(j + 6) % 12], flip_sq(i) as u64) by {
        lemma_flip_bits(old_bb[(j + 6) % 12]);
        lemma_flip_sq_xor(i as u64);
    }
    assert forall|i: int, k1: int, k2: int|
        0 <= i < 64 && 0 <= k1 < 12 && 0 <= k2 < 12 && k1 != k2 && #[trigger] bit(nb[k1], i as u64)
            implies !#[trigger] bit(nb[k2], i as u64) by {
        lemma_flip_sq(i);
        assert(bit(old_bb[(k1 + 6) % 12], flip_sq(i) as u64));
    }
    assert forall|i: int| 0 <= i < 64 implies #[trigger] first_holder(nb, i, 0) == swap_owner(
        first_holder(old_bb, flip_sq(i), 0),
    ) by {
        let fi = flip_sq(i);
        lemma_flip_sq(i);
        if exists|k: int| 0 <= k < 12 && bit(old_bb[k], fi as u64) {
            let k = choose|k: int| 0 <= k < 12 && bit(old_bb[k], fi as u64);
            lemma_first_holder_single(old_bb, fi, k, 0);
            let m = (k + 6) % 12;
            assert(bit(nb[m], i as u64));
            lemma_first_holder_single(nb, i, m, 0);
        } else {
            lemma_first_holder_none(old_bb, fi, 0);
            lemma_first_holder_none(nb, i, 0);
        }
    }
}

/// Removes the lowest square from a set and returns it, or `None` when
/// the set is empty.
pub fn pop_lsb(b: &mut u64) -> (r: Option<u32>)
    ensures
        *old(b) == 0 <==> r is None,
        r is None ==> *final(b) == 0,
        r is Some ==> ({
            let i = r->0 as u64;
            &&& i < 64
            &&& bit(*old(b), i)
            &&& forall|j: u64| j < i ==> !#[trigger] bit(*old(b), j)
            &&& forall|j: u64| j < 64 ==> #[trigger] bit(*final(b), j) == (bit(*old(b), j) && j != i)
        }),
{
    let tz = b.trailing_zeros();
    proof {
        vstd::std_specs::bits::axiom_u64_trailing_zeros(*b);
    }
    if tz == 64 {
        None
    } else {
        proof {
            lemma_bit_clear(*b, tz as u64);
        }
        *b = *b & !(1u64 << tz as u64);
        Some(tz)
    }
}

/// All squares when the set is empty, none otherwise.
pub fn is_empty(b: u64) -> (r: u64)
    ensures
        r == if b == 0 {
            u64::MAX
        } else {
            0
        },
{
    if b == 0 {
        u64::MAX
    } else {
        0
    }
}

proof fn lemma_bit_zero(i: u64)
    requires
        i < 64,
    ensures
        !bit(0u64, i),
{
    assert(i < 64 ==> (0u64 >> i) & 1 != 1) by (bit_vector);
}

pub(crate) proof fn lemma_bit_clear(x: u64, i: u64)
    requires
        i < 64,
    ensures
        forall|j: u64| j < 64 ==> #[trigger] bit(x & !(1u64 << i), j) == (bit(x, j) && j != i),
{
    assert forall|j: u64| j < 64 implies #[trigger] bit(x & !(1u64 << i), j) == (bit(x, j) && j != i) by {
        assert(i < 64 && j < 64 ==> (((x & !(1u64 << i)) >> j) & 1 == 1) == (((x >> j) & 1 == 1) && j
            != i)) by (bit_vector);
    }
}

proof fn lemma_bit_set(x: u64, i: u64)
    requires
        i < 64,
    ensures
        forall|j: u64| j < 64 ==> #[trigger] bit(x | (1u64 << i), j) == (bit(x, j) || j == i),
{
    assert forall|j: u64| j < 64 implies #[trigger] bit(x | (1u64 << i), j) == (bit(x, j) || j == i) by {
        assert(i < 64 && j < 64 ==> (((x | (1u64 << i)) >> j) & 1 == 1) == (((x >> j) & 1 == 1) || j
            == i)) by (bit_vector);
    }
}

proof fn lemma_first_holder_same(a: Seq<u64>, b: Seq<u64>, i: int, k: int)
    requires
        a.len() == 12,
        b.len() == 12,
        0 <= k <= 12,
        forall|j: int| k <= j < 12 ==> bit(a[j], i as u64) == bit(b[j], i as u64),
    ensures
        first_holder(a, i, k) == first_holder(b, i, k),
    decreases 12 - k,
{
    if k < 12 {
        lemma_first_holder_same(a, b, i, k + 1);
    }
}

proof fn lemma_first_holder_none(a: Seq<u64>, i: int, k: int)
    requires
        0 <= k <= 12,
        forall|j: int| k <= j < 12 ==> !bit(a[j], i as u64),
    ensures
        first_holder(a, i, k) is None,
    decreases 12 - k,
{
    if k < 12 {
        lemma_first_holder_none(a, i, k + 1);
    }
}

proof fn lemma_first_holder_not_white_king(a: Seq<u64>, i: int, k: int)
    requires
        1 <= k,
    ensures
        first_holder(a, i, k) != Some((Color::White, Piece::King)),
    decreases 12 - k,
{
    if k < 12 {
        lemma_first_holder_not_white_king(a, i, k + 1);
    }
}

proof fn lemma_first_holder_none_bits(a: Seq<u64>, i: int, k: int)
    requires
        0 <= k <= 12,
        first_holder(a, i, k) is None,
    ensures
        forall|j: int| k <= j < 12 ==> !bit(a[j], i as u64),
    decreases 12 - k,
{
    if k < 12 {
        lemma_first_holder_none_bits(a, i, k + 1);
    }
}

/// Where only bitboard `m` holds square `i`, that bitboard decides it.
proof fn lemma_first_holder_single(a: Seq<u64>, i: int, m: int, k: int)
    requires
        0 <= k <= m < 12,
        bit(a[m], i as u64),
        forall|j: int| k <= j < 12 && j != m ==> !bit(a[j], i as u64),
    ensures
        first_holder(a, i, k) == Some(kind_of(m)),
    decreases 12 - k,
{
    if k < m {
        lemma_first_holder_single(a, i, m, k + 1);
    }
}

} // verus!
