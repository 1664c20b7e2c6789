use vstd::prelude::*;
use crate::square::{algebraic_to_index, index_to_algebraic, name_of_square, square_of_name};

verus! {

pub const QUIET_MOVE: u16 = 0;
pub const DOUBLE_PAWN_PUSH: u16 = 1;
pub const KING_CASTLE: u16 = 2;
pub const QUEEN_CASTLE: u16 = 3;
pub const CAPTURE: u16 = 4;
pub const EP_CAPTURE: u16 = 5;
pub const KNIGHT_PROMOTION: u16 = 8;
pub const BISHOP_PROMOTION: u16 = 9;
pub const ROOK_PROMOTION: u16 = 10;
pub const QUEEN_PROMOTION: u16 = 11;
pub const KNIGHT_PROMOTION_CAPTURE: u16 = 12;
pub const BISHOP_PROMOTION_CAPTURE: u16 = 13;
pub const ROOK_PROMOTION_CAPTURE: u16 = 14;
pub const QUEEN_PROMOTION_CAPTURE: u16 = 15;

/// A move in 16 bits: destination in bits 0-5, origin in bits 6-11 and
/// the flag in bits 12-15. Two moves are equal when all 16 bits are.
#[derive(Clone, Copy, Debug, PartialEq, Eq, Structural)]
pub struct BitBoardMove(pub u16);

/// The 16 bits of the move from `from` to `to` with flag `flags`.
pub open spec fn encode(from: int, to: int, flags: int) -> u16 {
    (to + from * 64 + flags * 4096) as u16
}

impl BitBoardMove {
    pub open spec fn to_spec(self) -> int {
        (self.0 % 64) as int
    }

    pub open spec fn from_spec(self) -> int {
        ((self.0 / 64) % 64) as int
    }

    pub open spec fn flags_spec(self) -> int {
        (self.0 / 4096) as int
    }

    pub open spec fn is_promotion(self) -> bool {
        self.flags_spec() >= 8
    }

    /// 0 for a knight, 1 bishop, 2 rook, 3 queen.
    pub open spec fn promotion_kind(self) -> int {
        self.flags_spec() % 4
    }

    pub fn new(from: u16, to: u16, flags: u16) -> (r: Self)
        ensures
            r.from_spec() == from % 64,
            r.to_spec() == to % 64,
            r.flags_spec() == flags % 16,
    {
        proof {
            lemma_pack(from, to, flags);
        }
        BitBoardMove((to & 0x3f) | ((from & 0x3f) << 6) | ((flags & 0xf) << 12))
    }

    pub fn get_to(&self) -> (r: u16)
        ensures
            r as int == self.to_spec(),
    {
        proof {
            lemma_unpack(self.0);
        }
        self.0 & 0x3f
    }

    pub fn get_from(&self) -> (r: u16)
        ensures
            r as int == self.from_spec(),
    {
        proof {
            lemma_unpack(self.0);
        }
        (self.0 >> 6) & 0x3f
    }

    pub fn get_flags(&self) -> (r: u16)
        ensures
            r as int == self.flags_spec(),
    {
        proof {
            lemma_unpack(self.0);
        }
        (self.0 >> 12) & 0xf
    }

    pub fn set_to(&mut self, to: u16)
        ensures
            final(self).to_spec() == to % 64,
            final(self).from_spec() == old(self).from_spec(),
            final(self).flags_spec() == old(self).flags_spec(),
    {
        let m = BitBoardMove::new(self.get_from(), to, self.get_flags());
        *self = m;
    }

    pub fn set_from(&mut self, from: u16)
        ensures
            final(self).from_spec() == from % 64,
            final(self).to_spec() == old(self).to_spec(),
            final(self).flags_spec() == old(self).flags_spec(),
    {
        let m = BitBoardMove::new(from, self.get_to(), self.get_flags());
        *self = m;
    }

    pub fn set_flags(&mut self, flags: u16)
        ensures
            final(self).flags_spec() == flags % 16,
            final(self).from_spec() == old(self).from_spec(),
            final(self).to_spec() == old(self).to_spec(),
    {
        let m = BitBoardMove::new(self.get_from(), self.get_to(), flags);
        *self = m;
    }
}

proof fn lemma_pack(from: u16, to: u16, flags: u16)
    ensures
        ({
            let x = (to & 0x3f) | ((from & 0x3f) << 6) | ((flags & 0xf) << 12);
            &&& x % 64 == to % 64
            &&& (x / 64) % 64 == from % 64
            &&& x / 4096 == flags % 16
        }),
{
    assert(({
        let x = (to & 0x3f) | ((from & 0x3f) << 6) | ((flags & 0xf) << 12);
        &&& x % 64 == to % 64
        &&& (x / 64) % 64 == from % 64
        &&& x / 4096 == flags % 16
    })) by (bit_vector);
}

proof fn lemma_unpack(x: u16)
    ensures
        x & 0x3f == x % 64,
        (x >> 6) & 0x3f == (x / 64) % 64,
        (x >> 12) & 0xf == x / 4096,
{
    assert(x & 0x3f == x % 64 && (x >> 6) & 0x3f == (x / 64) % 64 && (x >> 12) & 0xf == x
        / 4096) by (bit_vector);
}

/// Two moves with the same origin, destination and flag are the same move.
pub proof fn lemma_move_fields_determine(a: BitBoardMove, b: BitBoardMove)
    requires
        a.from_spec() == b.from_spec(),
        a.to_spec() == b.to_spec(),
        a.flags_spec() == b.flags_spec(),
    ensures
        a == b,
{
    let x = a.0;
    let y = b.0;
    assert(x % 64 == y % 64 && (x / 64) % 64 == (y / 64) % 64 && x / 4096 == y / 4096 ==> x
        == y) by (bit_vector);
}

/// The flag that a promotion letter asks for (`q r b n`, either case).
pub open spec fn promotion_letter(c: u8) -> Option<int> {
    if c == 113 || c == 81 {
        Some(QUEEN_PROMOTION as int)
    } else if c == 114 || c == 82 {
        Some(ROOK_PROMOTION as int)
    } else if c == 98 || c == 66 {
        Some(BISHOP_PROMOTION as int)
    } else if c == 110 || c == 78 {
        Some(KNIGHT_PROMOTION as int)
    } else {
        None
    }
}

/// Origin, destination and flag that a long algebraic move string
/// denotes: two square names, then an optional promotion letter.
pub open spec fn parse_move_text(s: Seq<u8>) -> Option<(int, int, int)> {
    if s.len() != 4 && s.len() != 5 {
        None
    } else {
        let from = square_of_name(s.subrange(0, 2));
        let to = square_of_name(s.subrange(2, 4));
        if from is None || to is None {
            None
        } else if s.len() == 4 {
            Some((from->0, to->0, 0))
        } else if promotion_letter(s[4]) is None {
            None
        } else {
            Some((from->0, to->0, promotion_letter(s[4])->0))
        }
    }
}

/// Lower-case letter of a promotion kind (0 knight, 1 bishop, 2 rook, 3 queen).
pub open spec fn promotion_char(kind: int) -> u8 {
    if kind == 0 {
        110u8
    } else if kind == 1 {
        98u8
    } else if kind == 2 {
        114u8
    } else {
        113u8
    }
}

/// The long algebraic text of a move, as bytes.
pub open spec fn long_algebraic(m: BitBoardMove) -> Seq<u8> {
    let base = name_of_square(m.from_spec()) + name_of_square(m.to_spec());
    if m.is_promotion() {
        base.push(promotion_char(m.promotion_kind()))
    } else {
        base
    }
}

/// The characters of ASCII bytes.
pub open spec fn ascii_chars(s: Seq<u8>) -> Seq<char> {
    s.map_values(|b: u8| b as char)
}

/// Relies on `String::from_utf8`: ASCII bytes give the string of the
/// same characters.
#[verifier::external_body]
fn ascii_to_string(bytes: Vec<u8>) -> (r: String)
    requires
        forall|i: int| 0 <= i < bytes@.len() ==> bytes@[i] < 128,
    ensures
        r@ == ascii_chars(bytes@),
{
    match String::from_utf8(bytes) {
        Ok(s) => s,
        Err(_) => String::new(),
    }
}

impl BitBoardMove {
    /// Reads a move such as `e2e4` or `e7e8q`.
    pub fn from_long_algebraic(from: &[u8]) -> (r: Result<Self, ()>)
        ensures
            r is Ok <==> parse_move_text(from@) is Some,
            r is Ok ==> ({
                let (f, t, fl) = parse_move_text(from@)->0;
                &&& r->Ok_0.from_spec() == f
                &&& r->Ok_0.to_spec() == t
                &&& r->Ok_0.flags_spec() == fl
            }),
    {
        if from.len() != 4 && from.len() != 5 {
            return Err(());
        }
        let a = [from[0], from[1]];
        let b = [from[2], from[3]];
        assert(a@ =~= from@.subrange(0, 2));
        assert(b@ =~= from@.subrange(2, 4));
        let start = match algebraic_to_index(&a) {
            Ok(s) => s as u16,
            Err(_) => return Err(()),
        };
        let end = match algebraic_to_index(&b) {
            Ok(e) => e as u16,
            Err(_) => return Err(()),
        };
        let flags: u16 = if from.len() == 5 {
            let c = from[4];
            if c == 113 || c == 81 {
                QUEEN_PROMOTION
            } else if c == 114 || c == 82 {
                ROOK_PROMOTION
            } else if c == 98 || c == 66 {
                BISHOP_PROMOTION
            } else if c == 110 || c == 78 {
                KNIGHT_PROMOTION
            } else {
                return Err(());
            }
        } else {
            QUIET_MOVE
        };
        Ok(BitBoardMove::new(start, end, flags))
    }

    /// Writes the move as origin and destination names, then the
    /// promotion letter if the move promotes.
    pub fn to_long_algebraic(&self) -> (r: Result<String, String>)
        ensures
            r is Ok,
            r->Ok_0@ == ascii_chars(long_algebraic(*self)),
    {
        let from = index_to_algebraic(self.get_from() as usize);
        let to = index_to_algebraic(self.get_to() as usize);
        let mut text: Vec<u8> = Vec::new();
        text.push(from[0]);
        text.push(from[1]);
        text.push(to[0]);
        text.push(to[1]);
        let flags = self.get_flags();
        if flags >= 8 {
            let kind = flags % 4;
            let c: u8 = if kind == 0 {
                110
            } else if kind == 1 {
                98
            } else if kind == 2 {
                114
            } else {
                113
            };
            text.push(c);
        }
        assert(text@ =~= long_algebraic(*self));
        Ok(ascii_to_string(text))
    }
}

/// Reading the text of a move gives back its origin and destination, and
/// its promotion piece if it promotes; the other flag bits are not written.
pub proof fn lemma_long_algebraic_round_trip(m: BitBoardMove)
    ensures
        parse_move_text(long_algebraic(m)) == Some(
            (
                m.from_spec(),
                m.to_spec(),
                if m.is_promotion() {
                    8 + m.promotion_kind()
                } else {
                    0
                },
            ),
        ),
{
    let s = long_algebraic(m);
    assert(s.subrange(0, 2) =~= name_of_square(m.from_spec()));
    assert(s.subrange(2, 4) =~= name_of_square(m.to_spec()));
    lemma_name_round_trip(m.from_spec());
    lemma_name_round_trip(m.to_spec());
}

proof fn lemma_name_round_trip(sq: int)
    requires
        0 <= sq < 64,
    ensures
        square_of_name(name_of_square(sq)) == Some(sq),
{
}

} // verus!
