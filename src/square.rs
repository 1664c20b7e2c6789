use vstd::prelude::*;

verus! {

/// File (column) of a square index, 0 for the a-file.
pub open spec fn file_of(sq: int) -> int {
    sq % 8
}

/// Rank (row) of a square index, 0 for White's back rank.
pub open spec fn rank_of(sq: int) -> int {
    sq / 8
}

/// The file number that a file letter names, either case (`a` is 97, `A` is 65).
pub open spec fn file_letter(c: u8) -> Option<int> {
    if 97u8 <= c && c <= 104u8 {
        Some(c - 97u8)
    } else if 65u8 <= c && c <= 72u8 {
        Some(c - 65u8)
    } else {
        None
    }
}

/// The rank number that a rank digit names (`1` is 49).
pub open spec fn rank_digit(c: u8) -> Option<int> {
    if 49u8 <= c && c <= 56u8 {
        Some(c - 49u8)
    } else {
        None
    }
}

/// The square that a two-character name such as `e4` denotes.
pub open spec fn square_of_name(s: Seq<u8>) -> Option<int> {
    if s.len() == 2 && file_letter(s[0]) is Some && rank_digit(s[1]) is Some {
        Some(rank_digit(s[1])->0 * 8 + file_letter(s[0])->0)
    } else {
        None
    }
}

/// The lower-case two-character name of a square.
pub open spec fn name_of_square(sq: int) -> Seq<u8> {
    seq![(97u8 + file_of(sq)) as u8, (49u8 + rank_of(sq)) as u8]
}

/// Reads a square name such as `e4` (the file letter in either case).
pub fn algebraic_to_index(s: &[u8]) -> (r: Result<usize, &'static str>)
    ensures
        r is Ok <==> square_of_name(s@) is Some,
        r is Ok ==> r->Ok_0 as int == square_of_name(s@)->0,
        r is Ok ==> r->Ok_0 < 64,
{
    if s.len() != 2 {
        return Err("a square name has two characters");
    }
    let f = s[0];
    let file: u8 = if 97u8 <= f && f <= 104u8 {
        f - 97u8
    } else if 65u8 <= f && f <= 72u8 {
        f - 65u8
    } else {
        return Err("file letter out of range");
    };
    let r = s[1];
    if r < 49u8 || r > 56u8 {
        return Err("rank digit out of range");
    }
    let rank: u8 = r - 49u8;
    Ok(rank as usize * 8 + file as usize)
}

/// The lower-case name of a square, file letter first.
pub fn index_to_algebraic(value: usize) -> (r: [u8; 2])
    requires
        value < 64,
    ensures
        r@ == name_of_square(value as int),
        square_of_name(r@) == Some(value as int),
{
    let file: u8 = (value % 8) as u8 + 97u8;
    let rank: u8 = (value / 8) as u8 + 49u8;
    let r = [file, rank];
    assert(r@ =~= name_of_square(value as int));
    r
}

} // verus!
