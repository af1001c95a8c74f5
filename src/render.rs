use crate::pinning::Pin;
use crate::types::{Color, Piece, Role, Square};
use vstd::prelude::*;
use vstd::string::StringExecFns;

verus! {

pub open spec fn color_name(c: Color) -> Seq<char> {
    match c {
        Color::White => "White"@,
        Color::Black => "Black"@,
    }
}

pub open spec fn role_name(r: Role) -> Seq<char> {
    match r {
        Role::Pawn => "Pawn"@,
        Role::Knight => "Knight"@,
        Role::Bishop => "Bishop"@,
        Role::Rook => "Rook"@,
        Role::Queen => "Queen"@,
        Role::King => "King"@,
    }
}

/// A piece in words: its color, a space, its role.
pub open spec fn piece_name(p: Piece) -> Seq<char> {
    color_name(p.color) + " "@ + role_name(p.role)
}

/// The letter of a file, a to h.
pub open spec fn file_letter(f: int) -> char {
    if f == 0 {
        'a'
    } else if f == 1 {
        'b'
    } else if f == 2 {
        'c'
    } else if f == 3 {
        'd'
    } else if f == 4 {
        'e'
    } else if f == 5 {
        'f'
    } else if f == 6 {
        'g'
    } else {
        'h'
    }
}

/// The digit of a rank, 1 to 8.
pub open spec fn rank_digit(r: int) -> char {
    if r == 0 {
        '1'
    } else if r == 1 {
        '2'
    } else if r == 2 {
        '3'
    } else if r == 3 {
        '4'
    } else if r == 4 {
        '5'
    } else if r == 5 {
        '6'
    } else if r == 6 {
        '7'
    } else {
        '8'
    }
}

/// A square in algebraic notation, such as `e4`.
pub open spec fn square_name(s: Square) -> Seq<char> {
    seq![file_letter(s.0 as int % 8), rank_digit(s.0 as int / 8)]
}

/// The sentence that describes a pin.
pub open spec fn pin_sentence(p: Pin) -> Seq<char> {
    let b = p.board_spec();
    "The "@ + piece_name(b.at(p.attacker_spec()).unwrap()) + " on "@ + square_name(p.attacker_spec())
        + " now pins the "@ + piece_name(b.at(p.pinned_spec()).unwrap()) + " on "@ + square_name(
        p.pinned_spec(),
    ) + " to the "@ + piece_name(b.at(p.target_spec()).unwrap()) + " on "@ + square_name(
        p.target_spec(),
    )
}

fn color_str(c: Color) -> (r: &'static str)
    ensures
        r@ == color_name(c),
{
    match c {
        Color::White => "White",
        Color::Black => "Black",
    }
}

fn role_str(r: Role) -> (s: &'static str)
    ensures
        s@ == role_name(r),
{
    match r {
        Role::Pawn => "Pawn",
        Role::Knight => "Knight",
        Role::Bishop => "Bishop",
        Role::Rook => "Rook",
        Role::Queen => "Queen",
        Role::King => "King",
    }
}

fn file_str(f: u8) -> (r: &'static str)
    requires
        f < 8,
    ensures
        r@ == seq![file_letter(f as int)],
{
    proof {
        reveal_strlit("a");
        reveal_strlit("b");
        reveal_strlit("c");
        reveal_strlit("d");
        reveal_strlit("e");
        reveal_strlit("f");
        reveal_strlit("g");
        reveal_strlit("h");
    }
    let r = if f == 0 {
        "a"
    } else if f == 1 {
        "b"
    } else if f == 2 {
        "c"
    } else if f == 3 {
        "d"
    } else if f == 4 {
        "e"
    } else if f == 5 {
        "f"
    } else if f == 6 {
        "g"
    } else {
        "h"
    };
    assert(r@ =~= seq![file_letter(f as int)]);
    r
}

fn rank_str(n: u8) -> (r: &'static str)
    requires
        n < 8,
    ensures
        r@ == seq![rank_digit(n as int)],
{
    proof {
        reveal_strlit("1");
        reveal_strlit("2");
        reveal_strlit("3");
        reveal_strlit("4");
        reveal_strlit("5");
        reveal_strlit("6");
        reveal_strlit("7");
        reveal_strlit("8");
    }
    let r = if n == 0 {
        "1"
    } else if n == 1 {
        "2"
    } else if n == 2 {
        "3"
    } else if n == 3 {
        "4"
    } else if n == 4 {
        "5"
    } else if n == 5 {
        "6"
    } else if n == 6 {
        "7"
    } else {
        "8"
    };
    assert(r@ =~= seq![rank_digit(n as int)]);
    r
}

/// Appends the name of a piece to `out`.
fn push_piece(out: &mut String, p: Piece)
    ensures
        final(out)@ == old(out)@ + piece_name(p),
{
    out.append(color_str(p.color));
    out.append(" ");
    out.append(role_str(p.role));
    assert(out@ =~= old(out)@ + piece_name(p));
}

/// Appends the name of a square on the board to `out`.
fn push_square(out: &mut String, s: Square)
    requires
        s.on_board(),
    ensures
        final(out)@ == old(out)@ + square_name(s),
{
    out.append(file_str(s.0 % 8));
    out.append(rank_str(s.0 / 8));
    assert(out@ =~= old(out)@ + square_name(s));
}

impl Pin {
    /// The pin as a sentence: "The White Bishop on b5 now pins the Black
    /// Knight on c6 to the Black King on e8".
    pub fn to_string(&self) -> (r: String)
        ensures
            r@ == pin_sentence(*self),
    {
        let attacker = self.attacking_square();
        let pinned = self.pinned_square();
        let target = self.target_square();
        let mut out = String::from_str("The ");
        push_piece(&mut out, self.attacking_piece());
        out.append(" on ");
        push_square(&mut out, attacker);
        out.append(" now pins the ");
        push_piece(&mut out, self.pinned_piece());
        out.append(" on ");
        push_square(&mut out, pinned);
        out.append(" to the ");
        push_piece(&mut out, self.target_piece());
        out.append(" on ");
        push_square(&mut out, target);
        assert(out@ =~= pin_sentence(*self));
        out
    }
}

} // verus!
