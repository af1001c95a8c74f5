use crate::board::Board;
use crate::pinning::{
    is_pin_triple, lemma_pin_of_parts, lemma_pins_where_pinned_members, pin_of, pins_where_pinned, Pin,
};
use crate::types::{Role, Square};
use vstd::prelude::*;

verus! {

/// How a piece is pinned.
#[derive(Clone, Copy, Debug, PartialEq, Eq, Structural, Hash)]
pub enum Pins {
    /// To its king.
    Absolute,
    /// To a piece of its side, other than the king, that outranks it.
    Relative,
    /// Both: to its king on one line and to another piece on another.
    AbsoluteAndRelative,
}

/// Some enemy piece pins the piece on `sq` to its king.
pub open spec fn absolutely_pinned(b: Board, sq: Square) -> bool {
    exists|a: Square, t: Square| #[trigger]
        is_pin_triple(b, a, t, sq) && b.at(t).unwrap().role == Role::King
}

/// Some enemy piece pins the piece on `sq` to a piece other than its king.
pub open spec fn relatively_pinned(b: Board, sq: Square) -> bool {
    exists|a: Square, t: Square| #[trigger]
        is_pin_triple(b, a, t, sq) && b.at(t).unwrap().role != Role::King
}

/// The class of a piece that is pinned absolutely when `abs` holds and
/// relatively when `rel` holds.
pub open spec fn class_of(abs: bool, rel: bool) -> Option<Pins> {
    if abs && rel {
        Some(Pins::AbsoluteAndRelative)
    } else if abs {
        Some(Pins::Absolute)
    } else if rel {
        Some(Pins::Relative)
    } else {
        None
    }
}

/// Whether some pin in `pins` has a target of the given kind: a king when
/// `king` holds, another piece otherwise.
fn any_pin_to_king(pins: &Vec<Pin>, king: bool) -> (r: bool)
    ensures
        r == exists|i: int| 0 <= i < pins@.len() && #[trigger] pins@[i].is_absolute_spec() == king,
{
    let mut i: usize = 0;
    while i < pins.len()
        invariant
            i <= pins@.len(),
            forall|j: int| 0 <= j < i ==> #[trigger] pins@[j].is_absolute_spec() != king,
        decreases pins@.len() - i,
    {
        if pins[i].is_absolute() == king {
            return true;
        }
        i = i + 1;
    }
    false
}

/// A pin triple of the piece on `sq` whose target is a king (or, when `king`
/// fails, is not) exists exactly when its list of pins holds such a pin.
proof fn lemma_pins_to_king(b: Board, sq: Square, king: bool)
    ensures
        (exists|a: Square, t: Square| #[trigger]
            is_pin_triple(b, a, t, sq) && (b.at(t).unwrap().role == Role::King) == king) == (exists|
            i: int,
        |
            0 <= i < pins_where_pinned(b, sq).len() && #[trigger] pins_where_pinned(
                b,
                sq,
            )[i].is_absolute_spec() == king),
{
    let pins = pins_where_pinned(b, sq);
    lemma_pins_where_pinned_members(b, sq);
    if exists|a: Square, t: Square| #[trigger]
        is_pin_triple(b, a, t, sq) && (b.at(t).unwrap().role == Role::King) == king {
        let (a, t) = choose|a: Square, t: Square| #[trigger]
            is_pin_triple(b, a, t, sq) && (b.at(t).unwrap().role == Role::King) == king;
        lemma_pin_of_parts(b, a, t, sq);
        let j = choose|j: int| 0 <= j < pins.len() && pins[j] == pin_of(b, a, t, sq);
        assert(pins[j].is_absolute_spec() == king);
    }
    if exists|i: int| 0 <= i < pins.len() && #[trigger] pins[i].is_absolute_spec() == king {
        let j = choose|j: int| 0 <= j < pins.len() && #[trigger] pins[j].is_absolute_spec() == king;
        let p = pins[j];
        assert(is_pin_triple(b, p.attacker_spec(), p.target_spec(), sq));
    }
}

/// Whether an enemy piece pins the piece on `pinned_piece` to its king.
pub fn is_absolutely_pinned(board: &Board, pinned_piece: Square) -> (r: bool)
    ensures
        r == absolutely_pinned(*board, pinned_piece),
{
    let pins = board.pins_where_square_is_pinned(pinned_piece);
    proof {
        lemma_pins_to_king(*board, pinned_piece, true);
    }
    any_pin_to_king(&pins, true)
}

/// Whether an enemy piece pins the piece on `pinned_piece` to a piece of its
/// side, other than the king, that outranks it.
pub fn is_relative_pin(board: &Board, pinned_piece: Square) -> (r: bool)
    ensures
        r == relatively_pinned(*board, pinned_piece),
{
    let pins = board.pins_where_square_is_pinned(pinned_piece);
    proof {
        lemma_pins_to_king(*board, pinned_piece, false);
    }
    any_pin_to_king(&pins, false)
}

/// How the piece on `pinned_piece` is pinned, `None` when it is not.
pub fn is_pin(board: &Board, pinned_piece: Square) -> (r: Option<Pins>)
    ensures
        r == class_of(absolutely_pinned(*board, pinned_piece), relatively_pinned(*board, pinned_piece)),
{
    let abs = is_absolutely_pinned(board, pinned_piece);
    let rel = is_relative_pin(board, pinned_piece);
    match (abs, rel) {
        (true, true) => Some(Pins::AbsoluteAndRelative),
        (true, false) => Some(Pins::Absolute),
        (false, true) => Some(Pins::Relative),
        _ => None,
    }
}

/// The class that `is_pin` gives is one of four, and it is
/// `AbsoluteAndRelative` exactly when both the absolute and the relative
/// predicates hold.
pub proof fn lemma_class_of_pin(b: Board, sq: Square)
    ensures
        ({
            let c = class_of(absolutely_pinned(b, sq), relatively_pinned(b, sq));
            &&& c == None::<Pins> || c == Some(Pins::Absolute) || c == Some(Pins::Relative) || c
                == Some(Pins::AbsoluteAndRelative)
            &&& (c == Some(Pins::AbsoluteAndRelative)) == (absolutely_pinned(b, sq)
                && relatively_pinned(b, sq))
            &&& (c == Some(Pins::Absolute)) == (absolutely_pinned(b, sq) && !relatively_pinned(
                b,
                sq,
            ))
            &&& (c == Some(Pins::Relative)) == (!absolutely_pinned(b, sq) && relatively_pinned(
                b,
                sq,
            ))
            &&& (c == None::<Pins>) == (!absolutely_pinned(b, sq) && !relatively_pinned(b, sq))
        }),
{
}

} // verus!
