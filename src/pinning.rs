use crate::bits::{bit_set, contains, lemma_bits_ext, lemma_has_ops, square_bit};
use crate::board::{
    attackers_of, attackers_to, attacks_from, attacks_from_of, between, between_of, Board,
};
use crate::points::lemma_lower_is_converse_of_higher;
use crate::types::{Piece, Role, Square};
use vstd::prelude::*;

verus! {

/// One pin: the piece on `pinned` stands between `attacker` and `target`, and
/// cannot leave the line without exposing `target`.
#[derive(Clone, Copy, Debug, PartialEq, Eq, Structural, Hash)]
pub struct Pin {
    attacker: Square,
    target: Square,
    pinned: Square,
    board: Board,
}

/// The pieces on the three squares of a pin: an attacker of one side, and a
/// pinned piece and a target of the other side, the target outranking the
/// pinned piece and standing on another square.
pub open spec fn pin_shape(b: Board, attacker: Square, target: Square, pinned: Square) -> bool {
    &&& (b.at(attacker) is Some)
    &&& (b.at(target) is Some)
    &&& (b.at(pinned) is Some)
    &&& b.at(target).unwrap().color == b.at(pinned).unwrap().color
    &&& b.at(attacker).unwrap().color == b.at(pinned).unwrap().color.other()
    &&& b.at(pinned).unwrap().role.is_higher_value_spec(b.at(target).unwrap().role)
    &&& pinned != target
}

/// The squares of `ray`, other than `target`, that hold a piece of the
/// target's side.
pub open spec fn defenders_on(b: Board, ray: u64, target: Square) -> Set<int> {
    Set::new(
        |s: int| bit_set(ray, s) && s != target.0 && b.color_at(s) == b.color_at(target.0 as int),
    )
}

/// The squares of the target's side strictly between `attacker` and `target`.
pub open spec fn defenders_between(b: Board, attacker: Square, target: Square) -> Set<int> {
    defenders_on(b, between_of(attacker.0, target.0), target)
}

/// Of the pieces on the target's side, the one on `pin` is the only one that
/// stands strictly between `attacker` and `target`.
pub open spec fn only_blocker(b: Board, attacker: Square, target: Square, pin: Square) -> bool {
    &&& (b.at(target) is Some)
    &&& pin.on_board()
    &&& defenders_between(b, attacker, target) == set![pin.0 as int]
}

/// `attacker` pins the piece on `pinned` to the piece on `target`: the three
/// pieces have the shape of a pin, the attacker reaches the target's square on
/// an empty board, and the pinned piece is the target side's only piece between
/// them.
pub open spec fn is_pin_triple(b: Board, attacker: Square, target: Square, pinned: Square) -> bool {
    &&& pin_shape(b, attacker, target, pinned)
    &&& bit_set(
        attackers_of(b, target.0, b.at(pinned).unwrap().color.other(), 0),
        attacker.0 as int,
    )
    &&& only_blocker(b, attacker, target, pinned)
}

impl Pin {
    #[verifier::type_invariant]
    closed spec fn well_formed(self) -> bool {
        pin_shape(self.board, self.attacker, self.target, self.pinned)
    }

    pub closed spec fn attacker_spec(self) -> Square {
        self.attacker
    }

    pub closed spec fn target_spec(self) -> Square {
        self.target
    }

    pub closed spec fn pinned_spec(self) -> Square {
        self.pinned
    }

    /// The board the pin was found on.
    pub closed spec fn board_spec(self) -> Board {
        self.board
    }

    /// The target is a king.
    pub open spec fn is_absolute_spec(self) -> bool {
        self.board_spec().at(self.target_spec()).unwrap().role == Role::King
    }
}

/// The pin with these squares on board `b`.
pub closed spec fn pin_of(b: Board, attacker: Square, target: Square, pinned: Square) -> Pin {
    Pin { attacker, target, pinned, board: b }
}

/// What a pin built by `pin_of` holds.
pub proof fn lemma_pin_of_parts(b: Board, attacker: Square, target: Square, pinned: Square)
    ensures
        pin_of(b, attacker, target, pinned).attacker_spec() == attacker,
        pin_of(b, attacker, target, pinned).target_spec() == target,
        pin_of(b, attacker, target, pinned).pinned_spec() == pinned,
        pin_of(b, attacker, target, pinned).board_spec() == b,
{
}

/// Where the only-blocker check holds, the pinned piece stands apart from the target.
proof fn lemma_only_blocker(b: Board, attacker: Square, target: Square, pin: Square)
    requires
        only_blocker(b, attacker, target, pin),
    ensures
        pin != target,
{
    assert(defenders_between(b, attacker, target).contains(pin.0 as int));
}

/// The only-blocker check: of the pieces on the target's side, the one on `pin`
/// is the only one strictly between `attacker` and `target`.
fn is_pinned(board: &Board, attacker: Square, target: Square, pin: Square) -> (r: bool)
    requires
        attacker.on_board(),
        target.on_board(),
    ensures
        r == only_blocker(*board, attacker, target, pin),
{
    let ray = between(attacker, target);
    board.is_only_blocker(ray, target, pin)
}

/// The pins of `pinned` to `target` whose attacker index is below `n`, by attacker index.
spec fn pins_on_target(b: Board, pinned: Square, target: Square, n: nat) -> Seq<Pin>
    decreases n,
{
    if n == 0 {
        Seq::empty()
    } else {
        let attacker = Square((n - 1) as u8);
        pins_on_target(b, pinned, target, (n - 1) as nat) + if is_pin_triple(
            b,
            attacker,
            target,
            pinned,
        ) {
            seq![pin_of(b, attacker, target, pinned)]
        } else {
            Seq::empty()
        }
    }
}

/// The pins of `pinned` whose target index is below `n`, by target index, then attacker index.
spec fn pinned_upto(b: Board, pinned: Square, n: nat) -> Seq<Pin>
    decreases n,
{
    if n == 0 {
        Seq::empty()
    } else {
        pinned_upto(b, pinned, (n - 1) as nat) + pins_on_target(
            b,
            pinned,
            Square((n - 1) as u8),
            64,
        )
    }
}

/// Every pin of the piece on `sq`, by target index, then attacker index.
pub closed spec fn pins_where_pinned(b: Board, sq: Square) -> Seq<Pin> {
    pinned_upto(b, sq, 64)
}

proof fn lemma_no_pins_on_target(b: Board, pinned: Square, target: Square, n: nat)
    requires
        forall|a: Square| !#[trigger] is_pin_triple(b, a, target, pinned),
    ensures
        pins_on_target(b, pinned, target, n) == Seq::<Pin>::empty(),
    decreases n,
{
    if n > 0 {
        lemma_no_pins_on_target(b, pinned, target, (n - 1) as nat);
        assert(!is_pin_triple(b, Square((n - 1) as u8), target, pinned));
        assert(pins_on_target(b, pinned, target, n) =~= Seq::<Pin>::empty());
    }
}

proof fn lemma_no_pins_of(b: Board, pinned: Square, n: nat)
    requires
        forall|a: Square, t: Square| !#[trigger] is_pin_triple(b, a, t, pinned),
    ensures
        pinned_upto(b, pinned, n) == Seq::<Pin>::empty(),
    decreases n,
{
    if n > 0 {
        lemma_no_pins_of(b, pinned, (n - 1) as nat);
        lemma_no_pins_on_target(b, pinned, Square((n - 1) as u8), 64);
        assert(pinned_upto(b, pinned, n) =~= Seq::<Pin>::empty());
    }
}

/// The lowest target index from `n` up to which `attacker` pins `pinned`.
spec fn first_target_from(b: Board, attacker: Square, pinned: Square, n: nat) -> Option<Square>
    decreases 64 - n,
{
    if n >= 64 {
        None
    } else if is_pin_triple(b, attacker, Square(n as u8), pinned) {
        Some(Square(n as u8))
    } else {
        first_target_from(b, attacker, pinned, n + 1)
    }
}

/// The pin of `pinned` by `attacker` to the lowest target index, if there is one.
pub closed spec fn first_pin(b: Board, attacker: Square, pinned: Square) -> Option<Pin> {
    match first_target_from(b, attacker, pinned, 0) {
        Some(t) => Some(pin_of(b, attacker, t, pinned)),
        None => None,
    }
}

proof fn lemma_first_target_from(b: Board, attacker: Square, pinned: Square, n: nat)
    ensures
        match first_target_from(b, attacker, pinned, n) {
            Some(t) => n <= t.0 < 64 && is_pin_triple(b, attacker, t, pinned) && forall|u: Square|
                n <= u.0 < t.0 ==> !#[trigger] is_pin_triple(b, attacker, u, pinned),
            None => forall|u: Square| n <= u.0 ==> !#[trigger] is_pin_triple(b, attacker, u, pinned),
        },
    decreases 64 - n,
{
    if n < 64 {
        lemma_first_target_from(b, attacker, pinned, n + 1);
        assert forall|u: Square| u.0 == n implies (#[trigger] is_pin_triple(b, attacker, u, pinned)
            == is_pin_triple(b, attacker, Square(n as u8), pinned)) by {
            assert(u == Square(n as u8));
        }
    }
}

/// `first_pin` is the pin to the lowest target index at which `attacker` pins
/// `pinned`, and there is one exactly when `attacker` pins `pinned` to anything.
pub proof fn lemma_first_pin(b: Board, attacker: Square, pinned: Square)
    ensures
        first_pin(b, attacker, pinned) is Some <==> exists|t: Square|
            #[trigger] is_pin_triple(b, attacker, t, pinned),
        first_pin(b, attacker, pinned) matches Some(p) ==> {
            &&& p.attacker_spec() == attacker
            &&& p.pinned_spec() == pinned
            &&& p.board_spec() == b
            &&& is_pin_triple(b, attacker, p.target_spec(), pinned)
            &&& forall|u: Square|
                u.0 < p.target_spec().0 ==> !#[trigger] is_pin_triple(b, attacker, u, pinned)
        },
{
    lemma_first_target_from(b, attacker, pinned, 0);
}

/// The pins with the piece on `sq` as attacker and a pinned index below `n`, by pinned index.
spec fn attacker_upto(b: Board, sq: Square, n: nat) -> Seq<Pin>
    decreases n,
{
    if n == 0 {
        Seq::empty()
    } else {
        let s = Square((n - 1) as u8);
        attacker_upto(b, sq, (n - 1) as nat) + if bit_set(attacks_from_of(b, sq.0), s.0 as int)
            && first_pin(b, sq, s) is Some {
            seq![first_pin(b, sq, s).unwrap()]
        } else {
            Seq::empty()
        }
    }
}

/// For each square that the piece on `sq` attacks, by index, the pin of that
/// square's piece by it to the lowest target index, if any. Empty when `sq` is empty.
pub closed spec fn pins_where_attacker(b: Board, sq: Square) -> Seq<Pin> {
    if b.at(sq) is Some {
        attacker_upto(b, sq, 64)
    } else {
        Seq::empty()
    }
}

/// The piece on `c` is one behind which the piece on `sq` may shelter: of the
/// same side, of lower value, and not a king.
pub open spec fn is_shield(b: Board, sq: Square, c: Square) -> bool {
    &&& (b.at(sq) is Some)
    &&& (b.at(c) is Some)
    &&& b.at(c).unwrap().color == b.at(sq).unwrap().color
    &&& b.at(sq).unwrap().role.is_lower_value_spec(b.at(c).unwrap().role)
    &&& b.at(c).unwrap().role != Role::King
}

/// The enemy pieces that attack `sq` once the piece on `c` is taken off the
/// board, and do not attack it before.
pub open spec fn revealed(b: Board, sq: Square, c: Square) -> u64 {
    let enemy = b.at(sq).unwrap().color.other();
    let rest = b.without(c.0);
    attackers_of(rest, sq.0, enemy, rest.occupied_bits()) & !attackers_of(
        b,
        sq.0,
        enemy,
        b.occupied_bits(),
    )
}

/// The pins of shield `c` to `sq` whose attacker index is below `n`, by attacker index.
spec fn revealed_upto(b: Board, sq: Square, c: Square, n: nat) -> Seq<Pin>
    decreases n,
{
    if n == 0 {
        Seq::empty()
    } else {
        let a = Square((n - 1) as u8);
        revealed_upto(b, sq, c, (n - 1) as nat) + if bit_set(revealed(b, sq, c), a.0 as int) {
            seq![pin_of(b, a, sq, c)]
        } else {
            Seq::empty()
        }
    }
}

/// The pins to `sq` whose shield index is below `n`, by shield index, then attacker index.
spec fn target_upto(b: Board, sq: Square, n: nat) -> Seq<Pin>
    decreases n,
{
    if n == 0 {
        Seq::empty()
    } else {
        let c = Square((n - 1) as u8);
        target_upto(b, sq, (n - 1) as nat) + if is_shield(b, sq, c) {
            revealed_upto(b, sq, c, 64)
        } else {
            Seq::empty()
        }
    }
}

/// For each shield of the piece on `sq`, by index, a pin for each enemy piece
/// that taking the shield away reveals, by index. Empty when `sq` is empty.
pub closed spec fn pins_where_target(b: Board, sq: Square) -> Seq<Pin> {
    target_upto(b, sq, 64)
}

proof fn lemma_no_shields(b: Board, sq: Square, n: nat)
    requires
        b.at(sq) is None,
    ensures
        target_upto(b, sq, n) == Seq::<Pin>::empty(),
    decreases n,
{
    if n > 0 {
        lemma_no_shields(b, sq, (n - 1) as nat);
        assert(target_upto(b, sq, n) =~= Seq::<Pin>::empty());
    }
}

impl Board {
    /// Whether, of the squares of `ray` other than `target`, the ones that hold
    /// a piece of the target's side are exactly `pin`. False when `target` is
    /// empty or `pin` is off the board.
    pub fn is_only_blocker(&self, ray: u64, target: Square, pin: Square) -> (r: bool)
        ensures
            r == ((self.at(target) is Some) && pin.on_board() && defenders_on(*self, ray, target)
                == set![pin.0 as int]),
    {
        if pin.0 >= 64 {
            return false;
        }
        let defender = match self.piece_at(target) {
            None => return false,
            Some(p) => p.color,
        };
        let own = self.by_color(defender);
        let target_bit = square_bit(target.0);
        let others = own & !target_bit;
        let found = ray & others;
        let pin_bit = square_bit(pin.0);
        proof {
            lemma_has_ops(own, target_bit);
            lemma_has_ops(ray, others);
            assert forall|s: int| #[trigger]
                bit_set(found, s) == defenders_on(*self, ray, target).contains(s) by {
                if 0 <= s < 64 && s != target.0 {
                    assert(bit_set(others, s) == bit_set(own, s));
                }
            }
            if defenders_on(*self, ray, target) =~= set![pin.0 as int] {
                assert forall|i: int| #[trigger] bit_set(found, i) == bit_set(pin_bit, i) by {
                    assert(set![pin.0 as int].contains(i) == (i == pin.0));
                }
                lemma_bits_ext(found, pin_bit);
            }
            if found == pin_bit {
                assert forall|i: int| #[trigger]
                    defenders_on(*self, ray, target).contains(i) == set![pin.0 as int].contains(i) by {
                    assert(bit_set(found, i) == bit_set(pin_bit, i));
                }
                assert(defenders_on(*self, ray, target) =~= set![pin.0 as int]);
            }
        }
        found == pin_bit
    }

    /// The pins in which the piece on `square` is the pinned piece: for each
    /// piece of its side that outranks it, each enemy piece that reaches that
    /// piece on an empty board, kept when the piece on `square` is the only one
    /// of its side in between. Empty when `square` is empty.
    pub fn pins_where_square_is_pinned(&self, square: Square) -> (r: Vec<Pin>)
        ensures
            r@ == pins_where_pinned(*self, square),
    {
        proof {
            use_type_invariant(self);
        }
        let piece = match self.piece_at(square) {
            None => {
                proof {
                    lemma_no_pins_of(*self, square, 64);
                }
                return Vec::new();
            },
            Some(p) => p,
        };
        let defender = piece.color;
        let attacker = defender.other();
        let own = self.by_color(defender);
        let higher = self.by_higher_valued_roles(piece.role);
        let targets = own & higher;
        proof {
            lemma_has_ops(own, higher);
        }
        let mut r: Vec<Pin> = Vec::new();
        let mut t: u8 = 0;
        while t < 64
            invariant
                self.consistent(),
                self.at(square) == Some(piece),
                attacker == piece.color.other(),
                defender == piece.color,
                t <= 64,
                forall|s: int| #[trigger]
                    bit_set(targets, s) == (self.color_at(s) == Some(defender) && self.role_at(
                        s,
                    ) is Some && piece.role.is_higher_value_spec(self.role_at(s).unwrap())),
                r@ == pinned_upto(*self, square, t as nat),
            decreases 64 - t,
        {
            let target = Square(t);
            if contains(targets, t) {
                let atk = attackers_to(self, target, attacker, 0);
                proof {
                    self.lemma_within_color(atk, attacker);
                }
                let mut a: u8 = 0;
                while a < 64
                    invariant
                        self.consistent(),
                        self.at(square) == Some(piece),
                        attacker == piece.color.other(),
                        defender == piece.color,
                        t < 64,
                        target == Square(t),
                        bit_set(targets, t as int),
                        forall|s: int| #[trigger]
                            bit_set(targets, s) == (self.color_at(s) == Some(defender)
                                && self.role_at(s) is Some && piece.role.is_higher_value_spec(
                                self.role_at(s).unwrap(),
                            )),
                        atk == attackers_of(*self, t, attacker, 0),
                        forall|s: int| #[trigger] bit_set(atk, s) ==> self.color_at(s) == Some(attacker),
                        a <= 64,
                        r@ == pinned_upto(*self, square, t as nat) + pins_on_target(
                            *self,
                            square,
                            target,
                            a as nat,
                        ),
                    decreases 64 - a,
                {
                    let from = Square(a);
                    let ghost before = r@;
                    if contains(atk, a) && is_pinned(self, from, target, square) {
                        proof {
                            lemma_only_blocker(*self, from, target, square);
                            assert(is_pin_triple(*self, from, target, square));
                        }
                        r.push(Pin { attacker: from, target, pinned: square, board: *self });
                    } else {
                        assert(!is_pin_triple(*self, from, target, square));
                    }
                    a = a + 1;
                    assert(r@ =~= pinned_upto(*self, square, t as nat) + pins_on_target(
                        *self,
                        square,
                        target,
                        a as nat,
                    ));
                }
            } else {
                proof {
                    lemma_no_pins_on_target(*self, square, target, 64);
                }
            }
            t = t + 1;
            assert(r@ =~= pinned_upto(*self, square, t as nat));
        }
        r
    }

    /// The pin of the piece on `pinned` by the piece on `attacker` to the
    /// lowest-indexed target that makes one, if any.
    pub fn attacker_and_pin(&self, attacker: Square, pinned: Square) -> (r: Option<Pin>)
        ensures
            r == first_pin(*self, attacker, pinned),
            r is Some <==> exists|t: Square| #[trigger] is_pin_triple(*self, attacker, t, pinned),
            r matches Some(p) ==> {
                &&& p.attacker_spec() == attacker
                &&& p.pinned_spec() == pinned
                &&& p.board_spec() == *self
                &&& is_pin_triple(*self, attacker, p.target_spec(), pinned)
                &&& forall|u: Square|
                    u.0 < p.target_spec().0 ==> !#[trigger] is_pin_triple(*self, attacker, u, pinned)
            },
    {
        proof {
            use_type_invariant(self);
            lemma_first_pin(*self, attacker, pinned);
            lemma_first_target_from(*self, attacker, pinned, 0);
        }
        let (pinned_piece, attacking_piece) = match (self.piece_at(pinned), self.piece_at(attacker)) {
            (Some(p), Some(a)) => (p, a),
            _ => return None,
        };
        let defender = pinned_piece.color;
        let enemy = defender.other();
        if attacking_piece.color != enemy {
            return None;
        }
        let own = self.by_color(defender);
        let higher = self.by_higher_valued_roles(pinned_piece.role);
        let targets = own & higher;
        proof {
            lemma_has_ops(own, higher);
        }
        let mut t: u8 = 0;
        while t < 64
            invariant
                self.consistent(),
                self.at(pinned) == Some(pinned_piece),
                self.at(attacker) == Some(attacking_piece),
                defender == pinned_piece.color,
                enemy == defender.other(),
                attacking_piece.color == enemy,
                t <= 64,
                forall|s: int| #[trigger]
                    bit_set(targets, s) == (self.color_at(s) == Some(defender) && self.role_at(
                        s,
                    ) is Some && pinned_piece.role.is_higher_value_spec(self.role_at(s).unwrap())),
                first_target_from(*self, attacker, pinned, 0) == first_target_from(
                    *self,
                    attacker,
                    pinned,
                    t as nat,
                ),
            decreases 64 - t,
        {
            let target = Square(t);
            if contains(targets, t) {
                let atk = attackers_to(self, target, enemy, 0);
                if contains(atk, attacker.0) && is_pinned(self, attacker, target, pinned) {
                    proof {
                        lemma_only_blocker(*self, attacker, target, pinned);
                        assert(is_pin_triple(*self, attacker, target, pinned));
                    }
                    let found = Pin { attacker, target, pinned, board: *self };
                    proof {
                        lemma_first_target_from(*self, attacker, pinned, 0);
                    }
                    assert(first_target_from(*self, attacker, pinned, t as nat) == Some(target));
                    assert(first_pin(*self, attacker, pinned) == Some(found));
                    assert(forall|u: Square|
                        u.0 < target.0 ==> !#[trigger] is_pin_triple(*self, attacker, u, pinned));
                    return Some(found);
                }
            }
            assert(!is_pin_triple(*self, attacker, target, pinned));
            t = t + 1;
        }
        None
    }

    /// The pins in which the piece on `square` is the attacker: for each square
    /// it attacks, by index, the pin of the piece there to the lowest-indexed
    /// target that makes one. Empty when `square` is empty.
    pub fn pins_where_square_is_attacker(&self, square: Square) -> (r: Vec<Pin>)
        ensures
            r@ == pins_where_attacker(*self, square),
    {
        proof {
            use_type_invariant(self);
        }
        if self.piece_at(square).is_none() {
            return Vec::new();
        }
        let attacked = attacks_from(self, square);
        let mut r: Vec<Pin> = Vec::new();
        let mut s: u8 = 0;
        while s < 64
            invariant
                self.consistent(),
                self.at(square) is Some,
                attacked == attacks_from_of(*self, square.0),
                s <= 64,
                r@ == attacker_upto(*self, square, s as nat),
            decreases 64 - s,
        {
            if contains(attacked, s) {
                match self.attacker_and_pin(square, Square(s)) {
                    Some(p) => r.push(p),
                    None => {},
                }
            }
            s = s + 1;
            assert(r@ =~= attacker_upto(*self, square, s as nat));
        }
        r
    }

    /// The pins in which the piece on `square` is the target: for each piece of
    /// its side of lower value and no king, by index, a pin for each enemy piece
    /// that attacks `square` once that piece is taken off and not before, by
    /// index. Empty when `square` is empty.
    pub fn pins_where_square_is_target(&self, square: Square) -> (r: Vec<Pin>)
        ensures
            r@ == pins_where_target(*self, square),
    {
        proof {
            use_type_invariant(self);
        }
        let piece = match self.piece_at(square) {
            None => {
                proof {
                    lemma_no_shields(*self, square, 64);
                }
                return Vec::new();
            },
            Some(p) => p,
        };
        let enemy = piece.color.other();
        let own = self.by_color(piece.color);
        let lower = self.by_lower_valued_roles(piece.role);
        let kings = self.by_role(Role::King);
        let shields = (own & lower) & !kings;
        proof {
            lemma_has_ops(own, lower);
            lemma_has_ops(own & lower, kings);
            self.lemma_view_len();
            assert forall|s: int| 0 <= s < 64 implies (#[trigger] bit_set(shields, s) == is_shield(
                *self,
                square,
                Square(s as u8),
            )) by {
                assert(self.at(Square(s as u8)) == self@[s]);
            }
        }
        let current = attackers_to(self, square, enemy, self.occupied());
        let mut r: Vec<Pin> = Vec::new();
        let mut c: u8 = 0;
        while c < 64
            invariant
                self.consistent(),
                self.at(square) == Some(piece),
                enemy == piece.color.other(),
                current == attackers_of(*self, square.0, enemy, self.occupied_bits()),
                forall|s: int|
                    0 <= s < 64 ==> (#[trigger] bit_set(shields, s) == is_shield(
                        *self,
                        square,
                        Square(s as u8),
                    )),
                c <= 64,
                r@ == target_upto(*self, square, c as nat),
            decreases 64 - c,
        {
            let shield = Square(c);
            if contains(shields, c) {
                let mut rest = *self;
                rest.remove_piece_at(shield);
                proof {
                    use_type_invariant(&rest);
                    self.lemma_view_len();
                }
                let all = attackers_to(&rest, square, enemy, rest.occupied());
                proof {
                    rest.lemma_within_color(all, enemy);
                    lemma_has_ops(all, current);
                    lemma_lower_is_converse_of_higher(piece.role, self.at(shield).unwrap().role);
                }
                let uncovered = all & !current;
                let mut a: u8 = 0;
                while a < 64
                    invariant
                        self.consistent(),
                        self.at(square) == Some(piece),
                        enemy == piece.color.other(),
                        c < 64,
                        shield == Square(c),
                        is_shield(*self, square, shield),
                        rest == self.without(c),
                        self@.len() == 64,
                        rest@ == self@.update(c as int, None),
                        forall|s: int| #[trigger] bit_set(all, s) ==> rest.color_at(s) == Some(enemy),
                        uncovered == revealed(*self, square, shield),
                        forall|s: int| #[trigger] bit_set(uncovered, s) ==> bit_set(all, s),
                        a <= 64,
                        r@ == target_upto(*self, square, c as nat) + revealed_upto(
                            *self,
                            square,
                            shield,
                            a as nat,
                        ),
                    decreases 64 - a,
                {
                    if contains(uncovered, a) {
                        assert(rest.color_at(a as int) == Some(enemy));
                        r.push(Pin { attacker: Square(a), target: square, pinned: shield, board: *self });
                    }
                    a = a + 1;
                    assert(r@ =~= target_upto(*self, square, c as nat) + revealed_upto(
                        *self,
                        square,
                        shield,
                        a as nat,
                    ));
                }
            }
            c = c + 1;
            assert(r@ =~= target_upto(*self, square, c as nat));
        }
        r
    }

    /// Every pin that involves `square`: those where it is the attacker, then
    /// those where it is pinned, then those where it is the target, kept as
    /// they come, without removing repeats.
    pub fn pins_involving_square(&self, square: Square) -> (r: Vec<Pin>)
        ensures
            r@ == pins_involving(*self, square),
    {
        let mut r = self.pins_where_square_is_attacker(square);
        let mut pinned = self.pins_where_square_is_pinned(square);
        let mut target = self.pins_where_square_is_target(square);
        r.append(&mut pinned);
        r.append(&mut target);
        r
    }
}

/// The pin facts that a search result carries for square `sq` in role `pinned`.
pub open spec fn valid_pin_of(b: Board, sq: Square, p: Pin) -> bool {
    &&& p.board_spec() == b
    &&& p.pinned_spec() == sq
    &&& is_pin_triple(b, p.attacker_spec(), p.target_spec(), sq)
}

proof fn lemma_on_target_members(b: Board, pinned: Square, target: Square, n: nat)
    ensures
        forall|i: int|
            0 <= i < pins_on_target(b, pinned, target, n).len() ==> {
                let p = #[trigger] pins_on_target(b, pinned, target, n)[i];
                valid_pin_of(b, pinned, p) && p.target_spec() == target
            },
        forall|a: Square|
            a.0 < n && #[trigger] is_pin_triple(b, a, target, pinned) ==> pins_on_target(
                b,
                pinned,
                target,
                n,
            ).contains(pin_of(b, a, target, pinned)),
    decreases n,
{
    if n > 0 {
        let m = (n - 1) as nat;
        lemma_on_target_members(b, pinned, target, m);
        let prev = pins_on_target(b, pinned, target, m);
        let cur = pins_on_target(b, pinned, target, n);
        let last = Square(m as u8);
        assert forall|a: Square|
            a.0 < n && #[trigger] is_pin_triple(b, a, target, pinned) implies cur.contains(
            pin_of(b, a, target, pinned),
        ) by {
            if a.0 < m {
                let j = choose|j: int| 0 <= j < prev.len() && prev[j] == pin_of(b, a, target, pinned);
                assert(cur[j] == prev[j]);
            } else {
                assert(a == last);
                assert(cur[prev.len() as int] == pin_of(b, a, target, pinned));
            }
        }
    }
}

proof fn lemma_pinned_upto_members(b: Board, pinned: Square, n: nat)
    ensures
        forall|i: int|
            0 <= i < pinned_upto(b, pinned, n).len() ==> valid_pin_of(
                b,
                pinned,
                #[trigger] pinned_upto(b, pinned, n)[i],
            ),
        forall|a: Square, t: Square|
            t.0 < n && #[trigger] is_pin_triple(b, a, t, pinned) ==> pinned_upto(
                b,
                pinned,
                n,
            ).contains(pin_of(b, a, t, pinned)),
    decreases n,
{
    if n > 0 {
        let m = (n - 1) as nat;
        let last = Square(m as u8);
        lemma_pinned_upto_members(b, pinned, m);
        lemma_on_target_members(b, pinned, last, 64);
        let prev = pinned_upto(b, pinned, m);
        let tail = pins_on_target(b, pinned, last, 64);
        let cur = pinned_upto(b, pinned, n);
        assert(cur == prev + tail);
        assert forall|i: int| 0 <= i < cur.len() implies valid_pin_of(b, pinned, #[trigger] cur[i]) by {
            if i >= prev.len() {
                assert(cur[i] == tail[i - prev.len()]);
            }
        }
        assert forall|a: Square, t: Square|
            t.0 < n && #[trigger] is_pin_triple(b, a, t, pinned) implies cur.contains(
            pin_of(b, a, t, pinned),
        ) by {
            if t.0 < m {
                let j = choose|j: int| 0 <= j < prev.len() && prev[j] == pin_of(b, a, t, pinned);
                assert(cur[j] == prev[j]);
            } else {
                assert(t == last);
                assert(a.0 < 64);
                let j = choose|j: int| 0 <= j < tail.len() && tail[j] == pin_of(b, a, t, pinned);
                assert(cur[prev.len() + j] == tail[j]);
            }
        }
    }
}

/// The pins of the piece on `sq` are exactly its pin triples: every listed pin
/// is one, with `sq` as pinned square and `b` as board, and every triple with
/// `sq` as pinned square is listed.
pub proof fn lemma_pins_where_pinned_members(b: Board, sq: Square)
    ensures
        forall|i: int|
            0 <= i < pins_where_pinned(b, sq).len() ==> valid_pin_of(
                b,
                sq,
                #[trigger] pins_where_pinned(b, sq)[i],
            ),
        forall|a: Square, t: Square| #[trigger]
            is_pin_triple(b, a, t, sq) ==> pins_where_pinned(b, sq).contains(pin_of(b, a, t, sq)),
{
    lemma_pinned_upto_members(b, sq, 64);
}

/// The place of a pin in the by-pinned order: by target index, then attacker index.
pub open spec fn pin_rank(p: Pin) -> int {
    p.target_spec().0 * 64 + p.attacker_spec().0
}

proof fn lemma_on_target_order(b: Board, pinned: Square, target: Square, n: nat)
    requires
        n <= 64,
    ensures
        forall|i: int|
            0 <= i < pins_on_target(b, pinned, target, n).len() ==> (#[trigger] pins_on_target(
                b,
                pinned,
                target,
                n,
            )[i]).attacker_spec().0 < n,
        forall|i: int, j: int|
            0 <= i < j < pins_on_target(b, pinned, target, n).len() ==> (#[trigger] pins_on_target(
                b,
                pinned,
                target,
                n,
            )[i]).attacker_spec().0 < (#[trigger] pins_on_target(b, pinned, target, n)[j]).attacker_spec().0,
    decreases n,
{
    if n > 0 {
        let m = (n - 1) as nat;
        lemma_on_target_order(b, pinned, target, m);
        let prev = pins_on_target(b, pinned, target, m);
        let cur = pins_on_target(b, pinned, target, n);
        lemma_pin_of_parts(b, Square(m as u8), target, pinned);
        assert forall|i: int| 0 <= i < cur.len() implies (#[trigger] cur[i]).attacker_spec().0 < n by {
            if i < prev.len() {
                assert(cur[i] == prev[i]);
            }
        }
        assert forall|i: int, j: int| 0 <= i < j < cur.len() implies (#[trigger] cur[i]).attacker_spec().0
            < (#[trigger] cur[j]).attacker_spec().0 by {
            assert(cur[i] == prev[i]);
            if j < prev.len() {
                assert(cur[j] == prev[j]);
            }
        }
    }
}

proof fn lemma_pinned_upto_order(b: Board, pinned: Square, n: nat)
    requires
        n <= 64,
    ensures
        forall|i: int|
            0 <= i < pinned_upto(b, pinned, n).len() ==> (#[trigger] pinned_upto(
                b,
                pinned,
                n,
            )[i]).target_spec().0 < n && pinned_upto(b, pinned, n)[i].attacker_spec().0 < 64,
        forall|i: int, j: int|
            0 <= i < j < pinned_upto(b, pinned, n).len() ==> pin_rank(
                #[trigger] pinned_upto(b, pinned, n)[i],
            ) < pin_rank(#[trigger] pinned_upto(b, pinned, n)[j]),
    decreases n,
{
    if n > 0 {
        let m = (n - 1) as nat;
        let last = Square(m as u8);
        lemma_pinned_upto_order(b, pinned, m);
        lemma_on_target_order(b, pinned, last, 64);
        lemma_on_target_members(b, pinned, last, 64);
        let prev = pinned_upto(b, pinned, m);
        let tail = pins_on_target(b, pinned, last, 64);
        let cur = pinned_upto(b, pinned, n);
        assert(cur == prev + tail);
        assert forall|i: int| 0 <= i < cur.len() implies (#[trigger] cur[i]).target_spec().0 < n
            && cur[i].attacker_spec().0 < 64 by {
            if i >= prev.len() {
                assert(cur[i] == tail[i - prev.len()]);
            } else {
                assert(cur[i] == prev[i]);
            }
        }
        assert forall|i: int, j: int| 0 <= i < j < cur.len() implies pin_rank(#[trigger] cur[i])
            < pin_rank(#[trigger] cur[j]) by {
            if j < prev.len() {
                assert(cur[i] == prev[i]);
                assert(cur[j] == prev[j]);
            } else if i < prev.len() {
                assert(cur[i] == prev[i]);
                assert(cur[j] == tail[j - prev.len()]);
            } else {
                assert(cur[i] == tail[i - prev.len()]);
                assert(cur[j] == tail[j - prev.len()]);
            }
        }
    }
}

/// The pins of a square come in strictly increasing order of target index,
/// then attacker index; with their membership, this fixes the list.
pub proof fn lemma_pins_where_pinned_order(b: Board, sq: Square)
    ensures
        forall|i: int, j: int|
            0 <= i < j < pins_where_pinned(b, sq).len() ==> pin_rank(
                #[trigger] pins_where_pinned(b, sq)[i],
            ) < pin_rank(#[trigger] pins_where_pinned(b, sq)[j]),
{
    lemma_pinned_upto_order(b, sq, 64);
}

proof fn lemma_attacker_upto_members(b: Board, sq: Square, n: nat)
    ensures
        forall|i: int|
            0 <= i < attacker_upto(b, sq, n).len() ==> {
                let p = #[trigger] attacker_upto(b, sq, n)[i];
                &&& p.board_spec() == b
                &&& p.attacker_spec() == sq
                &&& is_pin_triple(b, sq, p.target_spec(), p.pinned_spec())
            },
    decreases n,
{
    if n > 0 {
        let m = (n - 1) as nat;
        let s = Square(m as u8);
        lemma_attacker_upto_members(b, sq, m);
        lemma_first_pin(b, sq, s);
        let prev = attacker_upto(b, sq, m);
        let cur = attacker_upto(b, sq, n);
        assert forall|i: int| 0 <= i < cur.len() implies {
            let p = #[trigger] cur[i];
            &&& p.board_spec() == b
            &&& p.attacker_spec() == sq
            &&& is_pin_triple(b, sq, p.target_spec(), p.pinned_spec())
        } by {
            if i < prev.len() {
                assert(cur[i] == prev[i]);
            } else {
                assert(cur[i] == first_pin(b, sq, s).unwrap());
            }
        }
    }
}

/// Every pin that the by-pinned and by-attacker searches list passes the
/// only-blocker check: the pinned piece is the one piece of the target's side
/// strictly between attacker and target.
pub proof fn lemma_listed_pins_have_one_blocker(b: Board, sq: Square)
    ensures
        forall|i: int|
            0 <= i < pins_where_pinned(b, sq).len() ==> {
                let p = #[trigger] pins_where_pinned(b, sq)[i];
                defenders_between(b, p.attacker_spec(), p.target_spec()) == set![p.pinned_spec().0 as int]
            },
        forall|i: int|
            0 <= i < pins_where_attacker(b, sq).len() ==> {
                let p = #[trigger] pins_where_attacker(b, sq)[i];
                defenders_between(b, p.attacker_spec(), p.target_spec()) == set![p.pinned_spec().0 as int]
            },
{
    lemma_pins_where_pinned_members(b, sq);
    lemma_attacker_upto_members(b, sq, 64);
}

/// Nothing pins an empty square, nor a king that is the only king of its side.
pub proof fn lemma_empty_squares_and_kings_are_not_pinned(b: Board, sq: Square)
    requires
        b.at(sq) is None || (b.at(sq).unwrap().role == Role::King && forall|s: Square|
            #[trigger] b.at(s) == b.at(sq) ==> s == sq),
    ensures
        pins_where_pinned(b, sq) == Seq::<Pin>::empty(),
{
    assert forall|a: Square, t: Square| !#[trigger] is_pin_triple(b, a, t, sq) by {
        if is_pin_triple(b, a, t, sq) {
            assert(b.at(t) == b.at(sq));
        }
    }
    lemma_no_pins_of(b, sq, 64);
}

/// Every pin that involves `sq`, in the order the searches return them.
pub open spec fn pins_involving(b: Board, sq: Square) -> Seq<Pin> {
    pins_where_attacker(b, sq) + pins_where_pinned(b, sq) + pins_where_target(b, sq)
}

/// A search returns what the board and the square fix: asked twice of one
/// snapshot, each search gives the same pins in the same order.
pub proof fn lemma_searches_repeat(b: Board, sq: Square, first: Seq<Pin>, second: Seq<Pin>)
    requires
        (first == pins_where_pinned(b, sq) && second == pins_where_pinned(b, sq)) || (first
            == pins_where_attacker(b, sq) && second == pins_where_attacker(b, sq)) || (first
            == pins_where_target(b, sq) && second == pins_where_target(b, sq)) || (first
            == pins_involving(b, sq) && second == pins_involving(b, sq)),
    ensures
        first == second,
{
}

impl Pin {
    /// Whether the target is a king.
    pub fn is_absolute(&self) -> (r: bool)
        ensures
            r == self.is_absolute_spec(),
    {
        proof {
            use_type_invariant(self);
        }
        self.board.piece_at(self.target).unwrap().role == Role::King
    }

    /// Whether the target is a piece other than a king.
    pub fn is_relative(&self) -> (r: bool)
        ensures
            r == !self.is_absolute_spec(),
    {
        !self.is_absolute()
    }

    /// The pinned piece.
    pub fn pinned_piece(&self) -> (r: Piece)
        ensures
            self.board_spec().at(self.pinned_spec()) == Some(r),
    {
        proof {
            use_type_invariant(self);
        }
        self.board.piece_at(self.pinned).unwrap()
    }

    /// The square of the pinned piece.
    pub fn pinned_square(&self) -> (r: Square)
        ensures
            r == self.pinned_spec(),
    {
        self.pinned
    }

    /// The piece the pinned piece shields.
    pub fn target_piece(&self) -> (r: Piece)
        ensures
            self.board_spec().at(self.target_spec()) == Some(r),
    {
        proof {
            use_type_invariant(self);
        }
        self.board.piece_at(self.target).unwrap()
    }

    /// The square of the shielded piece.
    pub fn target_square(&self) -> (r: Square)
        ensures
            r == self.target_spec(),
    {
        self.target
    }

    /// The piece that makes the pin.
    pub fn attacking_piece(&self) -> (r: Piece)
        ensures
            self.board_spec().at(self.attacker_spec()) == Some(r),
    {
        proof {
            use_type_invariant(self);
        }
        self.board.piece_at(self.attacker).unwrap()
    }

    /// The square of the piece that makes the pin.
    pub fn attacking_square(&self) -> (r: Square)
        ensures
            r == self.attacker_spec(),
    {
        self.attacker
    }
}

} // verus!
