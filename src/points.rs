use crate::types::Role;
use vstd::prelude::*;

verus! {

/// Every role, from the least valuable to the king.
pub open spec fn all_roles_spec() -> Seq<Role> {
    seq![Role::Pawn, Role::Knight, Role::Bishop, Role::Rook, Role::Queen, Role::King]
}

/// Every role, from the least valuable to the king.
pub fn all_roles() -> (r: Vec<Role>)
    ensures
        r@ == all_roles_spec(),
{
    let r = vec![Role::Pawn, Role::Knight, Role::Bishop, Role::Rook, Role::Queen, Role::King];
    assert(r@ =~= all_roles_spec());
    r
}

impl Role {
    /// Material value of a role; the king has none.
    pub open spec fn points_spec(&self) -> Option<u8> {
        match self {
            Role::Pawn => Some(1),
            Role::Knight => Some(3),
            Role::Bishop => Some(3),
            Role::Rook => Some(5),
            Role::Queen => Some(9),
            Role::King => None,
        }
    }

    /// `r` outranks `self`. A king outranks every role, itself included; a king
    /// itself is outranked by nothing else.
    pub open spec fn is_higher_value_spec(&self, r: Role) -> bool {
        r == Role::King || (*self != Role::King && r.points_spec().unwrap() > self.points_spec().unwrap())
    }

    /// `r` ranks below `self`. From a king's point of view every role ranks
    /// below it; nothing ranks below another role that a king would.
    pub open spec fn is_lower_value_spec(&self, r: Role) -> bool {
        *self == Role::King || (r != Role::King && r.points_spec().unwrap() < self.points_spec().unwrap())
    }

    #[verifier::when_used_as_spec(points_spec)]
    pub fn points(&self) -> (r: Option<u8>)
        ensures
            r == self.points_spec(),
    {
        match self {
            Role::Pawn => Some(1),
            Role::Knight => Some(3),
            Role::Bishop => Some(3),
            Role::Rook => Some(5),
            Role::Queen => Some(9),
            Role::King => None,
        }
    }

    #[verifier::when_used_as_spec(is_higher_value_spec)]
    pub fn is_higher_value(&self, r: Role) -> (b: bool)
        ensures
            b == self.is_higher_value_spec(r),
    {
        if r == Role::King {
            return true;
        }
        match (r.points(), self.points()) {
            (Some(theirs), Some(ours)) => theirs > ours,
            _ => false,
        }
    }

    #[verifier::when_used_as_spec(is_lower_value_spec)]
    pub fn is_lower_value(&self, r: Role) -> (b: bool)
        ensures
            b == self.is_lower_value_spec(r),
    {
        if *self == Role::King {
            return true;
        }
        match (r.points(), self.points()) {
            (Some(theirs), Some(ours)) => theirs < ours,
            _ => false,
        }
    }

    /// The roles that outrank `self`, in the order of `all_roles`.
    pub fn higher_value_roles(&self) -> (r: Vec<Role>)
        ensures
            r@ == all_roles_spec().filter(|x: Role| self.is_higher_value_spec(x)),
    {
        let roles = all_roles();
        let mut r: Vec<Role> = Vec::new();
        let mut i: usize = 0;
        while i < roles.len()
            invariant
                roles@ == all_roles_spec(),
                i <= roles@.len(),
                r@ == roles@.take(i as int).filter(|x: Role| self.is_higher_value_spec(x)),
            decreases roles@.len() - i,
        {
            proof {
                reveal(Seq::filter);
                assert(roles@.take(i + 1).drop_last() =~= roles@.take(i as int));
            }
            if self.is_higher_value(roles[i]) {
                r.push(roles[i]);
            }
            i = i + 1;
        }
        assert(roles@.take(i as int) =~= roles@);
        r
    }

    /// The roles that rank below `self`, in the order of `all_roles`.
    pub fn lower_value_roles(&self) -> (r: Vec<Role>)
        ensures
            r@ == all_roles_spec().filter(|x: Role| self.is_lower_value_spec(x)),
    {
        let roles = all_roles();
        let mut r: Vec<Role> = Vec::new();
        let mut i: usize = 0;
        while i < roles.len()
            invariant
                roles@ == all_roles_spec(),
                i <= roles@.len(),
                r@ == roles@.take(i as int).filter(|x: Role| self.is_lower_value_spec(x)),
            decreases roles@.len() - i,
        {
            proof {
                reveal(Seq::filter);
                assert(roles@.take(i + 1).drop_last() =~= roles@.take(i as int));
            }
            if self.is_lower_value(roles[i]) {
                r.push(roles[i]);
            }
            i = i + 1;
        }
        assert(roles@.take(i as int) =~= roles@);
        r
    }
}

/// Ranking below, seen from the other side, is being outranked.
pub proof fn lemma_lower_is_converse_of_higher(a: Role, b: Role)
    ensures
        a.is_lower_value_spec(b) == b.is_higher_value_spec(a),
{
}

} // verus!
