//! Pin detection for chess positions: which pieces are pinned, by what, and to what.

mod bits;
mod board;
mod classify;
mod pinning;
mod points;
mod render;
mod types;

pub use bits::bit_set;
pub use board::Board;
pub use classify::{
    absolutely_pinned, class_of, is_absolutely_pinned, is_pin, is_relative_pin, lemma_class_of_pin,
    relatively_pinned, Pins,
};
pub use pinning::{
    defenders_between, defenders_on, is_pin_triple, is_shield, lemma_empty_squares_and_kings_are_not_pinned,
    lemma_first_pin, lemma_listed_pins_have_one_blocker, lemma_pin_of_parts,
    lemma_pins_where_pinned_members, lemma_pins_where_pinned_order, pin_of, pin_rank,
    lemma_searches_repeat, only_blocker, pin_shape, pins_involving, pins_where_attacker,
    pins_where_pinned, pins_where_target, revealed, Pin,
};
pub use points::{all_roles, lemma_lower_is_converse_of_higher};
pub use render::pin_sentence;
pub use types::{Color, Piece, Role, Square};
