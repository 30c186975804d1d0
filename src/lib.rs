//! Text primitives of a dynamic-language runtime (character-indexed slicing,
//! `repr`-style quoting, ASCII escaping, zero padding) and its lazy `map`
//! combinator.

pub mod escape;
pub mod map;
pub mod repr;
pub mod text;
