//! Expands words into password candidates: look-alike character
//! substitutions and a few capitalization variants, deduplicated.

pub mod table;
pub mod plan;
pub mod apply;
pub mod case;
pub mod munger;
pub mod theorems;

pub use case::{Capitalization, MungeError};
pub use munger::{LeetSpeak, Munger};
pub use table::CharClass;
