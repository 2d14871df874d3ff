//! A small language of lists read from text and evaluated against a model of
//! bindings. A list is evaluated by its last form: `+` and `*` are the native
//! sum and product, `?` compares two numbers or chooses between two forms, `.`
//! defines a name, `fn` makes a function, and `!` evaluates its subject.

use vstd::prelude::*;

pub mod text;
pub mod oexp;
pub mod error;
pub mod numeral;
pub mod reader;
pub mod model;
pub mod semantics;
pub mod eval;
pub mod laws;
pub mod display;

pub use oexp::{Oexp, Lambda, Num, Builtin};
pub use error::RomeError;
pub use reader::{tokenise, parse};
pub use model::{Model, new_core_model};
pub use semantics::NumOrder;
pub use eval::{eval, eval_bounded};

verus! {
}
