pub mod arpa;
pub mod decimal;
pub mod index;
pub mod laws;
pub mod model;
pub mod state;
pub mod text;

pub use crate::model::{LMError, LanguageModel, NGram};
pub use crate::state::State;
