//! What holds of the steps of type inference whatever they are given.

pub mod growth;
pub mod order;
pub mod schemes;
pub mod scope;
pub mod sound;
