//! The statements that the stores send.
pub mod aggregate;
pub mod bind;
pub mod expr;
pub mod keyset;
pub mod meaning;
pub mod placeholders;
pub mod schema;
pub mod selection;
pub mod shape;
pub mod statement;
pub mod translate;
