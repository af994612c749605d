//! Word indexing and a small HTTP toolkit, with their contracts proved by Verus.
pub mod unicode;
pub mod assoc;
pub mod finder;
pub mod own_axum;
pub mod str_map;
pub mod text_ops;
pub mod word_index;
pub mod text_tools;
