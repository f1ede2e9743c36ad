//! Tables as bit-packed rows.
pub mod columns;
pub mod table;
pub mod width_laws;
pub mod restore;
pub mod inference;
