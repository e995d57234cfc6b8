//! Exchange strings: the `DSC` envelope around a zlib-compressed payload,
//! and the associative part of the payload's tables, a Lua-style hash of
//! cells with chained collisions that is kept and checked cell by cell.

pub mod error;
pub mod assoc;
pub mod table;
pub mod digits;
pub mod envelope;
pub mod exchange;
