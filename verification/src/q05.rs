//! Fishbone swords: assembling a sword's fishbone from its numbers and
//! ranking swords by quality.

pub mod agree;
pub mod assemble;
pub mod bone;
pub mod digits;
pub mod order;
pub mod parse;
pub mod rank;
pub mod sword;
