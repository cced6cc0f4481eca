//! Tracks coin prices scraped from a listing page and reports the coins whose
//! price moved by at least three percent since the previous snapshot.

pub mod coin;
pub mod diff;
pub mod extract;
pub mod price;
pub mod text;
