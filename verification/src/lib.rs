//! Singly-linked lists under three ownership disciplines, each verified
//! against a `Seq` model of its contents.

pub mod model;
pub mod first;
pub mod second;
pub mod third;
pub mod fifth;
