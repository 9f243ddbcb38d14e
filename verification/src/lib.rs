//! Compares two lines of history by what their commits change.
//!
//! Two commits that carry the same patch fingerprint are one change, whatever
//! their hashes: a commit picked onto another branch is found again there.
//! [`compare`] classifies the commits that two branches have ahead of their
//! merge base as the first branch's own, the second branch's own, or shared;
//! [`theorems`] states what holds of every such classification. [`meta`]
//! turns the text of a commit into a report row, [`report`] lays the rows of a
//! comparison out, and [`sheet`] cuts separated text into the cells of a
//! sheet.
//!
//! The library computes on what its caller has read: it opens no repository
//! and writes no file.

pub mod object_id;
pub mod history;
pub mod compare;
pub mod theorems;
pub mod text;
pub mod pattern;
pub mod meta;
pub mod sheet;
pub mod report;
