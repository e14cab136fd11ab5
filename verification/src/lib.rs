//! Optimisation of SVG documents on exact decimal arithmetic: the path-data
//! optimiser, the rules of the document-level jobs, and the tag and
//! declaration states of the document reader.
//!
//! # Path data
//!
//! Path data is read by [`parser`] into a [`path::Path`] of
//! [`command::Command`]s and written by [`serialize`]; [`roundtrip`] proves
//! that what is written reads back. Every number is a fixed-point
//! [`number::Number`].
//!
//! [`convert::run`] optimises a path in passes over a
//! [`path::PositionedPath`], whose commands carry the points where they
//! start and end:
//!
//! - [`convert::relative`] re-bases every command to relative notation;
//! - [`convert::filter`] rewrites each command to a shorter one, with the
//!   arc fitter of [`arc`];
//! - [`convert::mixed`] takes the shorter notation of each command;
//! - [`convert::cleanup`] merges moves;
//! - [`convert::Options::round`] rounds every number.
//!
//! Each pass returns exactly what its specification function gives and
//! keeps the positions chained. Proof functions state what follows for
//! all inputs: the bound on what rounding moves, the safety of markers and
//! of closing, the passes that leave their own result unchanged.
//! [`convert::drawing`] proves that the optimiser draws what the path
//! draws while the switches that change a drawing are off.
//!
//! # Documents
//!
//! [`jobs`] holds the rules of the jobs on a document, each a function of
//! the names and attributes that it reads; [`state`] the states that read
//! tags and declarations character by character.

pub mod command;
pub mod number;
pub mod geometry;
pub mod path;
pub mod convert;
pub mod serialize;
pub mod scan;
pub mod parser;
pub mod text;
pub mod state;
pub mod pattern;
pub mod words;
pub mod jobs;
pub mod length;
pub mod arc;
pub mod bounds;
pub mod roundtrip;
