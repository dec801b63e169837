//! Protocol-version negotiation for an anonymity-network node.
//!
//! A relay advertises, as a short text, the named sub-protocols and the
//! version ranges of each that it implements. This crate reads such texts
//! into validated sets, writes the sets back in one canonical form, answers
//! membership questions about them, counts votes over many of them, and
//! knows what releases that never advertised anything are taken to support.
//!
//! # The text
//!
//! ```text
//! list  = entry *( "," entry )
//! entry = name "=" range *( "," range )
//! range = number / number "-" number
//! ```
//!
//! A name is one to a hundred characters other than `=` and `,`; a number
//! is one or more decimal digits and at most [`text::MAX_VERSION`]. A list
//! is refused if it does not follow the grammar, if a number is too large,
//! if the bounds of a range are out of order, if two ranges of one protocol
//! share a version, or if a protocol is opened twice. Where a piece of the
//! list has several faults they are looked for in that order, and the
//! first piece with a fault decides.
//!
//! In the canonical text the protocols stand in the order of their names,
//! compared character by character, and the versions of each as ascending
//! ranges of which no two overlap or touch.
//!
//! # The models
//!
//! Every function has a contract over a mathematical model: a set of
//! versions is a `Set<int>`, an entry is a `Map` from names to such sets
//! ([`listing::EntryModel`]), a text is a `Seq<char>`. The module
//! [`roundtrip`] proves what holds between reading and writing, [`vote`]
//! what holds of the vote.
//!
//! # The modules
//!
//! - [`errors`]: why a text is refused.
//! - [`text`]: numbers, splitting and joining.
//! - [`protoset`]: sets of versions.
//! - [`protocol`]: names of protocols and their order.
//! - [`listing`]: the one listing that an entry has, and its text.
//! - [`entry`]: entries that may name any protocol.
//! - [`parse`]: reading an entry.
//! - [`vote`]: counting votes.
//! - [`supported`]: what is supported here, and entries of known protocols.
//! - [`legacy`]: releases that advertise nothing.
//! - [`boundary`]: entry points on texts and numbers.
//! - [`roundtrip`]: reading what was written.
//! - [`meaning`]: what the entry read from a text gives.

pub mod errors;
pub mod text;
pub mod protoset;
pub mod protocol;
pub mod listing;
pub mod entry;
pub mod parse;
pub mod vote;
pub mod supported;
pub mod legacy;
pub mod boundary;
pub mod roundtrip;
pub mod meaning;
