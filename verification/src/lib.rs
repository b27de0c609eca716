//! The account loop: what a portfolio should hold on each bar in, what it
//! actually held, what it paid, and what it was worth out.
//!
//! One walk ([`driver`]), one account ([`account`]), and a pluggable policy
//! for the part a market gets to decide — how a decision is funded, sized
//! and filled ([`bookkeeping::Bookkeeping`]). [`bookkeeping::Plain`] is the
//! framework's own, market-neutral policy. A vendor's policy lives in its
//! own crate and links this one.
//!
//! The walk sees plain arrays ([`inputs::Inputs`]); [`plugin`] is the
//! frame-in, frame-out marshalling that a frame library's expression needs.
//!
//! All arithmetic is strict IEEE 754 double precision, without fused
//! multiply-add, carried out on the bits ([`binary64`]), so that what a walk
//! adds up is stated and proved to the last bit. What the phases mean is in
//! [`ledger`] and [`plain`]; what holds of every walk is in [`laws`],
//! [`orders`], [`dense`], [`record`], [`silence`], [`agreement`] and
//! [`defaults`].
//!
//! What each phase comes to, told name by name and by what the numbers are,
//! is in [`reading`] and [`refusing`] for the frame, [`marking`], [`firing`],
//! [`pooling`], [`sizing`], [`trading`] and [`worth`] for the account,
//! [`course`] for the order of it all, and [`nearest`] for the arithmetic.

pub mod account;
pub mod agreement;
pub mod arithmetic;
pub mod assembly;
pub mod binary64;
pub mod bookkeeping;
pub mod course;
pub mod decisions;
pub mod defaults;
pub mod dense;
pub mod driver;
pub mod firing;
pub mod frame;
pub mod grid;
pub mod inputs;
pub mod laws;
pub mod ledger;
pub mod marking;
pub mod names;
pub mod nearest;
pub mod orders;
pub mod plain;
pub mod plugin;
pub mod pooling;
pub mod reading;
pub mod record;
pub mod refusing;
pub mod rounding;
pub mod rulebook;
pub mod silence;
pub mod sizing;
pub mod trading;
pub mod twin;
pub mod worth;
