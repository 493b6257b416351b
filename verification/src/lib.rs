//! cshell moves a directory elsewhere and leaves a link in its place.

pub mod calendar;
pub mod census;
pub mod clearing;
pub mod cli;
pub mod copy;
pub mod error;
pub mod home;
pub mod job;
pub mod ledger;
pub mod link;
pub mod lookup;
pub mod migrate;
pub mod names;
pub mod order;
pub mod path;
pub mod peers;
pub mod plan;
pub mod platform;
pub mod remove;
pub mod replica;
pub mod report;
pub mod restore;
pub mod safety;
pub mod share;
pub mod survey;
pub mod text;
pub mod transfer;
pub mod volume;
pub mod world;
