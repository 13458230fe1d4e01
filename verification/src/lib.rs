//! Verified core of a desktop front end for rclone: command-line parsing,
//! mount profiles, bandwidth schedules, remote configuration plans and
//! cache bookkeeping.

pub mod text;
pub mod parse;
pub mod schedule;
pub mod mounts;
pub mod history;
pub mod json;
pub mod wizard;
pub mod configedit;
pub mod order;
pub mod cache;
pub mod discover;
pub mod memo;
pub mod purge;
pub mod transfers;
pub mod rclone;
pub mod setup;
pub mod rc;
