//! A verified scheduler for recurring annual events: one event per subject
//! per group, fired once per occurrence and then rescheduled a year ahead.

pub mod event;
pub mod schedule;
pub mod calendar;
pub mod occurrence;
pub mod store;
pub mod laws;
pub mod saving;
