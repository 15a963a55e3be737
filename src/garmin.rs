//! Activity exports: tables with one row per recorded activity.

pub mod activities;
pub mod activity_csv;
