//! Service-interval tracking for components whose wear accrues with usage time.
//!
//! Activity logs are decoded into records, the component registry is decoded
//! into components, and the two are combined into the usage time accrued by
//! each component since it was last serviced.

pub mod db;
pub mod duration_text;
pub mod errors;
pub mod garmin;
pub mod instant;
