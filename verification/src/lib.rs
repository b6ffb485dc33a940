//! A vacation-day planning library.
//!
//! Given a set of immovable anchor dates (public holidays and user-fixed days
//! off) and a budget of additional free days, the library computes where to
//! place the remaining days so that they are spread as evenly as possible over
//! the rest of the year, starting from a given date.  Two allocation
//! strategies are provided: a greedy day-granularity allocator and a
//! proportional week-granularity allocator built on an error-diffusion
//! rounding accumulator.

pub mod algo;
pub mod api;
pub mod date;
pub mod error;
pub mod planner;
pub mod rounding;
pub mod weeks;

pub use algo::calculate_vacation_days;
pub use date::Date;
pub use error::Error;
pub use planner::CanadianHolidays;
pub use planner::Planner;
pub use planner::Province;
pub use weeks::IsoWeek;
pub use weeks::calculate_vacation_weeks;
