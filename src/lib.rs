//! Birthday records: parsing a line into a named calendar date, and the age
//! arithmetic (days lived, full years, days until the next anniversary) over
//! the proleptic Gregorian calendar.

pub mod calendar;
pub mod record;
pub mod age;
pub mod laws;
