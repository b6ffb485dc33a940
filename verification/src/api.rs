//! The shape of the holiday service's response: a list of holidays, each
//! with a date string and the provinces it applies to.  The network fetch
//! and the JSON decoding live outside the library; these types carry the
//! decoded plain values into it.

use vstd::prelude::*;

verus! {

/// A province reference in the holiday service's response.
pub struct Province {
    pub id: String,
}

/// One holiday in the holiday service's response.
pub struct Holiday {
    pub date: String,
    pub provinces: Vec<Province>,
}

/// The holiday service's response.
pub struct HolidaysResponse {
    pub holidays: Vec<Holiday>,
}

} // verus!
