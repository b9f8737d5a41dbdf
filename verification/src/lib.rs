//! Timeline indexing for musical scores: exact rational instants, sorted
//! event timelines with binary-search lookup and merge, and a prefix-integral
//! structure answering cumulative queries in logarithmic time.

pub mod preintegral;
pub mod rational;
pub mod time;
pub mod timeline;
pub mod util;
pub mod value;
