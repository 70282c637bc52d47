//! A verified decoder for a chained, self-describing binary record format,
//! together with the output-placement rules of a converter of FIT activity
//! files to JSON.

pub mod encode;
pub mod error;
pub mod location;
pub mod segment;
pub mod stream;
pub mod value;
