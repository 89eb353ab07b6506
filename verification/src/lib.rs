//! Model, validation, formatting and enumeration of 12-digit "Myna"
//! identifiers (11 payload digits plus one weighted-mod-11 check digit),
//! together with a keyed pseudonymizer that derives a UUID-shaped token
//! from each identifier with HMAC-SHA-256.

pub mod db;
pub mod model;
pub mod myna;

pub use db::MynaDb;
pub use myna::Myna;
pub use myna::MynaIter;
pub use myna::MynaError;

pub use model::check_digit_of;
pub use model::digits_ok;
pub use model::pow10;
pub use model::value_of;
