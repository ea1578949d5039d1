//! Filtering and aggregation over a personal location history: timestamped
//! positions with the motion states inferred near each of them.
//!
//! Positions are held in the fixed-point form of the history itself, degrees
//! times ten million, and distances are whole millimetres. Great-circle
//! distance is floating-point arithmetic and stays with the caller: the
//! filters that need it take the metric as an argument.

pub mod activity;
pub mod decode;
pub mod error;
pub mod ingest;
pub mod labels;
pub mod location;
pub mod locations;
pub mod pattern;
pub mod sorting;
pub mod tally;
pub mod timestamp;

pub use crate::activity::Activities;
pub use crate::activity::Activity;
pub use crate::activity::ActivityType;
pub use crate::error::DecodeError;
pub use crate::error::EmptyInputError;
pub use crate::error::FieldParseError;
pub use crate::error::IngestError;
pub use crate::location::Coordinates;
pub use crate::location::Location;
pub use crate::locations::Locations;
pub use crate::locations::LocationsExt;
pub use crate::timestamp::Timestamp;
