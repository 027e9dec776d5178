//! Flight logbook statistics: per-airport departure and arrival counts, a
//! join of those counts with airport locations, and the rules that decide
//! which raw data paths may be served.

pub mod airports;
pub mod combine;
pub mod locations;
pub mod paths;
pub mod record;
pub mod tally;

pub use airports::{airport_fields, AirportFields, LocationError};
pub use combine::{combine, combined_data, process_location, CombinedEntry, Role};
pub use locations::LocationIndex;
pub use paths::is_contained;
pub use record::{Field, FlightRecord};
pub use tally::{count_by, count_iata_from, count_iata_to, CountTable};
