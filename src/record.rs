use vstd::prelude::*;

verus! {

/// One row of the flight logbook. Columns beyond these four are ignored.
pub struct FlightRecord {
    pub date: String,
    pub flight: String,
    pub from: String,
    pub to: String,
}

/// Which airport of a record a count is taken over.
#[derive(Clone, Copy, Debug, PartialEq, Eq, Structural)]
pub enum Field {
    /// The departure airport.
    Origin,
    /// The arrival airport.
    Destination,
}

impl FlightRecord {
    pub fn new(date: String, flight: String, from: String, to: String) -> (r: FlightRecord)
        ensures
            r.date@ == date@,
            r.flight@ == flight@,
            r.from@ == from@,
            r.to@ == to@,
    {
        FlightRecord { date, flight, from, to }
    }

    /// The airport code that `field` selects from this record.
    pub open spec fn code(&self, field: Field) -> Seq<char> {
        match field {
            Field::Origin => self.from@,
            Field::Destination => self.to@,
        }
    }

    pub fn select(&self, field: Field) -> (r: &String)
        ensures
            r@ == self.code(field),
    {
        match field {
            Field::Origin => &self.from,
            Field::Destination => &self.to,
        }
    }
}

/// The airport codes that `field` selects, one per record, in record order.
pub open spec fn codes_of(records: Seq<FlightRecord>, field: Field) -> Seq<Seq<char>> {
    records.map_values(|r: FlightRecord| r.code(field))
}

} // verus!
