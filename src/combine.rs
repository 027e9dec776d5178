use vstd::prelude::*;
use crate::locations::{position_of, LocationIndex};
use crate::record::{codes_of, Field, FlightRecord};
use crate::tally::{count_iata_from, count_iata_to, count_in, tally, CountTable};

verus! {

/// The side of a flight on which an airport stands.
#[derive(Clone, Copy, Debug, PartialEq, Eq, Structural)]
pub enum Role {
    From,
    To,
}

/// An airport in one role, with the index of its coordinates in the location
/// table and its count in that role.
pub struct CombinedEntry {
    pub role: Role,
    pub iata: String,
    pub location: usize,
    pub count: usize,
}

/// The mathematical value of a `CombinedEntry`.
pub struct Placed {
    pub role: Role,
    pub code: Seq<char>,
    pub location: int,
    pub count: nat,
}

impl View for CombinedEntry {
    type V = Placed;

    open spec fn view(&self) -> Placed {
        Placed {
            role: self.role,
            code: self.iata@,
            location: self.location as int,
            count: self.count as nat,
        }
    }
}

pub open spec fn placed_view(entries: Seq<CombinedEntry>) -> Seq<Placed> {
    entries.map_values(|e: CombinedEntry| e@)
}

/// Whether `out` already holds an entry for `code` in `role`.
pub open spec fn emitted(out: Seq<Placed>, role: Role, code: Seq<char>) -> bool {
    exists|i: int| 0 <= i < out.len() && out[i].role == role && out[i].code == code
}

/// Whether `code` is among `seen`.
pub open spec fn seen_code(seen: Seq<String>, code: Seq<char>) -> bool {
    exists|i: int| 0 <= i < seen.len() && seen[i]@ == code
}

/// The output after one airport of one record: an entry is appended where the
/// airport has a location and no entry for it in that role exists yet.
pub open spec fn place(
    out: Seq<Placed>,
    role: Role,
    code: Seq<char>,
    location: Option<int>,
    count: nat,
) -> Seq<Placed> {
    match location {
        Some(l) => if emitted(out, role, code) {
            out
        } else {
            out.push(Placed { role, code, location: l, count })
        },
        None => out,
    }
}

/// The entries produced by the first `n` records: origin, then destination,
/// record by record.
pub open spec fn combine_prefix(
    records: Seq<FlightRecord>,
    from_counts: Seq<(Seq<char>, nat)>,
    to_counts: Seq<(Seq<char>, nat)>,
    locations: Seq<Seq<char>>,
    n: nat,
) -> Seq<Placed>
    decreases n,
{
    if n == 0 {
        Seq::empty()
    } else {
        let out = combine_prefix(records, from_counts, to_counts, locations, (n - 1) as nat);
        let r = records[n - 1];
        let a = place(
            out,
            Role::From,
            r.from@,
            position_of(locations, r.from@),
            count_in(from_counts, r.from@),
        );
        place(a, Role::To, r.to@, position_of(locations, r.to@), count_in(to_counts, r.to@))
    }
}

/// The combined output for all records.
pub open spec fn combined(
    records: Seq<FlightRecord>,
    from_counts: Seq<(Seq<char>, nat)>,
    to_counts: Seq<(Seq<char>, nat)>,
    locations: Seq<Seq<char>>,
) -> Seq<Placed> {
    combine_prefix(records, from_counts, to_counts, locations, records.len())
}

/// No two entries share both role and code.
pub open spec fn unique_roles(out: Seq<Placed>) -> bool {
    forall|i: int, j: int|
        0 <= i < j < out.len() ==> !(out[i].role == out[j].role && out[i].code == out[j].code)
}

/// Each entry points at a location entry of its own code.
pub open spec fn located(out: Seq<Placed>, locations: Seq<Seq<char>>) -> bool {
    forall|i: int|
        0 <= i < out.len() ==> 0 <= #[trigger] out[i].location < locations.len()
            && locations[out[i].location] == out[i].code
}

/// Whether `code` is among `seen`.
fn contains_code(seen: &Vec<String>, code: &String) -> (r: bool)
    ensures
        r == seen_code(seen@, code@),
{
    let mut k: usize = 0;
    while k < seen.len()
        invariant
            k <= seen@.len(),
            forall|m: int| 0 <= m < k ==> seen@[m]@ != code@,
        decreases seen@.len() - k,
    {
        if seen[k] == *code {
            return true;
        }
        k = k + 1;
    }
    false
}

/// Adds an entry for `iata` in `role` where it has a location and is not
/// among `added_codes`, and then records it in `added_codes`. A code without
/// a location, or one already recorded, changes nothing.
pub fn process_location(
    iata: &String,
    lon_lat: Option<usize>,
    count: usize,
    added_codes: &mut Vec<String>,
    combined_data: &mut Vec<CombinedEntry>,
    role: Role,
)
    ensures
        placed_view(final(combined_data)@) == match lon_lat {
            Some(l) => if seen_code(old(added_codes)@, iata@) {
                placed_view(old(combined_data)@)
            } else {
                placed_view(old(combined_data)@).push(
                    (Placed { role, code: iata@, location: l as int, count: count as nat }),
                )
            },
            None => placed_view(old(combined_data)@),
        },
        forall|c: Seq<char>|
            seen_code(final(added_codes)@, c) <==> (seen_code(old(added_codes)@, c) || (
            lon_lat is Some && c == iata@)),
{
    let ghost out0 = placed_view(combined_data@);
    if let Some(l) = lon_lat {
        let found = contains_code(added_codes, iata);
        if !found {
            let ghost seen0 = added_codes@;
            added_codes.push(iata.clone());
            let entry = CombinedEntry { role, iata: iata.clone(), location: l, count };
            combined_data.push(entry);
            assert(placed_view(combined_data@) =~= out0.push(
                Placed { role, code: iata@, location: l as int, count: count as nat },
            ));
            assert forall|c: Seq<char>| seen_code(added_codes@, c) <==> (seen_code(seen0, c) || c == iata@) by {
                if seen_code(added_codes@, c) {
                    let i = choose|i: int| 0 <= i < added_codes@.len() && added_codes@[i]@ == c;
                    if i < seen0.len() {
                        assert(seen0[i] == added_codes@[i]);
                    }
                }
                if seen_code(seen0, c) {
                    let i = choose|i: int| 0 <= i < seen0.len() && seen0[i]@ == c;
                    assert(seen0[i] == added_codes@[i]);
                }
                if c == iata@ {
                    assert(added_codes@[seen0.len() as int]@ == c);
                }
            }
        }
    }
}

/// An index as an integer, where there is one.
pub open spec fn as_index(o: Option<usize>) -> Option<int> {
    match o {
        Some(l) => Some(l as int),
        None => None,
    }
}

proof fn lemma_place_emitted(
    out: Seq<Placed>,
    role: Role,
    code: Seq<char>,
    location: Option<int>,
    count: nat,
)
    ensures
        forall|rl: Role, c: Seq<char>|
            emitted(place(out, role, code, location, count), rl, c) <==> (emitted(out, rl, c) || (
            location is Some && rl == role && c == code)),
{
    let r = place(out, role, code, location, count);
    assert forall|rl: Role, c: Seq<char>|
        emitted(r, rl, c) <==> (emitted(out, rl, c) || (location is Some && rl == role && c == code)) by {
        if emitted(r, rl, c) {
            let i = choose|i: int| 0 <= i < r.len() && r[i].role == rl && r[i].code == c;
            if i < out.len() {
                assert(out[i] == r[i]);
            }
        }
        if emitted(out, rl, c) {
            let i = choose|i: int| 0 <= i < out.len() && out[i].role == rl && out[i].code == c;
            assert(out[i] == r[i]);
        }
        if location is Some && rl == role && c == code && !emitted(out, rl, c) {
            assert(r[out.len() as int].code == c);
        }
    }
}

/// Joins the counts with the location table: for each record its origin, then
/// its destination, each where it has a location, and each code at most once
/// per role.
pub fn combine(
    records: &Vec<FlightRecord>,
    from_counts: &CountTable,
    to_counts: &CountTable,
    locations: &LocationIndex,
) -> (r: Vec<CombinedEntry>)
    ensures
        placed_view(r@) == combined(records@, from_counts@, to_counts@, locations@),
{
    let mut combined_data: Vec<CombinedEntry> = Vec::new();
    let mut added_from: Vec<String> = Vec::new();
    let mut added_to: Vec<String> = Vec::new();
    let mut i: usize = 0;
    while i < records.len()
        invariant
            i <= records@.len(),
            placed_view(combined_data@) == combine_prefix(
                records@,
                from_counts@,
                to_counts@,
                locations@,
                i as nat,
            ),
            forall|c: Seq<char>|
                seen_code(added_from@, c) <==> emitted(placed_view(combined_data@), Role::From, c),
            forall|c: Seq<char>|
                seen_code(added_to@, c) <==> emitted(placed_view(combined_data@), Role::To, c),
        decreases records@.len() - i,
    {
        let row = &records[i];
        let from_count = from_counts.count_for(&row.from);
        let to_count = to_counts.count_for(&row.to);
        let from_at = locations.position(&row.from);
        let to_at = locations.position(&row.to);
        let ghost out0 = placed_view(combined_data@);
        process_location(&row.from, from_at, from_count, &mut added_from, &mut combined_data, Role::From);
        proof {
            assert(as_index(from_at) == position_of(locations@, row.from@));
            lemma_place_emitted(out0, Role::From, row.from@, as_index(from_at), from_count as nat);
        }
        let ghost out1 = placed_view(combined_data@);
        process_location(&row.to, to_at, to_count, &mut added_to, &mut combined_data, Role::To);
        proof {
            assert(as_index(to_at) == position_of(locations@, row.to@));
            lemma_place_emitted(out1, Role::To, row.to@, as_index(to_at), to_count as nat);
        }
        i = i + 1;
    }
    combined_data
}

/// The combined output for the records, with counts taken over the records
/// themselves.
pub fn combined_data(records: &Vec<FlightRecord>, locations: &LocationIndex) -> (r: Vec<CombinedEntry>)
    ensures
        placed_view(r@) == combined(
            records@,
            tally(codes_of(records@, Field::Origin)),
            tally(codes_of(records@, Field::Destination)),
            locations@,
        ),
{
    let from_counts = count_iata_from(records);
    let to_counts = count_iata_to(records);
    combine(records, &from_counts, &to_counts, locations)
}

} // verus!

verus! {

proof fn lemma_place(
    out: Seq<Placed>,
    locations: Seq<Seq<char>>,
    role: Role,
    code: Seq<char>,
    count: nat,
)
    requires
        unique_roles(out),
        located(out, locations),
    ensures
        unique_roles(place(out, role, code, position_of(locations, code), count)),
        located(place(out, role, code, position_of(locations, code), count), locations),
{
    let r = place(out, role, code, position_of(locations, code), count);
    if let Some(l) = position_of(locations, code) {
        if !emitted(out, role, code) {
            assert(locations[l] == code);
            assert forall|i: int, j: int| 0 <= i < j < r.len() implies !(r[i].role == r[j].role
                && r[i].code == r[j].code) by {
                if j == out.len() && r[i].role == r[j].role && r[i].code == r[j].code {
                    assert(out[i].role == role && out[i].code == code);
                }
            }
            assert forall|i: int| 0 <= i < r.len() implies 0 <= #[trigger] r[i].location
                < locations.len() && locations[r[i].location] == r[i].code by {
                if i < out.len() {
                    assert(r[i] == out[i]);
                }
            }
        }
    }
}

proof fn lemma_combine_prefix(
    records: Seq<FlightRecord>,
    from_counts: Seq<(Seq<char>, nat)>,
    to_counts: Seq<(Seq<char>, nat)>,
    locations: Seq<Seq<char>>,
    n: nat,
)
    requires
        n <= records.len(),
    ensures
        unique_roles(combine_prefix(records, from_counts, to_counts, locations, n)),
        located(combine_prefix(records, from_counts, to_counts, locations, n), locations),
    decreases n,
{
    if n > 0 {
        lemma_combine_prefix(records, from_counts, to_counts, locations, (n - 1) as nat);
        let out = combine_prefix(records, from_counts, to_counts, locations, (n - 1) as nat);
        let r = records[n - 1];
        lemma_place(out, locations, Role::From, r.from@, count_in(from_counts, r.from@));
        let a = place(
            out,
            Role::From,
            r.from@,
            position_of(locations, r.from@),
            count_in(from_counts, r.from@),
        );
        lemma_place(a, locations, Role::To, r.to@, count_in(to_counts, r.to@));
    }
}

/// The combined output never holds two entries with the same role and code.
pub proof fn lemma_combined_unique(
    records: Seq<FlightRecord>,
    from_counts: Seq<(Seq<char>, nat)>,
    to_counts: Seq<(Seq<char>, nat)>,
    locations: Seq<Seq<char>>,
)
    ensures
        unique_roles(combined(records, from_counts, to_counts, locations)),
{
    lemma_combine_prefix(records, from_counts, to_counts, locations, records.len());
}

/// A code that the location table does not list appears in no entry of the
/// combined output, however often the records name it.
pub proof fn lemma_unlisted_code_absent(
    records: Seq<FlightRecord>,
    from_counts: Seq<(Seq<char>, nat)>,
    to_counts: Seq<(Seq<char>, nat)>,
    locations: Seq<Seq<char>>,
    code: Seq<char>,
)
    requires
        !locations.contains(code),
    ensures
        forall|i: int|
            0 <= i < combined(records, from_counts, to_counts, locations).len() ==> (#[trigger] combined(
                records,
                from_counts,
                to_counts,
                locations,
            )[i]).code != code,
{
    lemma_combine_prefix(records, from_counts, to_counts, locations, records.len());
    let out = combined(records, from_counts, to_counts, locations);
    assert forall|i: int| 0 <= i < out.len() implies out[i].code != code by {
        assert(locations[out[i].location] == out[i].code);
    }
}

} // verus!
