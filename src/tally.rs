use vstd::prelude::*;
use crate::record::{codes_of, Field, FlightRecord};

verus! {

/// How many times `k` occurs in `codes`.
pub open spec fn occurrences(codes: Seq<Seq<char>>, k: Seq<char>) -> nat
    decreases codes.len(),
{
    if codes.len() == 0 {
        0
    } else {
        occurrences(codes.drop_last(), k) + if codes.last() == k { 1nat } else { 0nat }
    }
}

/// Whether some entry of the table is keyed by `k`.
pub open spec fn has_key(t: Seq<(Seq<char>, nat)>, k: Seq<char>) -> bool {
    exists|j: int| 0 <= j < t.len() && t[j].0 == k
}

/// No two entries of the table share a key.
pub open spec fn keys_distinct(t: Seq<(Seq<char>, nat)>) -> bool {
    forall|i: int, j: int| 0 <= i < j < t.len() ==> t[i].0 != t[j].0
}

/// The table after one more occurrence of `k`: its entry goes up by one, or a
/// new entry with count one is appended.
pub open spec fn bump(t: Seq<(Seq<char>, nat)>, k: Seq<char>) -> Seq<(Seq<char>, nat)> {
    if has_key(t, k) {
        let j = choose|j: int| 0 <= j < t.len() && t[j].0 == k;
        t.update(j, (k, t[j].1 + 1))
    } else {
        t.push((k, 1nat))
    }
}

/// The frequency table of `codes`, keys in order of first occurrence.
pub open spec fn tally(codes: Seq<Seq<char>>) -> Seq<(Seq<char>, nat)>
    decreases codes.len(),
{
    if codes.len() == 0 {
        Seq::empty()
    } else {
        bump(tally(codes.drop_last()), codes.last())
    }
}

/// The sum of the counts of a table.
pub open spec fn total(t: Seq<(Seq<char>, nat)>) -> nat
    decreases t.len(),
{
    if t.len() == 0 {
        0
    } else {
        total(t.drop_last()) + t.last().1
    }
}

/// The count that the table holds for `k`, zero where it has no entry for it.
pub open spec fn count_in(t: Seq<(Seq<char>, nat)>, k: Seq<char>) -> nat {
    if has_key(t, k) {
        let j = choose|j: int| 0 <= j < t.len() && t[j].0 == k;
        t[j].1
    } else {
        0
    }
}

pub open spec fn entries_view(entries: Seq<(String, usize)>) -> Seq<(Seq<char>, nat)> {
    entries.map_values(|e: (String, usize)| (e.0@, e.1 as nat))
}

proof fn lemma_total_update(t: Seq<(Seq<char>, nat)>, j: int, x: (Seq<char>, nat))
    requires
        0 <= j < t.len(),
    ensures
        total(t.update(j, x)) + t[j].1 == total(t) + x.1,
    decreases t.len(),
{
    let u = t.update(j, x);
    if j == t.len() - 1 {
        assert(u.drop_last() =~= t.drop_last());
    } else {
        assert(u.drop_last() =~= t.drop_last().update(j, x));
        lemma_total_update(t.drop_last(), j, x);
    }
}

proof fn lemma_occurrences_bound(codes: Seq<Seq<char>>, k: Seq<char>)
    ensures
        occurrences(codes, k) <= codes.len(),
    decreases codes.len(),
{
    if codes.len() > 0 {
        lemma_occurrences_bound(codes.drop_last(), k);
    }
}

/// What the table of a sequence of codes holds: one entry per distinct code,
/// each with the number of its occurrences, and counts summing to the length.
pub proof fn lemma_tally(codes: Seq<Seq<char>>)
    ensures
        keys_distinct(tally(codes)),
        forall|k: Seq<char>| has_key(tally(codes), k) <==> codes.contains(k),
        forall|j: int|
            0 <= j < tally(codes).len() ==> tally(codes)[j].1 == occurrences(
                codes,
                #[trigger] tally(codes)[j].0,
            ),
        forall|k: Seq<char>| !codes.contains(k) ==> occurrences(codes, k) == 0,
        forall|k: Seq<char>| count_in(tally(codes), k) == occurrences(codes, k),
        total(tally(codes)) == codes.len(),
    decreases codes.len(),
{
    if codes.len() > 0 {
        let prefix = codes.drop_last();
        let k = codes.last();
        lemma_tally(prefix);
        let t0 = tally(prefix);
        let t = tally(codes);
        assert forall|x: Seq<char>| codes.contains(x) <==> (prefix.contains(x) || x == k) by {
            if codes.contains(x) {
                let i = choose|i: int| 0 <= i < codes.len() && codes[i] == x;
                if i < prefix.len() {
                    assert(prefix[i] == x);
                }
            }
            if prefix.contains(x) {
                let i = choose|i: int| 0 <= i < prefix.len() && prefix[i] == x;
                assert(codes[i] == x);
            }
            if x == k {
                assert(codes[codes.len() - 1] == x);
            }
        }
        if has_key(t0, k) {
            let j = choose|j: int| 0 <= j < t0.len() && t0[j].0 == k;
            assert(t == t0.update(j, (k, t0[j].1 + 1)));
            lemma_total_update(t0, j, (k, t0[j].1 + 1));
            assert forall|x: Seq<char>| has_key(t, x) <==> has_key(t0, x) by {
                if has_key(t, x) {
                    let i = choose|i: int| 0 <= i < t.len() && t[i].0 == x;
                    assert(t0[i].0 == x);
                }
                if has_key(t0, x) {
                    let i = choose|i: int| 0 <= i < t0.len() && t0[i].0 == x;
                    assert(t[i].0 == x);
                }
            }
            assert forall|x: Seq<char>| count_in(t, x) == occurrences(codes, x) by {
                assert(occurrences(codes, x) == occurrences(prefix, x) + if x == k { 1nat } else { 0nat });
                if has_key(t, x) {
                    let i = choose|i: int| 0 <= i < t.len() && t[i].0 == x;
                    let i0 = choose|i: int| 0 <= i < t0.len() && t0[i].0 == x;
                    assert(t0[i].0 == x);
                    assert(i == i0);
                    assert(t0[i].1 == occurrences(prefix, t0[i].0));
                    if i == j {
                        assert(x == k);
                    } else {
                        assert(x != k);
                    }
                } else {
                    assert(!has_key(t0, x));
                    assert(!prefix.contains(x));
                }
            }
        } else {
            assert(t == t0.push((k, 1nat)));
            assert(t.drop_last() =~= t0);
            assert forall|x: Seq<char>| has_key(t, x) <==> (has_key(t0, x) || x == k) by {
                if has_key(t, x) {
                    let i = choose|i: int| 0 <= i < t.len() && t[i].0 == x;
                    if i < t0.len() {
                        assert(t0[i].0 == x);
                    }
                }
                if has_key(t0, x) {
                    let i = choose|i: int| 0 <= i < t0.len() && t0[i].0 == x;
                    assert(t[i].0 == x);
                }
                if x == k {
                    assert(t[t0.len() as int].0 == x);
                }
            }
            assert forall|x: Seq<char>| count_in(t, x) == occurrences(codes, x) by {
                assert(occurrences(codes, x) == occurrences(prefix, x) + if x == k { 1nat } else { 0nat });
                if has_key(t, x) {
                    let i = choose|i: int| 0 <= i < t.len() && t[i].0 == x;
                    if x == k {
                        assert(i == t0.len());
                        assert(!prefix.contains(k));
                    } else {
                        let i0 = choose|i: int| 0 <= i < t0.len() && t0[i].0 == x;
                        assert(t[i0].0 == x);
                        assert(i == i0);
                        assert(t0[i].1 == occurrences(prefix, t0[i].0));
                    }
                } else {
                    assert(!has_key(t0, x));
                    assert(!prefix.contains(x));
                }
            }
        }
    }
}

/// The first index of an entry keyed by `code`.
fn find_entry(entries: &Vec<(String, usize)>, code: &String) -> (r: Option<usize>)
    ensures
        match r {
            Some(j) => j < entries@.len() && entries@[j as int].0@ == code@ && forall|m: int|
                0 <= m < j ==> entries@[m].0@ != code@,
            None => forall|m: int| 0 <= m < entries@.len() ==> entries@[m].0@ != code@,
        },
{
    let mut j: usize = 0;
    while j < entries.len()
        invariant
            j <= entries@.len(),
            forall|m: int| 0 <= m < j ==> entries@[m].0@ != code@,
        decreases entries@.len() - j,
    {
        if entries[j].0 == *code {
            return Some(j);
        }
        j = j + 1;
    }
    None
}

/// Occurrence counts keyed by airport code, in order of first occurrence.
pub struct CountTable {
    entries: Vec<(String, usize)>,
}

impl View for CountTable {
    type V = Seq<(Seq<char>, nat)>;

    closed spec fn view(&self) -> Seq<(Seq<char>, nat)> {
        entries_view(self.entries@)
    }
}

impl CountTable {
    #[verifier::type_invariant]
    spec fn inv(&self) -> bool {
        keys_distinct(self@)
    }

    /// The entries, each code with its count.
    pub fn entries(&self) -> (r: &Vec<(String, usize)>)
        ensures
            entries_view(r@) == self@,
            keys_distinct(self@),
    {
        proof {
            use_type_invariant(self);
        }
        &self.entries
    }

    /// The count for `code`, zero where the table has no entry for it.
    pub fn count_for(&self, code: &String) -> (r: usize)
        ensures
            r as nat == count_in(self@, code@),
    {
        proof {
            use_type_invariant(self);
        }
        match find_entry(&self.entries, code) {
            Some(j) => {
                let ghost t = self@;
                assert(t[j as int].0 == code@);
                let ghost c = choose|i: int| 0 <= i < t.len() && t[i].0 == code@;
                assert(c == j);
                self.entries[j].1
            },
            None => {
                assert(!has_key(self@, code@)) by {
                    if has_key(self@, code@) {
                        let i = choose|i: int| 0 <= i < self@.len() && self@[i].0 == code@;
                        assert(self.entries@[i].0@ == code@);
                    }
                }
                0
            },
        }
    }
}

/// Counts how often each airport code occurs in the selected field of the
/// records.
pub fn count_by(records: &Vec<FlightRecord>, field: Field) -> (r: CountTable)
    ensures
        r@ == tally(codes_of(records@, field)),
        keys_distinct(r@),
        total(r@) == records@.len(),
        forall|k: Seq<char>| count_in(r@, k) == occurrences(codes_of(records@, field), k),
{
    let ghost codes = codes_of(records@, field);
    let mut entries: Vec<(String, usize)> = Vec::new();
    let mut i: usize = 0;
    assert(codes.take(0) =~= Seq::<Seq<char>>::empty());
    while i < records.len()
        invariant
            i <= records@.len(),
            codes == codes_of(records@, field),
            entries_view(entries@) == tally(codes.take(i as int)),
        decreases records@.len() - i,
    {
        let ghost prefix = codes.take(i as int);
        let ghost next = codes.take(i as int + 1);
        proof {
            lemma_tally(prefix);
            assert(next.drop_last() =~= prefix);
            assert(next.last() == codes[i as int]);
        }
        let code = records[i].select(field);
        let ghost t0 = entries_view(entries@);
        match find_entry(&entries, code) {
            Some(j) => {
                assert(t0[j as int].0 == code@);
                let ghost c = choose|m: int| 0 <= m < t0.len() && t0[m].0 == code@;
                assert(c == j);
                proof {
                    lemma_occurrences_bound(prefix, code@);
                }
                let n = entries[j].1;
                entries.set(j, (code.clone(), n + 1));
                assert(entries_view(entries@) =~= t0.update(j as int, (code@, t0[j as int].1 + 1)));
            },
            None => {
                assert(!has_key(t0, code@)) by {
                    if has_key(t0, code@) {
                        let m = choose|m: int| 0 <= m < t0.len() && t0[m].0 == code@;
                        assert(entries@[m].0@ == code@);
                    }
                }
                entries.push((code.clone(), 1));
                assert(entries_view(entries@) =~= t0.push((code@, 1nat)));
            },
        }
        i = i + 1;
    }
    assert(codes.take(records@.len() as int) =~= codes);
    proof {
        lemma_tally(codes);
    }
    CountTable { entries }
}

/// Departures per airport code.
pub fn count_iata_from(records: &Vec<FlightRecord>) -> (r: CountTable)
    ensures
        r@ == tally(codes_of(records@, Field::Origin)),
        keys_distinct(r@),
        total(r@) == records@.len(),
{
    count_by(records, Field::Origin)
}

/// Arrivals per airport code.
pub fn count_iata_to(records: &Vec<FlightRecord>) -> (r: CountTable)
    ensures
        r@ == tally(codes_of(records@, Field::Destination)),
        keys_distinct(r@),
        total(r@) == records@.len(),
{
    count_by(records, Field::Destination)
}

} // verus!

verus! {

/// The counts of a field over the records add up to the number of records.
pub proof fn lemma_counts_sum_to_records(records: Seq<FlightRecord>, field: Field)
    ensures
        total(tally(codes_of(records, field))) == records.len(),
{
    lemma_tally(codes_of(records, field));
}

/// Counting a field twice over the same records gives the same table: the
/// table is a function of the records alone.
pub proof fn lemma_count_by_deterministic(
    records: Seq<FlightRecord>,
    field: Field,
    first: Seq<(Seq<char>, nat)>,
    second: Seq<(Seq<char>, nat)>,
)
    requires
        first == tally(codes_of(records, field)),
        second == tally(codes_of(records, field)),
    ensures
        first == second,
        forall|k: Seq<char>| count_in(first, k) == count_in(second, k),
{
}

} // verus!
