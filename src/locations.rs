use vstd::prelude::*;

verus! {

/// `i` is the last index at which `k` stands in `codes`.
pub open spec fn last_at(codes: Seq<Seq<char>>, k: Seq<char>, i: int) -> bool {
    &&& 0 <= i < codes.len()
    &&& codes[i] == k
    &&& forall|j: int| i < j < codes.len() ==> codes[j] != k
}

/// Where `k` is found in `codes`: its last index, as a later entry for a code
/// replaces an earlier one.
pub open spec fn position_of(codes: Seq<Seq<char>>, k: Seq<char>) -> Option<int> {
    if exists|i: int| last_at(codes, k, i) {
        Some(choose|i: int| last_at(codes, k, i))
    } else {
        None
    }
}

/// The airport codes of a location table, in the order they were read. Entry
/// `i` stands for the coordinates at index `i` of the table they came from.
pub struct LocationIndex {
    codes: Vec<String>,
}

impl View for LocationIndex {
    type V = Seq<Seq<char>>;

    closed spec fn view(&self) -> Seq<Seq<char>> {
        self.codes@.map_values(|s: String| s@)
    }
}

impl LocationIndex {
    pub fn new(codes: Vec<String>) -> (r: LocationIndex)
        ensures
            r@ == codes@.map_values(|s: String| s@),
    {
        LocationIndex { codes }
    }

    pub fn len(&self) -> (r: usize)
        ensures
            r == self@.len(),
    {
        self.codes.len()
    }

    /// The index of the entry that holds the coordinates of `code`, if any.
    pub fn position(&self, code: &String) -> (r: Option<usize>)
        ensures
            match r {
                Some(i) => position_of(self@, code@) == Some(i as int),
                None => position_of(self@, code@) is None,
            },
    {
        let ghost codes = self@;
        let mut i: usize = self.codes.len();
        while i > 0
            invariant
                i <= codes.len(),
                codes == self@,
                forall|j: int| i <= j < codes.len() ==> codes[j] != code@,
            decreases i,
        {
            i = i - 1;
            if self.codes[i] == *code {
                assert(last_at(codes, code@, i as int));
                let ghost c = choose|c: int| last_at(codes, code@, c);
                assert(c == i) by {
                    if c < i {
                        assert(codes[i as int] == code@);
                    } else if c > i {
                        assert(codes[c] == code@);
                    }
                }
                return Some(i);
            }
        }
        assert(!exists|c: int| last_at(codes, code@, c)) by {
            if exists|c: int| last_at(codes, code@, c) {
                let c = choose|c: int| last_at(codes, code@, c);
                assert(codes[c] == code@);
            }
        }
        None
    }
}

} // verus!
