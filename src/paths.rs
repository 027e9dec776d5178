use vstd::prelude::*;
use vstd::utf8::encode_utf8;

verus! {

pub const DOT: u8 = 46;

pub const SLASH: u8 = 47;

pub const BACKSLASH: u8 = 92;

/// A path segment that names an entry inside its directory: not empty, not
/// `.` or `..`, and without a path separator.
pub open spec fn is_plain_segment(s: Seq<u8>) -> bool {
    &&& s.len() > 0
    &&& s != seq![DOT]
    &&& s != seq![DOT, DOT]
    &&& forall|i: int| 0 <= i < s.len() ==> s[i] != SLASH && s[i] != BACKSLASH
}

/// The bytes of each segment.
pub open spec fn segment_bytes(segments: Seq<String>) -> Seq<Seq<u8>> {
    segments.map_values(|s: String| encode_utf8(s@))
}

/// How many directories below the root a walk along the segments ends: `..`
/// climbs one, `.` and the empty segment stay, any other segment descends.
pub open spec fn depth(segments: Seq<Seq<u8>>) -> int
    decreases segments.len(),
{
    if segments.len() == 0 {
        0
    } else {
        let s = segments.last();
        depth(segments.drop_last()) + if s == seq![DOT, DOT] {
            -1int
        } else if s == seq![DOT] || s.len() == 0 {
            0int
        } else {
            1int
        }
    }
}

/// Whether some point of the walk along the segments lies above the root.
pub open spec fn escapes(segments: Seq<Seq<u8>>) -> bool {
    exists|n: int| 0 <= n <= segments.len() && depth(#[trigger] segments.take(n)) < 0
}

fn is_plain(s: &String) -> (r: bool)
    ensures
        r == is_plain_segment(encode_utf8(s@)),
{
    let b = s.as_str().as_bytes();
    let n = b.len();
    if n == 0 {
        return false;
    }
    if n == 1 && b[0] == DOT {
        assert(b@ =~= seq![DOT]);
        return false;
    }
    if n == 2 && b[0] == DOT && b[1] == DOT {
        assert(b@ =~= seq![DOT, DOT]);
        return false;
    }
    let mut i: usize = 0;
    while i < n
        invariant
            n == b@.len(),
            b@ == encode_utf8(s@),
            i <= n,
            forall|j: int| 0 <= j < i ==> b@[j] != SLASH && b@[j] != BACKSLASH,
        decreases n - i,
    {
        if b[i] == SLASH || b[i] == BACKSLASH {
            assert(!is_plain_segment(b@)) by {
                assert(b@[i as int] == SLASH || b@[i as int] == BACKSLASH);
            }
            return false;
        }
        i = i + 1;
    }
    assert(b@ != seq![DOT]) by {
        if n == 1 {
            assert(b@[0] != DOT);
        }
    }
    assert(b@ != seq![DOT, DOT]) by {
        if n == 2 {
            assert(b@[0] != DOT || b@[1] != DOT);
        }
    }
    true
}

/// Whether every segment of a requested path is a plain name. This is a
/// sufficient test that the path stays inside the directory it is resolved
/// against: it also refuses some paths that would stay inside, such as `.`
/// or an empty segment.
pub fn is_contained(segments: &Vec<String>) -> (r: bool)
    ensures
        r == forall|i: int|
            0 <= i < segments@.len() ==> is_plain_segment(#[trigger] segment_bytes(segments@)[i]),
        r ==> !escapes(segment_bytes(segments@)),
{
    let mut i: usize = 0;
    while i < segments.len()
        invariant
            i <= segments@.len(),
            forall|j: int| 0 <= j < i ==> is_plain_segment(#[trigger] segment_bytes(segments@)[j]),
        decreases segments@.len() - i,
    {
        if !is_plain(&segments[i]) {
            assert(!is_plain_segment(segment_bytes(segments@)[i as int]));
            return false;
        }
        i = i + 1;
    }
    proof {
        lemma_contained_never_escapes(segment_bytes(segments@));
    }
    true
}

proof fn lemma_plain_depth(segments: Seq<Seq<u8>>)
    requires
        forall|i: int| 0 <= i < segments.len() ==> is_plain_segment(#[trigger] segments[i]),
    ensures
        depth(segments) == segments.len(),
    decreases segments.len(),
{
    if segments.len() > 0 {
        let p = segments.drop_last();
        assert forall|i: int| 0 <= i < p.len() implies is_plain_segment(#[trigger] p[i]) by {
            assert(p[i] == segments[i]);
        }
        lemma_plain_depth(p);
        assert(is_plain_segment(segments[segments.len() - 1]));
    }
}

/// A path whose segments are all plain names never leaves the directory it
/// is resolved against, at any point of the walk along it.
pub proof fn lemma_contained_never_escapes(segments: Seq<Seq<u8>>)
    requires
        forall|i: int| 0 <= i < segments.len() ==> is_plain_segment(#[trigger] segments[i]),
    ensures
        !escapes(segments),
{
    assert forall|n: int| 0 <= n <= segments.len() implies depth(#[trigger] segments.take(n)) >= 0 by {
        let p = segments.take(n);
        assert forall|i: int| 0 <= i < p.len() implies is_plain_segment(#[trigger] p[i]) by {
            assert(p[i] == segments[i]);
        }
        lemma_plain_depth(p);
    }
}

} // verus!
