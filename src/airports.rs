use vstd::prelude::*;
use crate::locations::LocationIndex;

verus! {

/// serde_json's parsed JSON value, carried through opaque.
#[verifier::external_type_specification]
#[verifier::external_body]
pub struct ExValue(serde_json::Value);

/// serde_json's parse error, carried through opaque.
#[verifier::external_type_specification]
#[verifier::external_body]
pub struct ExJsonError(serde_json::Error);

/// Whether serde_json reads the text as one JSON value.
pub uninterp spec fn parses_as_json(text: Seq<char>) -> bool;

/// The value that serde_json reads from the text.
pub uninterp spec fn json_of(text: Seq<char>) -> serde_json::Value;

/// The elements of a JSON value that is an array; `None` for any other value.
pub uninterp spec fn json_elements(v: serde_json::Value) -> Option<Seq<serde_json::Value>>;

/// The text of a JSON value that is a string; `None` for any other value.
pub uninterp spec fn json_text(v: serde_json::Value) -> Option<Seq<char>>;

/// The member of a JSON object under a key; `None` where the value is not an
/// object or has no such member.
pub uninterp spec fn json_member(v: serde_json::Value, key: Seq<char>) -> Option<serde_json::Value>;

/// Relies on serde_json::from_str: it reads the text into a `Value`, and
/// whether it succeeds, and the value it reads, depend on the text alone.
#[verifier::external_body]
fn parse_json(text: &str) -> (r: Result<serde_json::Value, serde_json::Error>)
    ensures
        r is Ok <==> parses_as_json(text@),
        r matches Ok(v) ==> v == json_of(text@),
{
    serde_json::from_str(text)
}

/// Relies on serde_json::Value::as_array: the elements of an array value.
pub assume_specification[ serde_json::Value::as_array ](v: &serde_json::Value) -> (r: Option<
    &Vec<serde_json::Value>,
>)
    ensures
        match r {
            Some(a) => json_elements(*v) == Some(a@),
            None => json_elements(*v) is None,
        },
;

/// Relies on serde_json::Value::as_str: the text of a string value.
pub assume_specification[ serde_json::Value::as_str ](v: &serde_json::Value) -> (r: Option<&str>)
    ensures
        match r {
            Some(t) => json_text(*v) == Some(t@),
            None => json_text(*v) is None,
        },
;

/// Relies on serde_json::Value::get: the member of an object value under a key.
#[verifier::external_body]
fn member<'a>(v: &'a serde_json::Value, key: &str) -> (r: Option<&'a serde_json::Value>)
    ensures
        match r {
            Some(m) => json_member(*v, key@) == Some(*m),
            None => json_member(*v, key@) is None,
        },
{
    v.get(key)
}

/// The location file could not be read as JSON.
#[derive(Clone, Copy, Debug, PartialEq, Eq, Structural)]
pub enum LocationError {
    NotJson,
}

/// The fields of one airport of the location file, as text: its code, empty
/// where it has none, and its coordinates where they are strings.
pub struct AirportFields {
    pub iata: String,
    pub lon: Option<String>,
    pub lat: Option<String>,
}

/// The text of a member that is a string, if any.
pub open spec fn text_at(v: serde_json::Value, key: Seq<char>) -> Option<Seq<char>> {
    match json_member(v, key) {
        Some(m) => json_text(m),
        None => None,
    }
}

pub open spec fn opt_view(o: Option<String>) -> Option<Seq<char>> {
    match o {
        Some(s) => Some(s@),
        None => None,
    }
}

/// The fields hold what the airport value has under `iata`, `lon` and `lat`:
/// the code's text, empty where there is none, and each coordinate's text.
pub open spec fn fields_of(f: AirportFields, airport: serde_json::Value) -> bool {
    &&& f.iata@ == match text_at(airport, "iata"@) {
        Some(t) => t,
        None => Seq::<char>::empty(),
    }
    &&& opt_view(f.lon) == text_at(airport, "lon"@)
    &&& opt_view(f.lat) == text_at(airport, "lat"@)
}

fn text_member(v: &serde_json::Value, key: &str) -> (r: Option<String>)
    ensures
        opt_view(r) == text_at(*v, key@),
{
    match member(v, key) {
        Some(m) => match m.as_str() {
            Some(s) => Some(s.to_owned()),
            None => None,
        },
        None => None,
    }
}

/// Reads the airports of a location file: one entry per element of its
/// top-level array, none where the top level is not an array. Fails exactly
/// where the text is not JSON.
pub fn airport_fields(text: &str) -> (r: Result<Vec<AirportFields>, LocationError>)
    ensures
        r is Ok <==> parses_as_json(text@),
        r is Err ==> r == Err::<Vec<AirportFields>, LocationError>(LocationError::NotJson),
        r matches Ok(fs) ==> match json_elements(json_of(text@)) {
            None => fs@.len() == 0,
            Some(a) => fs@.len() == a.len() && forall|i: int|
                0 <= i < a.len() ==> fields_of(#[trigger] fs@[i], a[i]),
        },
{
    let value = match parse_json(text) {
        Ok(v) => v,
        Err(_) => return Err(LocationError::NotJson),
    };
    let mut fields: Vec<AirportFields> = Vec::new();
    if let Some(airports) = value.as_array() {
        let mut i: usize = 0;
        while i < airports.len()
            invariant
                i <= airports@.len(),
                fields@.len() == i,
                forall|j: int| 0 <= j < i ==> fields_of(#[trigger] fields@[j], airports@[j]),
            decreases airports@.len() - i,
        {
            let airport = &airports[i];
            let iata = match text_member(airport, "iata") {
                Some(s) => s,
                None => String::new(),
            };
            let lon = text_member(airport, "lon");
            let lat = text_member(airport, "lat");
            fields.push(AirportFields { iata, lon, lat });
            i = i + 1;
        }
    }
    Ok(fields)
}

impl LocationIndex {
    /// The index of the airports' codes, in file order.
    pub fn from_fields(fields: &Vec<AirportFields>) -> (r: LocationIndex)
        ensures
            r@ == fields@.map_values(|f: AirportFields| f.iata@),
    {
        let mut codes: Vec<String> = Vec::new();
        let mut i: usize = 0;
        while i < fields.len()
            invariant
                i <= fields@.len(),
                codes@.len() == i,
                forall|j: int| 0 <= j < i ==> codes@[j]@ == fields@[j].iata@,
            decreases fields@.len() - i,
        {
            codes.push(fields[i].iata.clone());
            i = i + 1;
        }
        assert(codes@.map_values(|s: String| s@) =~= fields@.map_values(|f: AirportFields| f.iata@));
        LocationIndex::new(codes)
    }
}

} // verus!
