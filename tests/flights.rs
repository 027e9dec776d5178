use flightlog::{
    airport_fields, combine, combined_data, count_by, count_iata_from, count_iata_to,
    is_contained, process_location, CombinedEntry, CountTable, Field, FlightRecord,
    LocationError, LocationIndex, Role,
};

fn record(from: &str, to: &str) -> FlightRecord {
    FlightRecord::new(
        "2023-01-01".to_string(),
        "XX1".to_string(),
        from.to_string(),
        to.to_string(),
    )
}

fn index(codes: &[&str]) -> LocationIndex {
    LocationIndex::new(codes.iter().map(|c| c.to_string()).collect())
}

fn pairs(t: &CountTable) -> Vec<(String, usize)> {
    let mut v = t.entries().clone();
    v.sort();
    v
}

fn summary(entries: &[CombinedEntry]) -> Vec<(Role, String, usize, usize)> {
    entries
        .iter()
        .map(|e| (e.role, e.iata.clone(), e.location, e.count))
        .collect()
}

#[test]
fn two_airports_round_trip() {
    let records = vec![record("JFK", "LAX"), record("LAX", "JFK")];
    let locations = index(&["JFK", "LAX"]);
    let from = count_iata_from(&records);
    let to = count_iata_to(&records);
    let expected = vec![("JFK".to_string(), 1), ("LAX".to_string(), 1)];
    assert_eq!(pairs(&from), expected);
    assert_eq!(pairs(&to), expected);
    let out = combined_data(&records, &locations);
    assert_eq!(
        summary(&out),
        vec![
            (Role::From, "JFK".to_string(), 0, 1),
            (Role::To, "LAX".to_string(), 1, 1),
            (Role::From, "LAX".to_string(), 1, 1),
            (Role::To, "JFK".to_string(), 0, 1),
        ]
    );
}

#[test]
fn counts_sum_to_record_count() {
    let records = vec![
        record("JFK", "LAX"),
        record("JFK", "SFO"),
        record("SFO", "JFK"),
        record("JFK", "LAX"),
        record("ORD", "LAX"),
    ];
    for field in [Field::Origin, Field::Destination] {
        let t = count_by(&records, field);
        let sum: usize = t.entries().iter().map(|e| e.1).sum();
        assert_eq!(sum, records.len());
    }
    let from = count_iata_from(&records);
    assert_eq!(
        from.entries().clone(),
        vec![("JFK".to_string(), 3), ("SFO".to_string(), 1), ("ORD".to_string(), 1)]
    );
    let to = count_iata_to(&records);
    assert_eq!(
        to.entries().clone(),
        vec![("LAX".to_string(), 3), ("SFO".to_string(), 1), ("JFK".to_string(), 1)]
    );
}

#[test]
fn empty_store_counts_nothing() {
    let records: Vec<FlightRecord> = Vec::new();
    assert!(count_iata_from(&records).entries().is_empty());
    assert!(count_iata_to(&records).entries().is_empty());
    assert!(combined_data(&records, &index(&["JFK"])).is_empty());
}

#[test]
fn counting_twice_gives_same_table() {
    let records = vec![record("JFK", "LAX"), record("LAX", "JFK"), record("JFK", "BOS")];
    let a = count_by(&records, Field::Origin);
    let b = count_by(&records, Field::Origin);
    assert_eq!(a.entries(), b.entries());
}

#[test]
fn count_for_missing_code_is_zero() {
    let records = vec![record("JFK", "LAX")];
    let from = count_iata_from(&records);
    assert_eq!(from.count_for(&"JFK".to_string()), 1);
    assert_eq!(from.count_for(&"LAX".to_string()), 0);
}

#[test]
fn each_code_once_per_role() {
    let records = vec![
        record("JFK", "LAX"),
        record("JFK", "LAX"),
        record("LAX", "JFK"),
        record("JFK", "LAX"),
    ];
    let out = combined_data(&records, &index(&["JFK", "LAX"]));
    assert_eq!(
        summary(&out),
        vec![
            (Role::From, "JFK".to_string(), 0, 3),
            (Role::To, "LAX".to_string(), 1, 3),
            (Role::From, "LAX".to_string(), 1, 1),
            (Role::To, "JFK".to_string(), 0, 1),
        ]
    );
    for i in 0..out.len() {
        for j in (i + 1)..out.len() {
            assert!(!(out[i].role == out[j].role && out[i].iata == out[j].iata));
        }
    }
}

#[test]
fn unlisted_code_is_left_out() {
    let records = vec![record("JFK", "XYZ"), record("XYZ", "JFK"), record("XYZ", "XYZ")];
    let out = combined_data(&records, &index(&["JFK", "LAX"]));
    assert!(out.iter().all(|e| e.iata != "XYZ"));
    assert_eq!(
        summary(&out),
        vec![(Role::From, "JFK".to_string(), 0, 1), (Role::To, "JFK".to_string(), 0, 1)]
    );
}

#[test]
fn later_location_entry_wins() {
    let locations = index(&["JFK", "LAX", "JFK"]);
    assert_eq!(locations.len(), 3);
    assert_eq!(locations.position(&"JFK".to_string()), Some(2));
    assert_eq!(locations.position(&"LAX".to_string()), Some(1));
    assert_eq!(locations.position(&"SFO".to_string()), None);
}

#[test]
fn combine_uses_given_counts() {
    let records = vec![record("JFK", "LAX")];
    let other = vec![record("LAX", "BOS"), record("LAX", "BOS")];
    let from = count_iata_from(&other);
    let to = count_iata_to(&other);
    let out = combine(&records, &from, &to, &index(&["JFK", "LAX"]));
    assert_eq!(
        summary(&out),
        vec![(Role::From, "JFK".to_string(), 0, 0), (Role::To, "LAX".to_string(), 1, 0)]
    );
}

#[test]
fn process_location_skips_repeat_and_unlocated() {
    let mut added = Vec::new();
    let mut out = Vec::new();
    let jfk = "JFK".to_string();
    process_location(&jfk, Some(4), 7, &mut added, &mut out, Role::From);
    process_location(&jfk, Some(4), 9, &mut added, &mut out, Role::From);
    process_location(&"SFO".to_string(), None, 2, &mut added, &mut out, Role::From);
    assert_eq!(summary(&out), vec![(Role::From, "JFK".to_string(), 4, 7)]);
    assert_eq!(added, vec!["JFK".to_string()]);
}

#[test]
fn airport_fields_reads_codes_and_coordinate_text() {
    let text = r#"[{"iata":"JFK","lon":"-73.8","lat":"40.6"},{"iata":"LAX","lon":"unknown","lat":"33.9"},{"lon":"1.0"},{"iata":"SFO","lon":5,"lat":null}]"#;
    let fields = airport_fields(text).unwrap();
    assert_eq!(fields.len(), 4);
    assert_eq!(fields[0].iata, "JFK");
    assert_eq!(fields[0].lon.as_deref(), Some("-73.8"));
    assert_eq!(fields[0].lat.as_deref(), Some("40.6"));
    assert_eq!(fields[1].iata, "LAX");
    assert_eq!(fields[1].lon.as_deref(), Some("unknown"));
    assert_eq!(fields[2].iata, "");
    assert_eq!(fields[2].lat, None);
    assert_eq!(fields[3].iata, "SFO");
    assert_eq!(fields[3].lon, None);
    assert_eq!(fields[3].lat, None);
    let locations = LocationIndex::from_fields(&fields);
    assert_eq!(locations.position(&"LAX".to_string()), Some(1));
    assert_eq!(locations.position(&"SFO".to_string()), Some(3));
}

#[test]
fn airport_fields_not_an_array_is_empty() {
    assert_eq!(airport_fields(r#"{"iata":"JFK"}"#).unwrap().len(), 0);
    assert_eq!(airport_fields("42").unwrap().len(), 0);
    assert_eq!(airport_fields("[]").unwrap().len(), 0);
}

#[test]
fn process_location_trusts_given_added_codes() {
    let mut added = vec!["JFK".to_string()];
    let mut out = Vec::new();
    process_location(&"JFK".to_string(), Some(0), 5, &mut added, &mut out, Role::To);
    assert!(out.is_empty());
    assert_eq!(added, vec!["JFK".to_string()]);
    process_location(&"LAX".to_string(), None, 5, &mut added, &mut out, Role::To);
    assert!(out.is_empty());
    assert_eq!(added, vec!["JFK".to_string()]);
    process_location(&"LAX".to_string(), Some(3), 5, &mut added, &mut out, Role::To);
    assert_eq!(summary(&out), vec![(Role::To, "LAX".to_string(), 3, 5)]);
    assert_eq!(added, vec!["JFK".to_string(), "LAX".to_string()]);
}

#[test]
fn airport_fields_rejects_malformed_json() {
    assert!(matches!(airport_fields("[{\"iata\": "), Err(LocationError::NotJson)));
    assert!(matches!(airport_fields(""), Err(LocationError::NotJson)));
    let records = vec![record("JFK", "LAX")];
    assert_eq!(count_iata_from(&records).entries().len(), 1);
    assert_eq!(count_iata_to(&records).entries().len(), 1);
}

#[test]
fn parent_segments_are_not_contained() {
    let segs = |s: &[&str]| s.iter().map(|x| x.to_string()).collect::<Vec<String>>();
    assert!(!is_contained(&segs(&["..", "..", "etc", "passwd"])));
    assert!(!is_contained(&segs(&["a", ".."])));
    assert!(!is_contained(&segs(&["."])));
    assert!(!is_contained(&segs(&[""])));
    assert!(!is_contained(&segs(&["a/../../b"])));
    assert!(!is_contained(&segs(&["a\\b"])));
    assert!(is_contained(&segs(&["Logbook-1.csv"])));
    assert!(is_contained(&segs(&["sub", "...", ".hidden"])));
    assert!(is_contained(&segs(&[])));
}
