//! Header document checks and entry text round trips.

use imagstore::value::{Value, has_main_section, has_imag_version_in_main_section,
    verify_header_consistency, default_version};
use imagstore::storeid::StoreId;
use imagstore::entry::Entry;

fn table(pairs: Vec<(&str, Value)>) -> Value {
    let mut v: Vec<(String, Value)> = Vec::new();
    for (k, val) in pairs {
        v.push((k.to_string(), val));
    }
    Value::Table(v)
}

#[test]
fn test_imag_section() {
    let map = table(vec![("imag", table(vec![]))]);
    assert!(has_main_section(&map));
}

#[test]
fn test_imag_invalid_section_type() {
    let map = table(vec![("imag", Value::Boolean(false))]);
    assert!(!has_main_section(&map));
}

#[test]
fn test_imag_abscent_main_section() {
    let map = table(vec![("not_imag", Value::Boolean(false))]);
    assert!(!has_main_section(&map));
}

#[test]
fn test_main_section_without_version() {
    let map = table(vec![("imag", table(vec![]))]);
    assert!(!has_imag_version_in_main_section(&map));
}

#[test]
fn test_main_section_with_version() {
    let map = table(vec![("imag", table(vec![("version", Value::Text("0.0.0".to_string()))]))]);
    assert!(has_imag_version_in_main_section(&map));
}

#[test]
fn test_main_section_with_version_in_wrong_type() {
    let map = table(vec![("imag", table(vec![("version", Value::Boolean(false))]))]);
    assert!(!has_imag_version_in_main_section(&map));
}

#[test]
fn test_verification_good() {
    let header = table(vec![("imag", table(vec![("version", Value::Text("0.0.0".to_string()))]))]);
    assert!(verify_header_consistency(&header).is_ok());
}

#[test]
fn test_verification_invalid_versionstring() {
    let header = table(vec![("imag", table(vec![("version", Value::Text("000".to_string()))]))]);
    assert!(!verify_header_consistency(&header).is_ok());
}

#[test]
fn test_verification_current_version() {
    let header = table(vec![("imag", table(vec![("version", Value::Text(default_version()))]))]);
    assert!(verify_header_consistency(&header).is_ok());
}

static TEST_ENTRY: &'static str = "---
[imag]
version = \"0.0.3\"
---
Hai";

#[test]
fn test_entry_from_str() {
    let entry = Entry::from_str(
        StoreId::new_baseless("test/foo~1.3").unwrap(),
        TEST_ENTRY,
    ).unwrap();
    assert_eq!(entry.get_content(), "Hai");
}

#[test]
fn test_entry_to_str() {
    let entry = Entry::from_str(
        StoreId::new_baseless("test/foo~1.3").unwrap(),
        TEST_ENTRY,
    ).unwrap();
    let string = entry.to_str();
    assert_eq!(TEST_ENTRY, string);
}

#[test]
fn test_entry_verify_and_round_trip() {
    let entry = Entry::from_str(
        StoreId::new_baseless("test/foo~1.3").unwrap(),
        TEST_ENTRY,
    ).unwrap();
    assert!(entry.verify().is_ok());
    let again = Entry::from_str(
        StoreId::new_baseless("test/foo~1.3").unwrap(),
        entry.to_str().as_str(),
    ).unwrap();
    assert!(entry == again);
}

#[test]
fn test_entry_round_trip_rich_header() {
    let id = StoreId::new_baseless("a/b").unwrap();
    let mut e = Entry::new(id);
    e.set_content("line one\nline two\n".to_string());
    e.set_header_at("imag.count", Value::Integer(-42)).unwrap();
    e.set_header_at("imag.ratio", Value::Float("2.5".to_string())).unwrap();
    e.set_header_at("imag.active", Value::Boolean(true)).unwrap();
    e.set_header_at("imag.when", Value::Datetime("2020-01-02T03:04:05Z".to_string())).unwrap();
    e.set_header_at(
        "imag.names",
        Value::Array(vec![
            Value::Text("quoted \"text\"\nwith\tescapes\\".to_string()),
            Value::Integer(7),
        ]),
    ).unwrap();
    let text = e.to_str();
    let back = Entry::from_str(StoreId::new_baseless("a/b").unwrap(), text.as_str()).unwrap();
    assert!(e == back);
    assert_eq!(back.to_str(), text);
}

#[test]
fn test_malformed_entry_is_rejected() {
    let id = StoreId::new_baseless("x").unwrap();
    let r = Entry::from_str(id, "no fences at all");
    match r {
        Err(e) => assert!(matches!(
            e.err_type(),
            imagstore::error::StoreErrorKind::MalformedEntry
        )),
        Ok(_) => panic!("expected a malformed-entry error"),
    }
}

#[test]
fn test_bad_header_is_rejected() {
    let id = StoreId::new_baseless("x").unwrap();
    let r = Entry::from_str(id, "---\n= nonsense\n---\n");
    match r {
        Err(e) => assert!(matches!(e.err_type(), imagstore::error::StoreErrorKind::HeaderError)),
        Ok(_) => panic!("expected a header error"),
    }
}

#[test]
fn test_dotted_read_and_set() {
    let mut v = table(vec![("imag", table(vec![("version", Value::Text("0.1.0".to_string()))]))]);
    match v.read("imag.version").unwrap() {
        Some(Value::Text(s)) => assert_eq!(s, "0.1.0"),
        _ => panic!("expected the version text"),
    }
    assert!(v.read("imag.absent").unwrap().is_none());
    let old = v.set("imag.version", Value::Text("0.2.0".to_string())).unwrap();
    assert!(old.is_some());
    match v.read("imag.version").unwrap() {
        Some(Value::Text(s)) => assert_eq!(s, "0.2.0"),
        _ => panic!("expected the new version text"),
    }
    v.set("fresh.deep.key", Value::Integer(5)).unwrap();
    match v.read("fresh.deep.key").unwrap() {
        Some(Value::Integer(n)) => assert_eq!(*n, 5),
        _ => panic!("expected the created integer"),
    }
    assert!(v.read("bad..path").is_err());
    assert!(v.set("imag.version.deeper", Value::Integer(1)).is_err());
}

#[test]
fn test_array_indexing_in_paths() {
    let v = table(vec![(
        "list",
        Value::Array(vec![Value::Integer(10), Value::Integer(20)]),
    )]);
    match v.read("list.1").unwrap() {
        Some(Value::Integer(n)) => assert_eq!(*n, 20),
        _ => panic!("expected the second element"),
    }
    assert!(v.read("list.2").unwrap().is_none());
}
