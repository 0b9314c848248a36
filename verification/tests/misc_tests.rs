//! Tags, mail fields, the linker, the lister, and identifiers.

use imagstore::storeid::StoreId;
use imagstore::entry::Entry;
use imagstore::value::Value;
use imagstore::mail::{Mail, MailInfo, Linker, LinkerOpts, flags_to_str};
use imagstore::lister::PathLister;

fn id(s: &str) -> StoreId {
    StoreId::new_baseless(s).unwrap()
}

#[test]
fn test_storeid_rules() {
    assert!(StoreId::new_baseless("a/b/c").is_ok());
    assert!(StoreId::new_baseless("").is_err());
    assert!(StoreId::new_baseless("a//b").is_err());
    assert!(StoreId::new_baseless("a/../b").is_err());
    assert!(StoreId::new_baseless("./a").is_err());
    assert!(StoreId::new_baseless("/abs/path").is_err());
}

#[test]
fn test_storeid_equality_ignores_base() {
    let a = id("m/x");
    let b = id("m/x").with_base("/root");
    assert!(a == b);
    let c = id("m/y");
    assert!(a != c);
}

#[test]
fn test_storeid_rebase_is_idempotent() {
    let a = id("m/x").with_base("/r").with_base("/r");
    let b = id("m/x").with_base("/r");
    assert!(a == b);
    assert_eq!(a.into_pathbuf().unwrap(), "/r/m/x");
    assert_eq!(b.into_pathbuf().unwrap(), "/r/m/x");
}

#[test]
fn test_storeid_from_full_path() {
    let got = StoreId::from_full_path("/base", "/base/mod/entry").unwrap();
    assert_eq!(got.into_pathbuf().unwrap(), "/base/mod/entry");
    assert!(StoreId::from_full_path("/base", "/other/mod/entry").is_err());
}

#[test]
fn test_baseless_into_pathbuf_fails() {
    match id("x").into_pathbuf() {
        Err(e) => assert!(matches!(e.err_type(), imagstore::error::StoreErrorKind::InvalidId)),
        Ok(_) => panic!("a baseless identifier has no filesystem path"),
    }
}

#[test]
fn test_tags_on_entry() {
    let mut e = Entry::new(id("tagged"));
    assert_eq!(e.get_tags().unwrap().len(), 0);

    let tags = vec!["alpha".to_string(), "beta".to_string(), "alpha".to_string()];
    e.set_tags(&tags).unwrap();
    let got = e.get_tags().unwrap();
    assert_eq!(got, vec!["alpha".to_string(), "beta".to_string()]);

    assert!(e.has_tag("alpha").unwrap());
    assert!(!e.has_tag("gamma").unwrap());
    assert!(e.has_tags(&vec!["alpha".to_string(), "beta".to_string()]).unwrap());
    assert!(!e.has_tags(&vec!["alpha".to_string(), "gamma".to_string()]).unwrap());

    e.add_tag("gamma").unwrap();
    assert!(e.has_tag("gamma").unwrap());
    e.add_tag("gamma").unwrap();
    assert_eq!(e.get_tags().unwrap().len(), 3);

    e.remove_tag("alpha").unwrap();
    assert_eq!(e.get_tags().unwrap(), vec!["beta".to_string(), "gamma".to_string()]);

    assert!(e.add_tag("Not A Tag").is_err());
    assert!(e.set_tags(&vec!["UPPER".to_string()]).is_err());
}

#[test]
fn test_mail_fields() {
    let raw = "From: alice@example.test\r\nTo: bob@example.test\r\nSubject: greetings\r\nMessage-ID: <one@example.test>\r\n\r\nbody text\r\n";
    let mail = Mail::from_buffer(raw.to_string());
    assert_eq!(mail.get_from().unwrap(), Some("alice@example.test".to_string()));
    assert_eq!(mail.get_to().unwrap(), Some("bob@example.test".to_string()));
    assert_eq!(mail.get_subject().unwrap(), Some("greetings".to_string()));
    assert_eq!(mail.get_message_id().unwrap(), Some("<one@example.test>".to_string()));
    assert_eq!(mail.get_in_reply_to().unwrap(), None);
    assert_eq!(mail.get_field("X-Missing").unwrap(), None);
}

#[test]
fn test_linker_builds_and_runs() {
    let infos = vec![
        MailInfo { message_id: Some("<a>".to_string()), in_reply_to: None },
        MailInfo {
            message_id: Some("<b>".to_string()),
            in_reply_to: Some("<a>".to_string()),
        },
        MailInfo {
            message_id: Some("<c>".to_string()),
            in_reply_to: Some("<missing>".to_string()),
        },
    ];
    let linker = Linker::build(infos, LinkerOpts(0)).unwrap();
    let links = linker.run().unwrap();
    assert_eq!(links, vec![("<b>".to_string(), "<a>".to_string())]);
}

#[test]
fn test_linker_requires_message_ids() {
    let infos = vec![MailInfo { message_id: None, in_reply_to: None }];
    match Linker::build(infos, LinkerOpts(0)) {
        Err(e) => assert!(matches!(
            e.kind,
            imagstore::mail::LinkerErrorKind::NoMessageIdFoundError
        )),
        Ok(_) => panic!("a mail without a message identifier must be rejected"),
    }
}

#[test]
fn flags_to_str_names_each_flag() {
    assert_eq!(
        flags_to_str(&LinkerOpts(1)),
        "Ignore if there was an error while fetching the Message-Id field"
    );
    assert_eq!(
        flags_to_str(&LinkerOpts(2)),
        "Ignore if there was an error while fetching the In-Reply-To header field"
    );
    assert_eq!(flags_to_str(&LinkerOpts(4)), "Return as soon as an error occurs");
    assert_eq!(flags_to_str(&LinkerOpts(8)), "Print information if linking succeeded");
    assert_eq!(flags_to_str(&LinkerOpts(3)), "Unknown Linker option");
}

#[test]
fn test_path_lister() {
    let lister = PathLister::new(false);
    let entries = vec![
        Entry::new(id("m/one").with_base("/store")),
        Entry::new(id("m/two").with_base("/store")),
    ];
    let lines = lister.list(&entries).unwrap();
    assert_eq!(lines, vec!["/store/m/one".to_string(), "/store/m/two".to_string()]);

    let baseless = vec![Entry::new(id("m/three"))];
    assert!(lister.list(&baseless).is_err());
}

#[test]
fn test_value_scalars_round_trip() {
    let mut e = Entry::new(id("nums"));
    e.set_header_at("imag.big", Value::Integer(i64::MAX)).unwrap();
    e.set_header_at("imag.small", Value::Integer(i64::MIN)).unwrap();
    e.set_header_at("imag.zero", Value::Integer(0)).unwrap();
    e.set_header_at("imag.no", Value::Boolean(false)).unwrap();
    e.set_header_at("imag.empty", Value::Text(String::new())).unwrap();
    e.set_header_at("imag.list", Value::Array(vec![])).unwrap();
    let text = e.to_str();
    let back = Entry::from_str(id("nums"), text.as_str()).unwrap();
    assert!(e == back);
}

#[test]
fn test_serialized_shape_is_exact() {
    let mut e = Entry::new(id("shape"));
    e.set_content("body".to_string());
    e.set_header_at("imag.n", Value::Integer(7)).unwrap();
    let expected = format!(
        "---\n[imag]\nversion = \"{}\"\nn = 7\n---\nbody",
        imagstore::value::default_version()
    );
    assert_eq!(e.to_str(), expected);
}

#[test]
fn test_mail_error_kind_on_garbage() {
    // mailparse accepts most byte salads as header-less messages, so a
    // missing field is the observable outcome
    let mail = Mail::from_buffer("\u{0}\u{0}".to_string());
    let r = mail.get_field("Subject");
    match r {
        Ok(v) => assert_eq!(v, None),
        Err(e) => assert!(matches!(e.kind, imagstore::mail::MailErrorKind::MailParsingError)),
    }
}
