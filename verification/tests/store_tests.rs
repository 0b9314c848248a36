//! Store operations over the in-memory backing storage.

use imagstore::store::Store;
use imagstore::hook::HookPosition;
use imagstore::storeid::StoreId;
use imagstore::error::StoreErrorKind;

fn get_store() -> Store {
    Store::new("/", None).unwrap()
}

fn id(s: &str) -> StoreId {
    StoreId::new_baseless(s).unwrap()
}

#[test]
fn test_store_instantiation() {
    let store = get_store();
    assert_eq!(store.path(), "/");
    assert!(store.cache_status(&id("anything")).is_none());
    let positions = [
        HookPosition::StoreUnload,
        HookPosition::PreCreate,
        HookPosition::PostCreate,
        HookPosition::PreRetrieve,
        HookPosition::PostRetrieve,
        HookPosition::PreUpdate,
        HookPosition::PostUpdate,
        HookPosition::PreDelete,
        HookPosition::PostDelete,
        HookPosition::PreMove,
        HookPosition::PostMove,
    ];
    for p in positions {
        assert_eq!(store.aspect_count(p), 0);
    }
}

#[test]
fn test_store_create() {
    let mut store = get_store();
    for n in 1..100 {
        let s = format!("test-{}", n);
        let entry = store.create(id(&s)).unwrap();
        assert!(entry.verify().is_ok());
        let loc = entry.get_location().into_pathbuf().unwrap();
        assert!(loc.starts_with("/"));
        assert!(loc.ends_with(&s));
        store.release(entry).unwrap();
    }
}

#[test]
fn test_store_get_create_get_delete_get() {
    let mut store = get_store();

    for n in 1..100 {
        let res = store.get(id(&format!("test-{}", n)));
        assert!(match res {
            Ok(None) => true,
            _ => false,
        })
    }

    for n in 1..100 {
        let s = format!("test-{}", n);
        let entry = store.create(id(&s)).unwrap();
        assert!(entry.verify().is_ok());
        let loc = entry.get_location().into_pathbuf().unwrap();
        assert!(loc.starts_with("/"));
        assert!(loc.ends_with(&s));
        store.release(entry).unwrap();
    }

    for n in 1..100 {
        let res = store.get(id(&format!("test-{}", n)));
        match res {
            Ok(Some(fle)) => store.release(fle).unwrap(),
            _ => panic!("expected a present entry"),
        }
    }

    for n in 1..100 {
        assert!(store.delete(id(&format!("test-{}", n))).is_ok())
    }

    for n in 1..100 {
        let res = store.get(id(&format!("test-{}", n)));
        assert!(match res {
            Ok(None) => true,
            _ => false,
        })
    }
}

#[test]
fn test_store_create_twice() {
    let mut store = get_store();
    for n in 1..100 {
        let s = format!("test-{}", n % 50);
        match store.create(id(&s)) {
            Err(e) => {
                assert!(matches!(e.err_type(), StoreErrorKind::CreateCallError) && n >= 50)
            },
            Ok(entry) => {
                assert!(entry.verify().is_ok());
                let loc = entry.get_location().into_pathbuf().unwrap();
                assert!(loc.starts_with("/"));
                assert!(loc.ends_with(&s));
                store.release(entry).unwrap();
            },
        }
    }
}

#[test]
fn test_store_create_in_hm() {
    let mut store = get_store();
    for n in 1..100 {
        let pb = id(&format!("test-{}", n));
        assert!(store.cache_status(&pb).is_none());
        let fle = store.create(StoreId::new_baseless(&format!("test-{}", n)).unwrap()).unwrap();
        store.release(fle).unwrap();
        assert!(store.cache_status(&pb).is_some());
    }
}

#[test]
fn test_store_retrieve_in_hm() {
    let mut store = get_store();
    for n in 1..100 {
        let pb = id(&format!("test-{}", n));
        assert!(store.cache_status(&pb).is_none());
        let fle = store.retrieve(StoreId::new_baseless(&format!("test-{}", n)).unwrap()).unwrap();
        store.release(fle).unwrap();
        assert!(store.cache_status(&pb).is_some());
    }
}

#[test]
fn test_get_none() {
    let mut store = get_store();
    for n in 1..100 {
        match store.get(id(&format!("test-{}", n))) {
            Ok(None) => assert!(true),
            _ => assert!(false),
        }
    }
}

#[test]
fn test_delete_none() {
    let mut store = get_store();
    for n in 1..100 {
        match store.delete(id(&format!("test-{}", n))) {
            Err(_) => assert!(true),
            _ => assert!(false),
        }
    }
}

#[test]
fn test_store_move_moves_in_hm() {
    let mut store = get_store();
    for n in 1..100 {
        if n % 2 == 0 {
            let idv = id(&format!("t-{}", n));
            let id_mv = id(&format!("t-{}", n - 1));

            assert!(store.cache_status(&idv).is_none());

            let fle = store.create(id(&format!("t-{}", n))).unwrap();
            store.release(fle).unwrap();

            assert!(store.cache_status(&idv).is_some());

            let r = store.move_by_id(id(&format!("t-{}", n)), id(&format!("t-{}", n - 1)));
            assert!(r.is_ok());

            assert!(store.cache_status(&id_mv).is_some());

            match store.get(id(&format!("t-{}", n))) {
                Ok(None) => {},
                _ => panic!("the moved identifier is still there"),
            }
            match store.get(id(&format!("t-{}", n - 1))) {
                Ok(Some(fle)) => store.release(fle).unwrap(),
                _ => panic!("the new identifier is not in the store"),
            }
        }
    }
}

#[test]
fn test_delete_while_borrowed_is_locked() {
    let mut store = get_store();
    let fle = store.create(id("busy")).unwrap();
    match store.delete(id("busy")) {
        Err(e) => {
            assert!(matches!(e.err_type(), StoreErrorKind::DeleteCallError));
            match e.cause() {
                Some(c) => assert!(matches!(c.err_type(), StoreErrorKind::IdLocked)),
                None => panic!("expected a cause"),
            }
        },
        Ok(_) => panic!("deleting a borrowed entry must fail"),
    }
    store.release(fle).unwrap();
    assert!(store.delete(id("busy")).is_ok());
}

#[test]
fn test_retrieve_borrowed_fails() {
    let mut store = get_store();
    let fle = store.create(id("twice")).unwrap();
    match store.retrieve(id("twice")) {
        Err(e) => {
            assert!(matches!(e.err_type(), StoreErrorKind::RetrieveCallError));
            match e.cause() {
                Some(c) => assert!(matches!(c.err_type(), StoreErrorKind::EntryAlreadyBorrowed)),
                None => panic!("expected a cause"),
            }
        },
        Ok(_) => panic!("retrieving a borrowed entry must fail"),
    }
    store.release(fle).unwrap();
}

#[test]
fn test_retrieve_copy_of_borrowed_is_locked() {
    let mut store = get_store();
    let fle = store.create(id("held")).unwrap();
    match store.retrieve_copy(id("held")) {
        Err(e) => assert!(matches!(e.err_type(), StoreErrorKind::RetrieveCopyCallError)),
        Ok(_) => panic!("copying a borrowed entry must fail"),
    }
    store.release(fle).unwrap();
    let copy = store.retrieve_copy(id("held")).unwrap();
    assert!(copy.verify().is_ok());
}

#[test]
fn test_save_to_and_save_as() {
    let mut store = get_store();
    let mut fle = store.create(id("orig")).unwrap();
    fle.set_content("payload".to_string());
    store.update(&mut fle).unwrap();

    store.save_to(&fle, id("copy")).unwrap();
    store.release(fle).unwrap();

    match store.get(id("copy")) {
        Ok(Some(c)) => {
            assert_eq!(c.get_content(), "payload");
            store.release(c).unwrap();
        },
        _ => panic!("the copy is missing"),
    }

    let fle2 = match store.get(id("orig")) {
        Ok(Some(f)) => f,
        _ => panic!("the original is missing"),
    };
    match store.save_as(fle2, id("copy")) {
        Err(e) => assert!(matches!(e.err_type(), StoreErrorKind::MoveCallError)),
        Ok(_) => panic!("saving onto an existing identifier must fail"),
    }
}

#[test]
fn test_content_survives_release() {
    let mut store = get_store();
    let mut fle = store.create(id("keep")).unwrap();
    fle.set_content("remembered".to_string());
    store.release(fle).unwrap();
    match store.get(id("keep")) {
        Ok(Some(f)) => {
            assert_eq!(f.get_content(), "remembered");
            store.release(f).unwrap();
        },
        _ => panic!("the entry is missing"),
    }
}

#[test]
fn test_retrieve_for_module_and_walk() {
    let mut store = get_store();
    for p in ["foo/1", "foo/2", "bar/1"] {
        let fle = store.create(id(p)).unwrap();
        store.release(fle).unwrap();
    }
    let mut it = store.retrieve_for_module("foo").unwrap();
    assert_eq!(it.remaining(), 2);
    let first = it.next().unwrap();
    assert_eq!(first.into_pathbuf().unwrap(), "/foo/1");
    let second = it.next().unwrap();
    assert_eq!(second.into_pathbuf().unwrap(), "/foo/2");
    assert!(it.next().is_none());

    let mut walk = store.walk("bar");
    match walk.next() {
        Some(imagstore::store::StoreObject::Collection(dir)) => assert_eq!(dir, "/bar"),
        _ => panic!("expected the module collection first"),
    }
    match walk.next() {
        Some(imagstore::store::StoreObject::Id(wid)) => {
            assert_eq!(wid.into_pathbuf().unwrap(), "/bar/1")
        },
        _ => panic!("expected the entry"),
    }
    assert!(walk.next().is_none());
}

#[test]
fn test_store_verify() {
    let mut store = get_store();
    assert!(store.verify());
    let fle = store.create(id("ok")).unwrap();
    store.release(fle).unwrap();
    assert!(store.verify());
}

#[test]
fn test_bad_configuration_is_rejected() {
    let cfg = imagstore::value::Value::Table(vec![(
        "pre-create-hook-aspects".to_string(),
        imagstore::value::Value::Boolean(true),
    )]);
    match Store::new("/", Some(cfg)) {
        Err(e) => assert!(matches!(e.err_type(), StoreErrorKind::ConfigurationError)),
        Ok(_) => panic!("an ill-typed configuration must be rejected"),
    }
}
