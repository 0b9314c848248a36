//! Hook pipelines around every store operation.

use imagstore::store::Store;
use imagstore::hook::HookPosition;
use imagstore::storeid::StoreId;
use imagstore::hook::{Hook, HookBehavior, HookShape};
use imagstore::value::Value;
use imagstore::error::StoreErrorKind;

fn text(s: &str) -> Value {
    Value::Text(s.to_string())
}

fn aspect_list() -> Value {
    Value::Array(vec![text("test")])
}

fn mini_config() -> Value {
    let aspect_cfg = Value::Table(vec![
        ("parallel".to_string(), Value::Boolean(false)),
        ("mutable_hooks".to_string(), Value::Boolean(true)),
    ]);
    let hook_cfg = Value::Table(vec![("aspect".to_string(), text("test"))]);
    Value::Table(vec![
        ("store-unload-hook-aspects".to_string(), aspect_list()),
        ("pre-create-hook-aspects".to_string(), aspect_list()),
        ("post-create-hook-aspects".to_string(), aspect_list()),
        ("pre-move-hook-aspects".to_string(), aspect_list()),
        ("post-move-hook-aspects".to_string(), aspect_list()),
        ("pre-retrieve-hook-aspects".to_string(), aspect_list()),
        ("post-retrieve-hook-aspects".to_string(), aspect_list()),
        ("pre-update-hook-aspects".to_string(), aspect_list()),
        ("post-update-hook-aspects".to_string(), aspect_list()),
        ("pre-delete-hook-aspects".to_string(), aspect_list()),
        ("post-delete-hook-aspects".to_string(), aspect_list()),
        (
            "aspects".to_string(),
            Value::Table(vec![("test".to_string(), aspect_cfg)]),
        ),
        (
            "hooks".to_string(),
            Value::Table(vec![("testhook_succeeding".to_string(), hook_cfg)]),
        ),
    ])
}

fn get_store_with_config() -> Store {
    Store::new("/", Some(mini_config())).unwrap()
}

fn test_hook(succeed: bool, error_aborting: bool) -> Hook {
    let behavior = if succeed {
        HookBehavior::Succeed
    } else if error_aborting {
        HookBehavior::ErrorAborting
    } else {
        HookBehavior::ErrorContinuing
    };
    Hook::new("testhook_succeeding", behavior, HookShape::Both)
}

fn id(s: &str) -> StoreId {
    StoreId::new_baseless(s).unwrap()
}

fn test_hook_execution(hook_positions: &[HookPosition], storeid_name: &str) {
    let mut store = get_store_with_config();

    for pos in hook_positions {
        let hook = test_hook(true, false);
        assert!(store.register_hook(*pos, "test", hook).is_ok());
    }

    let pb = id(storeid_name);
    let pb_moved = id(&format!("{}-moved", storeid_name));

    let created = store.create(id(storeid_name)).unwrap();
    store.release(created).unwrap();

    match store.get(id(storeid_name)) {
        Ok(Some(fle)) => store.release(fle).unwrap(),
        _ => panic!("expected the created entry"),
    }

    match store.get(id(&format!("{}-moved", storeid_name))) {
        Ok(None) => {},
        _ => panic!("expected no entry at the target yet"),
    }

    assert!(store
        .move_by_id(id(storeid_name), id(&format!("{}-moved", storeid_name)))
        .is_ok());

    match store.get(pb) {
        Ok(None) => {},
        _ => panic!("expected the source to be gone"),
    }

    match store.get(id(&format!("{}-moved", storeid_name))) {
        Ok(Some(fle)) => store.release(fle).unwrap(),
        _ => panic!("expected the moved entry"),
    }

    match store.get(pb_moved) {
        Ok(Some(mut fle)) => {
            assert!(store.update(&mut fle).is_ok());
            store.release(fle).unwrap();
        },
        _ => panic!("expected the moved entry for updating"),
    }

    assert!(store.delete(id(&format!("{}-moved", storeid_name))).is_ok());
}

#[test]
fn test_storeunload() {
    test_hook_execution(&[HookPosition::StoreUnload], "test_storeunload");
}

#[test]
fn test_precreate() {
    test_hook_execution(&[HookPosition::PreCreate], "test_precreate");
}

#[test]
fn test_postcreate() {
    test_hook_execution(&[HookPosition::PostCreate], "test_postcreate");
}

#[test]
fn test_preretrieve() {
    test_hook_execution(&[HookPosition::PreRetrieve], "test_preretrieve");
}

#[test]
fn test_postretrieve() {
    test_hook_execution(&[HookPosition::PostRetrieve], "test_postretrieve");
}

#[test]
fn test_preupdate() {
    test_hook_execution(&[HookPosition::PreUpdate], "test_preupdate");
}

#[test]
fn test_postupdate() {
    test_hook_execution(&[HookPosition::PostUpdate], "test_postupdate");
}

#[test]
fn test_predelete() {
    test_hook_execution(&[HookPosition::PreDelete], "test_predelete");
}

#[test]
fn test_postdelete() {
    test_hook_execution(&[HookPosition::PostDelete], "test_postdelete");
}

#[test]
fn test_multiple_same_position() {
    let positions = [
        HookPosition::StoreUnload,
        HookPosition::PreCreate,
        HookPosition::PostCreate,
        HookPosition::PreRetrieve,
        HookPosition::PostRetrieve,
        HookPosition::PreUpdate,
        HookPosition::PostUpdate,
        HookPosition::PreDelete,
        HookPosition::PostDelete,
    ];
    for position in positions.iter() {
        for n in 2..10 {
            let mut v = Vec::with_capacity(n);
            for _ in 0..n {
                v.push(*position);
            }
            test_hook_execution(&v, "test_multiple_same_position");
        }
    }
}

fn get_store_with_aborting_hook_at_pos(pos: HookPosition) -> Store {
    let mut store = get_store_with_config();
    let hook = test_hook(false, true);
    assert!(store.register_hook(pos, "test", hook).is_ok());
    store
}

#[test]
fn test_pre_create_error() {
    let storeid = id("test_pre_create_error");
    let mut store = get_store_with_aborting_hook_at_pos(HookPosition::PreCreate);
    assert!(store.create(storeid).is_err());
}

#[test]
fn test_pre_retrieve_error() {
    let storeid = id("test_pre_retrieve_error");
    let mut store = get_store_with_aborting_hook_at_pos(HookPosition::PreRetrieve);
    assert!(store.retrieve(storeid).is_err());
}

#[test]
fn test_pre_delete_error() {
    let storeid = id("test_pre_delete_error");
    let mut store = get_store_with_aborting_hook_at_pos(HookPosition::PreDelete);
    assert!(store.delete(storeid).is_err());
}

#[test]
fn test_pre_update_error() {
    let storeid = id("test_pre_update_error");
    let mut store = get_store_with_aborting_hook_at_pos(HookPosition::PreUpdate);
    let mut fle = store.create(storeid).unwrap();
    assert!(store.update(&mut fle).is_err());
}

#[test]
fn test_post_create_error() {
    let mut store = get_store_with_aborting_hook_at_pos(HookPosition::PostCreate);
    let pb = id("test_post_create_error");
    assert!(store.create(id("test_post_create_error")).is_err());
    // the entry survives the failing post-create hook
    assert!(store.cache_status(&pb).is_some());
}

#[test]
fn test_post_retrieve_error() {
    let mut store = get_store_with_aborting_hook_at_pos(HookPosition::PostRetrieve);
    let pb = id("test_post_retrieve_error");
    assert!(store.retrieve(id("test_post_retrieve_error")).is_err());
    // the entry survives the failing post-retrieve hook
    assert!(store.cache_status(&pb).is_some());
}

#[test]
fn test_post_delete_error() {
    let mut store = get_store_with_aborting_hook_at_pos(HookPosition::PostDelete);
    let pb = id("test_post_delete_error");

    let fle = store.create(id("test_post_delete_error")).unwrap();
    store.release(fle).unwrap();
    assert!(store.cache_status(&pb).is_some());

    assert!(store.delete(id("test_post_delete_error")).is_err());
    // but the entry is removed, as the failure is post-delete
    assert!(store.cache_status(&pb).is_none());
}

#[test]
fn test_post_update_error() {
    let mut store = get_store_with_aborting_hook_at_pos(HookPosition::PostUpdate);
    let pb = id("test_post_update_error");
    let mut fle = store.create(id("test_post_update_error")).unwrap();
    assert!(store.cache_status(&pb).is_some());
    assert!(store.update(&mut fle).is_err());
}

fn get_store_with_allowed_error_hook_at_pos(pos: HookPosition) -> Store {
    let mut store = get_store_with_config();
    let hook = test_hook(false, false);
    assert!(store.register_hook(pos, "test", hook).is_ok());
    store
}

#[test]
fn test_pre_create_allowed_error() {
    let storeid = id("test_pre_create_allowed_error");
    let mut store = get_store_with_allowed_error_hook_at_pos(HookPosition::PreCreate);
    assert!(store.create(storeid).is_ok());
    // the continuing error did not veto: the entry is resident
    assert!(store.cache_status(&id("test_pre_create_allowed_error")).is_some());
}

#[test]
fn test_pre_retrieve_allowed_error() {
    let storeid = id("test_pre_retrieve_allowed_error");
    let mut store = get_store_with_allowed_error_hook_at_pos(HookPosition::PreRetrieve);
    assert!(store.retrieve(storeid).is_ok());
}

#[test]
fn test_pre_delete_allowed_error() {
    let storeid = id("test_pre_delete_allowed_error");
    let mut store = get_store_with_allowed_error_hook_at_pos(HookPosition::PreDelete);
    let fle = store.retrieve(id("test_pre_delete_allowed_error")).unwrap();
    store.release(fle).unwrap();
    assert!(store.delete(storeid).is_ok());
}

#[test]
fn test_pre_update_allowed_error() {
    let storeid = id("test_pre_update_allowed_error");
    let mut store = get_store_with_allowed_error_hook_at_pos(HookPosition::PreUpdate);
    let mut fle = store.create(storeid).unwrap();
    assert!(store.update(&mut fle).is_ok());
}

#[test]
fn test_post_create_allowed_error() {
    let mut store = get_store_with_allowed_error_hook_at_pos(HookPosition::PostCreate);
    let pb = id("test_pre_create_allowed_error");
    assert!(store.create(id("test_pre_create_allowed_error")).is_ok());
    assert!(store.cache_status(&pb).is_some());
}

#[test]
fn test_post_retrieve_allowed_error() {
    let mut store = get_store_with_allowed_error_hook_at_pos(HookPosition::PostRetrieve);
    let pb = id("test_pre_retrieve_allowed_error");
    assert!(store.retrieve(id("test_pre_retrieve_allowed_error")).is_ok());
    assert!(store.cache_status(&pb).is_some());
}

#[test]
fn test_post_delete_allowed_error() {
    let mut store = get_store_with_allowed_error_hook_at_pos(HookPosition::PostDelete);
    let pb = id("test_post_delete_allowed_error");

    let fle = store.create(id("test_post_delete_allowed_error")).unwrap();
    store.release(fle).unwrap();
    assert!(store.cache_status(&pb).is_some());

    assert!(store.delete(id("test_post_delete_allowed_error")).is_ok());
    assert!(store.cache_status(&pb).is_none());
}

#[test]
fn test_post_update_allowed_error() {
    let mut store = get_store_with_allowed_error_hook_at_pos(HookPosition::PostUpdate);
    let pb = id("test_pre_update_allowed_error");
    let mut fle = store.create(id("test_pre_update_allowed_error")).unwrap();
    assert!(store.cache_status(&pb).is_some());
    assert!(store.update(&mut fle).is_ok());
}

#[test]
fn test_aborting_pre_create_leaves_no_record() {
    let mut store = get_store_with_aborting_hook_at_pos(HookPosition::PreCreate);
    let pb = id("vetoed");
    match store.create(id("vetoed")) {
        Err(e) => {
            assert!(matches!(e.err_type(), StoreErrorKind::CreateCallError));
            match e.cause() {
                Some(c1) => {
                    assert!(matches!(c1.err_type(), StoreErrorKind::HookExecutionError));
                    match c1.cause() {
                        Some(c2) => assert!(matches!(
                            c2.err_type(),
                            StoreErrorKind::PreHookExecuteError
                        )),
                        None => panic!("expected the pre-hook stage in the chain"),
                    }
                },
                None => panic!("expected a cause chain"),
            }
        },
        Ok(_) => panic!("the aborting hook must veto the create"),
    }
    assert!(store.cache_status(&pb).is_none());
}

#[test]
fn test_hook_call_order_stops_at_abort() {
    let mut store = get_store_with_config();
    assert!(store
        .register_hook(HookPosition::PreCreate, "test", test_hook(true, false))
        .is_ok());
    assert!(store
        .register_hook(HookPosition::PreCreate, "test", test_hook(false, true))
        .is_ok());
    assert!(store
        .register_hook(HookPosition::PreCreate, "test", test_hook(true, false))
        .is_ok());
    assert!(store.create(id("x")).is_err());
    // aspect name that is not configured
    match store.register_hook(HookPosition::PreCreate, "unknown", test_hook(true, false)) {
        Err(e) => assert!(matches!(e.err_type(), StoreErrorKind::HookRegisterError)),
        Ok(_) => panic!("an unknown aspect must be rejected"),
    }
}

#[test]
fn test_hook_counters_record_the_executed_prefix() {
    let mut store = get_store_with_config();
    assert!(store
        .register_hook(HookPosition::PreCreate, "test", test_hook(true, false))
        .is_ok());
    assert!(store
        .register_hook(HookPosition::PreCreate, "test", test_hook(false, true))
        .is_ok());
    assert!(store
        .register_hook(HookPosition::PreCreate, "test", test_hook(true, false))
        .is_ok());
    assert_eq!(store.hook_call_counts(HookPosition::PreCreate), vec![0, 0, 0]);
    assert!(store.create(id("x")).is_err());
    // hooks run in registration order up to and including the aborting
    // one; the hook after it never sees the input
    assert_eq!(store.hook_call_counts(HookPosition::PreCreate), vec![1, 1, 0]);
    assert!(store.create(id("y")).is_err());
    assert_eq!(store.hook_call_counts(HookPosition::PreCreate), vec![2, 2, 0]);
}

#[test]
fn test_close_runs_unload_pipeline() {
    let mut store = get_store_with_config();
    assert!(store
        .register_hook(HookPosition::StoreUnload, "test", test_hook(false, true))
        .is_ok());
    assert!(store.close().is_err());
}
