//! Tests of the atomic-replace write discipline over the file-store model.

use tintanum::FileStore;
use tintanum::RewriteError;
use tintanum::SchemePreference;
use tintanum::WriteFault;

const GOOD: &str = "# one #[dark]\ntwo #[light]\nother\n";

fn store_with(content: &str) -> FileStore {
    FileStore { target: Some(content.as_bytes().to_vec()), temp: None }
}

#[test]
fn successful_rewrite_replaces_the_target() {
    let mut store = store_with(GOOD);
    let r = store.write_updated_config(SchemePreference::Dark, WriteFault::NoFault);
    assert!(r.is_ok());
    assert_eq!(
        store.target,
        Some(b"one #[dark]\n# two #[light]\nother\n".to_vec())
    );
    assert!(store.temp.is_none());
}

#[test]
fn write_failure_leaves_the_target_untouched() {
    let mut store = store_with(GOOD);
    let r = store.write_updated_config(SchemePreference::Dark, WriteFault::WriteFails);
    assert!(matches!(r, Err(RewriteError::Io)));
    assert_eq!(store.target, Some(GOOD.as_bytes().to_vec()));
    assert!(store.temp.is_none());
}

#[test]
fn rename_failure_leaves_the_target_untouched() {
    let mut store = store_with(GOOD);
    let r = store.write_updated_config(SchemePreference::Dark, WriteFault::RenameFails);
    assert!(matches!(r, Err(RewriteError::Io)));
    assert_eq!(store.target, Some(GOOD.as_bytes().to_vec()));
    assert!(store.temp.is_none());
}

#[test]
fn create_failure_leaves_the_target_untouched() {
    let mut store = store_with(GOOD);
    let r = store.write_updated_config(SchemePreference::Dark, WriteFault::CreateFails);
    assert!(matches!(r, Err(RewriteError::Io)));
    assert_eq!(store.target, Some(GOOD.as_bytes().to_vec()));
    assert!(store.temp.is_none());
}

#[test]
fn missing_tag_aborts_and_cleans_up() {
    let content = "two #[light]\nother\n";
    let mut store = store_with(content);
    let r = store.write_updated_config(SchemePreference::Dark, WriteFault::NoFault);
    match r {
        Err(RewriteError::TagNotFound { tag }) => assert_eq!(tag, b"#[dark]".to_vec()),
        _ => panic!("expected a missing tag"),
    }
    assert_eq!(store.target, Some(content.as_bytes().to_vec()));
    assert!(store.temp.is_none());
}

#[test]
fn missing_target_is_reported() {
    let mut store = FileStore { target: None, temp: None };
    let r = store.write_updated_config(SchemePreference::Dark, WriteFault::NoFault);
    assert!(matches!(r, Err(RewriteError::NotFound)));
    assert!(store.target.is_none());
    assert!(store.temp.is_none());
}
