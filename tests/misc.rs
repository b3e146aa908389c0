use schemajs::dirs::{get_base_path, BASE_SCHEME_JS_FOLDER};
use schemajs::index_data_unit::IndexDataUnit;
use schemajs::key_order::compare_keys;
use std::path::PathBuf;

#[test]
fn given_base_path_is_kept() {
    let p = PathBuf::from("/tmp/somewhere");
    assert_eq!(get_base_path(Some(p.clone())), Some(p));
}

#[test]
fn default_base_path_ends_in_data_folder() {
    if let Some(p) = get_base_path(None) {
        assert!(p.ends_with(BASE_SCHEME_JS_FOLDER));
        assert_ne!(p, PathBuf::from(BASE_SCHEME_JS_FOLDER));
    }
}

#[test]
fn keys_compare_lexicographically() {
    assert!(compare_keys(&b"abc".to_vec(), &b"abd".to_vec()) < 0);
    assert!(compare_keys(&b"ab".to_vec(), &b"abc".to_vec()) < 0);
    assert_eq!(compare_keys(&b"abc".to_vec(), &b"abc".to_vec()), 0);
    assert!(compare_keys(&b"b".to_vec(), &b"abc".to_vec()) > 0);
    assert_eq!(compare_keys(&vec![], &vec![]), 0);
}

#[test]
fn data_units_round_trip() {
    let unit = IndexDataUnit::new(vec![1, 2, 3]);
    let bytes = unit.to_bytes();
    assert_eq!(bytes, vec![3, 0, 0, 0, 0, 0, 0, 0, 1, 2, 3]);
    assert_eq!(IndexDataUnit::try_from_bytes(&bytes).unwrap().data, vec![1, 2, 3]);
    assert!(IndexDataUnit::try_from_bytes(&bytes[..10]).is_none());
    assert!(IndexDataUnit::try_from_bytes(&[1, 2]).is_none());
}
