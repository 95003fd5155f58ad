use app_data_store::codec::{decode_app_data, encode_app_data, DecodeError};
use app_data_store::data::{AppData, InstalledMod};
use app_data_store::store::{is_corruption, read_step};

#[test]
fn corruption_classes_are_exactly_two() {
    assert!(is_corruption(DecodeError::UnexpectedEnd));
    assert!(is_corruption(DecodeError::Generic));
    assert!(!is_corruption(DecodeError::BadVarint));
    assert!(!is_corruption(DecodeError::BadOptionTag));
    assert!(!is_corruption(DecodeError::BadVariant));
}

#[test]
fn read_with_no_file_writes_and_returns_the_default() {
    let (state, write) = read_step(None).unwrap();
    assert_eq!(state, AppData::default());
    let bytes = write.expect("the default snapshot must be persisted");
    assert_eq!(decode_app_data(&bytes).unwrap(), AppData::default());
}

#[test]
fn two_reads_against_a_fresh_store_agree() {
    // first read: no file yet
    let (first, write) = read_step(None).unwrap();
    let bytes = write.unwrap();
    // second read: the file the first read asked to persist
    let (second, write2) = read_step(Some(&bytes)).unwrap();
    assert_eq!(first, second);
    assert_eq!(first, AppData::default());
    assert!(write2.is_none());
}

#[test]
fn truncated_file_is_reset_to_the_default() {
    let mut a = AppData::default();
    a.install_mod(
        3,
        InstalledMod {
            date_updated: 123,
            folder: b"Broken".to_vec(),
        },
    );
    let mut bytes = encode_app_data(&a);
    bytes.pop(); // a crash mid-write left a truncated file
    let (state, write) = read_step(Some(&bytes)).unwrap();
    assert_eq!(state, AppData::default());
    let reset = write.expect("the reset snapshot must be persisted");
    // the next read succeeds normally: recovery does not loop
    let (again, write2) = read_step(Some(&reset)).unwrap();
    assert_eq!(again, AppData::default());
    assert!(write2.is_none());
}

#[test]
fn non_corruption_decode_error_propagates_without_reset() {
    // a bad option marker is not one of the two corruption classes
    let bytes = vec![2u8];
    assert_eq!(read_step(Some(&bytes)), Err(DecodeError::BadOptionTag));
}

#[test]
fn fresh_store_then_install_then_reread() {
    // fresh environment: no storage file
    let (mut state, write) = read_step(None).unwrap();
    assert_eq!(state.installed_count(), 0);
    let first_file = write.unwrap();
    assert_eq!(decode_app_data(&first_file).unwrap(), AppData::default());

    // the caller installs mod 42 and persists
    state.install_mod(
        42,
        InstalledMod {
            date_updated: 1000,
            folder: b"ModA".to_vec(),
        },
    );
    let second_file = encode_app_data(&state);

    // a later process reads the store back
    let (reread, write2) = read_step(Some(&second_file)).unwrap();
    assert!(write2.is_none());
    assert_eq!(reread.installed_count(), 1);
    let m = reread.get_mod(42).unwrap();
    assert_eq!(m.date_updated, 1000);
    assert_eq!(m.folder, b"ModA".to_vec());
    assert_eq!(reread, state);
}
