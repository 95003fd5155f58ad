use app_data_store::data::{AppData, BonelabPlatform, InstalledMod};

#[test]
fn platform_from_index() {
    assert_eq!(
        BonelabPlatform::try_from_index(0),
        Some(BonelabPlatform::Windows)
    );
    assert_eq!(
        BonelabPlatform::try_from_index(1),
        Some(BonelabPlatform::Quest)
    );
    assert_eq!(BonelabPlatform::try_from_index(2), None);
    assert_eq!(BonelabPlatform::try_from_index(usize::MAX), None);
}

#[test]
fn platform_names() {
    assert_eq!(BonelabPlatform::Windows.name(), "Windows");
    assert_eq!(BonelabPlatform::Quest.name(), "Quest");
}

#[test]
fn default_state_is_empty() {
    let a = AppData::default();
    assert_eq!(a.installed_count(), 0);
    assert_eq!(*a.modio_token(), None);
    assert_eq!(a.platform(), None);
    assert!(a.get_mod(42).is_none());
}

#[test]
fn token_and_platform_can_be_set_and_cleared() {
    let mut a = AppData::default();
    a.set_modio_token(Some(b"secret".to_vec()));
    a.set_platform(Some(BonelabPlatform::Windows));
    assert_eq!(*a.modio_token(), Some(b"secret".to_vec()));
    assert_eq!(a.platform(), Some(BonelabPlatform::Windows));
    a.set_modio_token(None);
    a.set_platform(None);
    assert_eq!(*a.modio_token(), None);
    assert_eq!(a.platform(), None);
}

#[test]
fn installing_same_identifier_twice_replaces_the_record() {
    let mut a = AppData::default();
    a.install_mod(
        42,
        InstalledMod {
            date_updated: 1000,
            folder: b"ModA".to_vec(),
        },
    );
    a.install_mod(
        7,
        InstalledMod {
            date_updated: 50,
            folder: b"Other".to_vec(),
        },
    );
    assert_eq!(a.installed_count(), 2);

    a.install_mod(
        42,
        InstalledMod {
            date_updated: 2000,
            folder: b"ModA-v2".to_vec(),
        },
    );
    // the table did not grow, the record was replaced, the rest untouched
    assert_eq!(a.installed_count(), 2);
    let m = a.get_mod(42).unwrap();
    assert_eq!(m.date_updated, 2000);
    assert_eq!(m.folder, b"ModA-v2".to_vec());
    let other = a.get_mod(7).unwrap();
    assert_eq!(other.date_updated, 50);
    assert_eq!(other.folder, b"Other".to_vec());
}

#[test]
fn removing_a_mod_deletes_only_its_entry() {
    let mut a = AppData::default();
    a.install_mod(
        1,
        InstalledMod {
            date_updated: 10,
            folder: b"One".to_vec(),
        },
    );
    a.install_mod(
        2,
        InstalledMod {
            date_updated: 20,
            folder: b"Two".to_vec(),
        },
    );
    a.remove_mod(1);
    assert_eq!(a.installed_count(), 1);
    assert!(a.get_mod(1).is_none());
    assert!(a.get_mod(2).is_some());
    // removing an absent identifier changes nothing
    a.remove_mod(99);
    assert_eq!(a.installed_count(), 1);
}

#[test]
fn installed_mods_lists_entries() {
    let mut a = AppData::default();
    a.install_mod(
        5,
        InstalledMod {
            date_updated: 77,
            folder: b"F".to_vec(),
        },
    );
    let entries = a.installed_mods();
    assert_eq!(entries.len(), 1);
    assert_eq!(entries[0].0, 5);
    assert_eq!(entries[0].1.date_updated, 77);
}
