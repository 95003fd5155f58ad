use app_data_store::data::{AppData, BonelabPlatform};
use app_data_store::paths::{dir_path, parent_dir, state_path, HostOs, PathError};

#[test]
fn linux_state_path() {
    let home = b"/home/user".to_vec();
    let p = state_path(HostOs::Linux, Some(&home)).unwrap();
    assert_eq!(p, b"/home/user/var/lib/bonelab_mod_manager/app_data".to_vec());
}

#[test]
fn macos_dir_path() {
    let home = b"/Users/user".to_vec();
    let p = dir_path(HostOs::MacOs, Some(&home)).unwrap();
    assert_eq!(
        p,
        b"/Users/user/Library/Application Support/com.valentinegb.bonelab_mod_manager".to_vec()
    );
}

#[test]
fn windows_state_path() {
    let appdata = b"C:\\Users\\user\\AppData\\Roaming".to_vec();
    let p = state_path(HostOs::Windows, Some(&appdata)).unwrap();
    assert_eq!(
        p,
        b"C:\\Users\\user\\AppData\\Roaming/bonelab_mod_manager/app_data".to_vec()
    );
}

#[test]
fn missing_variable_fails_every_resolution() {
    assert_eq!(
        dir_path(HostOs::Linux, None),
        Err(PathError::EnvironmentMissing)
    );
    assert_eq!(
        state_path(HostOs::MacOs, None),
        Err(PathError::EnvironmentMissing)
    );
    let a = AppData::default();
    assert_eq!(
        a.mods_dir_path(HostOs::Linux, None),
        Err(PathError::EnvironmentMissing)
    );
}

#[test]
fn windows_mods_dir_needs_platform_first() {
    let a = AppData::default();
    // the variant check comes before the environment is even looked at
    assert_eq!(
        a.mods_dir_path(HostOs::Windows, None),
        Err(PathError::PlatformNotSet)
    );
    let appdata = b"C:\\Users\\user\\AppData\\Roaming".to_vec();
    assert_eq!(
        a.mods_dir_path(HostOs::Windows, Some(&appdata)),
        Err(PathError::PlatformNotSet)
    );
}

#[test]
fn quest_mods_dir_ends_in_mods() {
    let mut a = AppData::default();
    a.set_platform(Some(BonelabPlatform::Quest));
    let appdata = b"C:\\Users\\user\\AppData\\Roaming".to_vec();
    let p = a.mods_dir_path(HostOs::Windows, Some(&appdata)).unwrap();
    assert!(p.ends_with(b"Mods"));
    assert_eq!(
        p,
        b"C:\\Users\\user\\AppData\\Roaming/bonelab_mod_manager/Mods".to_vec()
    );
}

#[test]
fn unix_mods_dir_ends_in_mods() {
    let a = AppData::default();
    let home = b"/home/user".to_vec();
    let p = a.mods_dir_path(HostOs::Linux, Some(&home)).unwrap();
    assert!(p.ends_with(b"Mods"));
    assert_eq!(p, b"/home/user/var/lib/bonelab_mod_manager/Mods".to_vec());
}

#[test]
fn windows_desktop_mods_dir_is_beside_the_data_root() {
    let mut a = AppData::default();
    a.set_platform(Some(BonelabPlatform::Windows));
    let appdata = b"C:\\Users\\user\\AppData\\Roaming".to_vec();
    let p = a.mods_dir_path(HostOs::Windows, Some(&appdata)).unwrap();
    assert_eq!(
        p,
        b"C:\\Users\\user\\AppData/Locallow/Stress Level Zero/Bonelab/Mods".to_vec()
    );
}

#[test]
fn windows_desktop_mods_dir_without_parent_fails() {
    let mut a = AppData::default();
    a.set_platform(Some(BonelabPlatform::Windows));
    let appdata = b"Roaming".to_vec();
    assert_eq!(
        a.mods_dir_path(HostOs::Windows, Some(&appdata)),
        Err(PathError::NoParent)
    );
}

#[test]
fn parent_dir_strips_the_last_component() {
    assert_eq!(
        parent_dir(&b"/home/user".to_vec()),
        Some(b"/home".to_vec())
    );
    assert_eq!(
        parent_dir(&b"C:\\Users\\user".to_vec()),
        Some(b"C:\\Users".to_vec())
    );
    assert_eq!(parent_dir(&b"plain".to_vec()), None);
}

#[test]
fn parent_dir_of_trailing_separator_keeps_the_rest() {
    assert_eq!(
        parent_dir(&b"/home/user/".to_vec()),
        Some(b"/home/user".to_vec())
    );
}

#[test]
fn macos_mods_dir() {
    let a = AppData::default();
    let home = b"/Users/user".to_vec();
    let p = a.mods_dir_path(HostOs::MacOs, Some(&home)).unwrap();
    assert_eq!(
        p,
        b"/Users/user/Library/Application Support/com.valentinegb.bonelab_mod_manager/Mods"
            .to_vec()
    );
}
