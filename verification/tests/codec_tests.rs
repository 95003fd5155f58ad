use app_data_store::codec::{
    dec_varint_at, decode_app_data, enc_varint, encode_app_data, DecodeError,
};
use app_data_store::data::{AppData, BonelabPlatform, InstalledMod};

fn sample_state() -> AppData {
    let mut a = AppData::default();
    a.set_modio_token(Some(b"token-12345".to_vec()));
    a.set_platform(Some(BonelabPlatform::Quest));
    a.install_mod(
        42,
        InstalledMod {
            date_updated: 1000,
            folder: b"ModA".to_vec(),
        },
    );
    a.install_mod(
        7,
        InstalledMod {
            date_updated: u64::MAX,
            folder: b"Another Mod".to_vec(),
        },
    );
    a
}

#[test]
fn round_trip_default() {
    let a = AppData::default();
    let bytes = encode_app_data(&a);
    let b = decode_app_data(&bytes).unwrap();
    assert_eq!(a, b);
}

#[test]
fn round_trip_full_state() {
    let a = sample_state();
    let bytes = encode_app_data(&a);
    let b = decode_app_data(&bytes).unwrap();
    assert_eq!(a, b);
}

#[test]
fn default_encodes_to_three_zero_bytes() {
    // no token, no platform, zero entries
    assert_eq!(encode_app_data(&AppData::default()), vec![0u8, 0, 0]);
}

#[test]
fn varint_small_value_is_one_byte() {
    let mut out = Vec::new();
    enc_varint(5, &mut out);
    assert_eq!(out, vec![5u8]);
}

#[test]
fn varint_multi_byte_exact_bytes() {
    let mut out = Vec::new();
    enc_varint(300, &mut out);
    assert_eq!(out, vec![0xAC, 0x02]);
}

#[test]
fn varint_round_trips_extremes() {
    for v in [0u64, 1, 127, 128, 300, 16384, u64::MAX - 1, u64::MAX] {
        let mut out = Vec::new();
        enc_varint(v, &mut out);
        let (got, end) = dec_varint_at(&out, 0, 10).unwrap();
        assert_eq!(got, v);
        assert_eq!(end, out.len());
    }
}

#[test]
fn varint_overlong_is_rejected() {
    let buf = vec![0xFFu8; 10];
    assert_eq!(dec_varint_at(&buf, 0, 10), Err(DecodeError::BadVarint));
}

#[test]
fn decode_empty_input_is_unexpected_end() {
    assert_eq!(decode_app_data(&Vec::new()), Err(DecodeError::UnexpectedEnd));
}

#[test]
fn decode_truncated_encoding_is_unexpected_end() {
    let mut bytes = encode_app_data(&sample_state());
    bytes.pop();
    assert_eq!(decode_app_data(&bytes), Err(DecodeError::UnexpectedEnd));
}

#[test]
fn decode_every_strict_prefix_is_unexpected_end() {
    let bytes = encode_app_data(&sample_state());
    for n in 0..bytes.len() {
        let prefix = bytes[..n].to_vec();
        assert_eq!(decode_app_data(&prefix), Err(DecodeError::UnexpectedEnd));
    }
}

#[test]
fn decode_bad_option_tag() {
    assert_eq!(decode_app_data(&vec![2u8]), Err(DecodeError::BadOptionTag));
}

#[test]
fn decode_bad_platform_variant() {
    // no token, platform present with discriminant 5
    assert_eq!(
        decode_app_data(&vec![0u8, 1, 5]),
        Err(DecodeError::BadVariant)
    );
}

#[test]
fn decode_ignores_trailing_bytes() {
    let mut bytes = encode_app_data(&AppData::default());
    bytes.push(99);
    assert_eq!(decode_app_data(&bytes).unwrap(), AppData::default());
}

#[test]
fn decode_duplicate_identifier_keeps_last_record() {
    // no token, no platform, two entries that both carry identifier 1
    let bytes = vec![
        0u8, 0, 2, // header: none, none, two entries
        1, 5, 1, 65, // id 1, date 5, folder "A"
        1, 9, 1, 66, // id 1, date 9, folder "B"
    ];
    let a = decode_app_data(&bytes).unwrap();
    assert_eq!(a.installed_count(), 1);
    let m = a.get_mod(1).unwrap();
    assert_eq!(m.date_updated, 9);
    assert_eq!(m.folder, b"B".to_vec());
}

#[test]
fn round_trip_empty_but_set_token() {
    // an empty token that is set is not the same as no token
    let mut a = AppData::default();
    a.set_modio_token(Some(Vec::new()));
    let bytes = encode_app_data(&a);
    let b = decode_app_data(&bytes).unwrap();
    assert_eq!(a, b);
    assert_ne!(b, AppData::default());
}

#[test]
fn varint_boundary_values_exact_bytes() {
    let mut out = Vec::new();
    enc_varint(127, &mut out);
    assert_eq!(out, vec![127u8]);
    let mut out = Vec::new();
    enc_varint(128, &mut out);
    assert_eq!(out, vec![0x80, 0x01]);
}

#[test]
fn round_trip_many_mods() {
    let mut a = AppData::default();
    for id in 0..100u64 {
        a.install_mod(
            id * 7919,
            InstalledMod {
                date_updated: id * id,
                folder: format!("Mod{id}").into_bytes(),
            },
        );
    }
    let bytes = encode_app_data(&a);
    assert_eq!(decode_app_data(&bytes).unwrap(), a);
}
