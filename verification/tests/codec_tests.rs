use twprs::codec::{parse_u32_be, parse_u64_be, write_u32_be, write_u64_be};
use twprs::profile::{decode, encode, Entities, Profile, UrlEntry};
use twprs::store::{merge_values, parse_value};

fn sample_profile() -> Profile {
    Profile {
        id: 42,
        id_str: b"42".to_vec(),
        screen_name: b"Example".to_vec(),
        name: b"An Example".to_vec(),
        description: Some(b"a bio".to_vec()),
        url: None,
        location: Some(b"somewhere".to_vec()),
        created_at: b"Mon Jan 01 00:00:00 +0000 2018".to_vec(),
        protected: false,
        verified: true,
        followers_count: 10,
        friends_count: 20,
        statuses_count: 30,
        favourites_count: 40,
        listed_count: 5,
        default_profile: true,
        default_profile_image: false,
        profile_image_url_https: b"https://example.invalid/a.png".to_vec(),
        withheld_in_countries: vec![b"de".to_vec(), b"fr".to_vec()],
        entities: Some(Entities {
            url_urls: Some(vec![UrlEntry {
                url: b"https://t.invalid/x".to_vec(),
                expanded: Some(b"https://example.invalid/long".to_vec()),
            }]),
            description_urls: None,
        }),
        snapshot: 1000,
    }
}

#[test]
fn u64_be_round_trip() {
    let mut out: Vec<u8> = Vec::new();
    write_u64_be(0x0102030405060708, &mut out);
    assert_eq!(out, vec![1u8, 2, 3, 4, 5, 6, 7, 8]);
    let (v, end) = parse_u64_be(&out, 0).unwrap();
    assert_eq!(v, 0x0102030405060708);
    assert_eq!(end, 8);
}

#[test]
fn u32_be_round_trip() {
    let mut out: Vec<u8> = Vec::new();
    write_u32_be(0xA1B2C3D4, &mut out);
    assert_eq!(out, vec![0xA1u8, 0xB2, 0xC3, 0xD4]);
    let (v, end) = parse_u32_be(&out, 0).unwrap();
    assert_eq!(v, 0xA1B2C3D4);
    assert_eq!(end, 4);
}

#[test]
fn profile_round_trip() {
    let p = sample_profile();
    let bytes = encode(&p);
    let q = decode(&bytes).unwrap();
    assert_eq!(p, q);
}

#[test]
fn decode_rejects_truncated() {
    let p = sample_profile();
    let bytes = encode(&p);
    let cut = &bytes[..bytes.len() - 1];
    assert!(decode(cut).is_err());
}

#[test]
fn decode_rejects_trailing_bytes() {
    let p = sample_profile();
    let mut bytes = encode(&p);
    bytes.push(0);
    assert!(decode(&bytes).is_err());
}

#[test]
fn value_round_trip() {
    let p = sample_profile();
    let mut value: Vec<u8> = Vec::new();
    write_u64_be(777, &mut value);
    value.extend_from_slice(&encode(&p));
    let (fo, q) = parse_value(&value).unwrap();
    assert_eq!(fo, 777);
    assert_eq!(p, q);
}

#[test]
fn merge_values_picks_latest_snapshot_and_earliest_time() {
    let mk = |snapshot: u64, first_observed: u64| -> Vec<u8> {
        let mut p = sample_profile();
        p.snapshot = snapshot;
        let mut v: Vec<u8> = Vec::new();
        write_u64_be(first_observed, &mut v);
        v.extend_from_slice(&encode(&p));
        v
    };
    let operands = vec![mk(50, 300), mk(70, 100), mk(60, 200)];
    let merged = merge_values(None, &operands).unwrap();
    let (fo, p) = parse_value(&merged).unwrap();
    assert_eq!(fo, 100);
    assert_eq!(p.snapshot, 70);
}

#[test]
fn merge_values_order_invariant_for_distinct_snapshots() {
    let mk = |snapshot: u64, first_observed: u64| -> Vec<u8> {
        let mut p = sample_profile();
        p.snapshot = snapshot;
        let mut v: Vec<u8> = Vec::new();
        write_u64_be(first_observed, &mut v);
        v.extend_from_slice(&encode(&p));
        v
    };
    let a = vec![mk(50, 300), mk(70, 100), mk(60, 200)];
    let b = vec![mk(60, 200), mk(50, 300), mk(70, 100)];
    assert_eq!(merge_values(None, &a), merge_values(None, &b));
}

#[test]
fn merge_values_skips_bad_operand_and_keeps_existing_when_nothing_decodes() {
    let junk = vec![vec![1u8, 2, 3]];
    let existing = vec![9u8, 9, 9];
    let merged = merge_values(Some(&existing), &junk).unwrap();
    assert_eq!(merged, existing);
    assert!(merge_values(None, &junk).is_none());
}
