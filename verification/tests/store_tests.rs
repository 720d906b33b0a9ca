use twprs::profile::Profile;
use twprs::store::ProfileStore;

fn profile(id: u64, screen_name: &str, snapshot: u64, followers: u32) -> Profile {
    Profile {
        id,
        id_str: id.to_string().into_bytes(),
        screen_name: screen_name.as_bytes().to_vec(),
        name: b"n".to_vec(),
        description: None,
        url: None,
        location: None,
        created_at: b"Mon Jan 01 00:00:00 +0000 2018".to_vec(),
        protected: false,
        verified: false,
        followers_count: followers,
        friends_count: 0,
        statuses_count: 0,
        favourites_count: 0,
        listed_count: 0,
        default_profile: true,
        default_profile_image: true,
        profile_image_url_https: b"https://example.invalid/p.png".to_vec(),
        withheld_in_countries: Vec::new(),
        entities: None,
        snapshot,
    }
}

#[test]
fn same_handle_update_coalesces() {
    let mut store = ProfileStore::new();
    store.update(profile(42, "a", 100, 10), 1111);
    store.update(profile(42, "A", 200, 11), 2222);
    let rows = store.lookup(42);
    assert_eq!(rows.len(), 1);
    assert_eq!(rows[0].0, 1111);
    assert_eq!(rows[0].1.snapshot, 200);
    assert_eq!(rows[0].1.followers_count, 11);
}

#[test]
fn rename_preserves_history() {
    let mut store = ProfileStore::new();
    store.update(profile(7, "alpha", 100, 1), 10);
    store.update(profile(7, "beta", 200, 2), 20);
    let rows = store.lookup(7);
    assert_eq!(rows.len(), 2);
    assert_eq!(rows[0].1.snapshot, 100);
    assert_eq!(rows[1].1.snapshot, 200);
}

#[test]
fn merger_chooses_latest_snapshot_earliest_time() {
    let mut store = ProfileStore::new();
    store.update(profile(1, "x", 50, 1), 500);
    store.update(profile(1, "x", 70, 2), 300);
    store.update(profile(1, "x", 60, 3), 400);
    let rows = store.lookup(1);
    assert_eq!(rows.len(), 1);
    assert_eq!(rows[0].0, 300);
    assert_eq!(rows[0].1.snapshot, 70);
    assert_eq!(rows[0].1.followers_count, 2);
}

#[test]
fn merger_keeps_incumbent_on_snapshot_tie() {
    let mut store = ProfileStore::new();
    store.update(profile(1, "x", 50, 1), 500);
    store.update(profile(1, "x", 50, 2), 600);
    let rows = store.lookup(1);
    assert_eq!(rows.len(), 1);
    assert_eq!(rows[0].1.followers_count, 1);
}

#[test]
fn iter_groups_by_id_ascending() {
    let mut store = ProfileStore::new();
    store.update(profile(2, "b", 10, 1), 1);
    store.update(profile(1, "a1", 30, 1), 2);
    store.update(profile(1, "a2", 20, 1), 3);
    let batches = store.iter();
    assert_eq!(batches.len(), 2);
    assert_eq!(batches[0][0].1.id, 1);
    assert_eq!(batches[0].len(), 2);
    assert_eq!(batches[0][0].1.snapshot, 20);
    assert_eq!(batches[0][1].1.snapshot, 30);
    assert_eq!(batches[1][0].1.id, 2);
    assert_eq!(batches[1].len(), 1);
    assert_eq!(store.estimate_key_count(), 3);
}

#[test]
fn raw_iter_yields_every_row() {
    let mut store = ProfileStore::new();
    store.update(profile(5, "e", 10, 1), 1);
    store.update(profile(3, "c", 20, 1), 2);
    let rows = store.raw_iter();
    assert_eq!(rows.len(), 2);
    assert_eq!(rows[0].0, 3);
    assert_eq!(rows[1].0, 5);
    assert_eq!(rows[0].1 .0, 2);
}

#[test]
fn raw_iter_orders_handles_within_id() {
    let mut store = ProfileStore::new();
    store.update(profile(7, "b", 100, 1), 1);
    store.update(profile(7, "AB", 150, 3), 3);
    store.update(profile(7, "a", 200, 2), 2);
    let rows = store.raw_iter();
    assert_eq!(rows.len(), 3);
    assert_eq!(rows[0].1 .1.screen_name, b"a".to_vec());
    assert_eq!(rows[1].1 .1.screen_name, b"AB".to_vec());
    assert_eq!(rows[2].1 .1.screen_name, b"b".to_vec());
}

#[test]
fn lookup_missing_is_empty() {
    let store = ProfileStore::new();
    assert!(store.lookup(99).is_empty());
}
