use twprs::deactivation::{Entry, Error, Log, UserStatus};

const P16_INPUT: &[u8] = b"100,63,1000,\n100,63,1500,2000\n200,50,1200,\n";

#[test]
fn deactivation_log_round_trip() {
    let log = Log::read(P16_INPUT).unwrap();
    assert_eq!(log.ever_suspended(), vec![100]);
    assert_eq!(log.current_suspended(), Vec::<u64>::new());
    assert_eq!(log.current_deactivated(), vec![200]);
    assert_eq!(log.write(), P16_INPUT.to_vec());
}

#[test]
fn write_then_read_round_trips() {
    let log = Log::read(b"1,63,10,20\n1,50,30,\n7,50,5,\n").unwrap();
    let again = Log::read(&log.write()).unwrap();
    assert_eq!(again.write(), log.write());
    assert_eq!(again.deactivations(), log.deactivations());
}

#[test]
fn merge_commutes_on_distinct_observations() {
    let a = Log::read(b"1,63,10,\n2,50,40,\n").unwrap();
    let b = Log::read(b"1,50,20,30\n3,63,50,\n").unwrap();
    let ab = a.merge(&b);
    let ba = b.merge(&a);
    assert_eq!(ab.write(), ba.write());
}

#[test]
fn read_orders_users_ascending() {
    let log = Log::read(b"300,63,10,\n100,50,20,\n").unwrap();
    assert_eq!(log.ever_deactivated(), vec![100, 300]);
    let rows = log.deactivations();
    assert_eq!(rows.len(), 2);
    assert_eq!(rows[0].0, 100);
    assert_eq!(rows[1].0, 300);
}

#[test]
fn read_rejects_bad_user_id() {
    match Log::read(b"abc,63,10,\n") {
        Err(Error::InvalidUserId(Some(f))) => assert_eq!(f, b"abc".to_vec()),
        other => panic!("unexpected result: {:?}", other),
    }
}

#[test]
fn read_rejects_unknown_code() {
    match Log::read(b"1,99,10,\n") {
        Err(Error::InvalidTwitterErrorCode(Some(f))) => assert_eq!(f, b"99".to_vec()),
        other => panic!("unexpected result: {:?}", other),
    }
}

#[test]
fn read_rejects_bad_timestamp_and_missing_field() {
    match Log::read(b"1,63,xx,\n") {
        Err(Error::InvalidTimestamp(Some(f))) => assert_eq!(f, b"xx".to_vec()),
        other => panic!("unexpected result: {:?}", other),
    }
    match Log::read(b"1,63,10\n") {
        Err(Error::InvalidTimestamp(None)) => {}
        other => panic!("unexpected result: {:?}", other),
    }
}

#[test]
fn status_reports_first_open_entry() {
    let log = Log::read(b"1,63,10,20\n1,50,30,\n").unwrap();
    assert_eq!(log.status(1), Some(UserStatus::NotFound));
    assert_eq!(log.status(2), None);
}

#[test]
fn suspensions_filters_by_status() {
    let log = Log::read(b"1,63,10,20\n1,50,30,\n2,63,5,\n").unwrap();
    let s = log.suspensions();
    assert_eq!(s, vec![(1, 10, Some(20)), (2, 5, None)]);
}

#[test]
fn validate_accepts_monotone_timeline() {
    let log = Log::read(b"1,63,10,20\n1,50,30,\n").unwrap();
    assert!(log.validate().is_ok());
}

#[test]
fn validate_rejects_open_entry_before_later_observation() {
    let log = Log::read(b"1,63,10,\n1,50,30,\n").unwrap();
    assert_eq!(log.validate().unwrap_err(), vec![1]);
}

#[test]
fn validate_rejects_reversal_before_observation() {
    let log = Log::read(b"1,63,10,5\n").unwrap();
    assert_eq!(log.validate().unwrap_err(), vec![1]);
}

#[test]
fn update_closes_open_entries_and_reports_invalid() {
    let mut log = Log::read(b"1,63,10,\n2,50,10,20\n").unwrap();
    let result = log.update(&vec![(1, 40), (2, 50), (3, 60)]);
    let invalid = result.unwrap_err();
    assert_eq!(invalid, vec![(2, 50), (3, 60)]);
    assert_eq!(log.status(1), None);
    let rows = log.deactivations();
    assert_eq!(rows[0], (1, UserStatus::Suspended, 10, Some(40)));
}

#[test]
fn update_of_all_valid_pairs_is_ok() {
    let mut log = Log::read(b"1,63,10,\n").unwrap();
    assert!(log.update(&vec![(1, 40)]).is_ok());
}

#[test]
fn merge_collapses_duplicate_open_tail() {
    let a = Log::read(b"1,63,10,\n").unwrap();
    let b = Log::read(b"1,63,20,\n").unwrap();
    let merged = a.merge(&b);
    let rows = merged.deactivations();
    assert_eq!(rows, vec![(1, UserStatus::Suspended, 10, None)]);
}

#[test]
fn merge_drops_exact_duplicates_and_sorts_by_observed() {
    let a = Log::read(b"1,63,10,15\n1,50,30,\n").unwrap();
    let b = Log::read(b"1,63,10,15\n1,50,20,25\n").unwrap();
    let merged = a.merge(&b);
    let rows = merged.deactivations();
    assert_eq!(
        rows,
        vec![
            (1, UserStatus::Suspended, 10, Some(15)),
            (1, UserStatus::NotFound, 20, Some(25)),
            (1, UserStatus::NotFound, 30, None),
        ]
    );
}

#[test]
fn merge_keeps_users_only_in_left() {
    let a = Log::read(b"1,63,10,\n").unwrap();
    let b = Log::read(b"2,50,5,\n").unwrap();
    let merged = a.merge(&b);
    assert_eq!(merged.ever_deactivated(), vec![1, 2]);
}

#[test]
fn containment_of_views_on_sample() {
    let log = Log::read(P16_INPUT).unwrap();
    let ever_deact = log.ever_deactivated();
    for id in log.ever_suspended() {
        assert!(ever_deact.contains(&id));
    }
    for id in log.current_deactivated() {
        assert!(ever_deact.contains(&id));
    }
    let ever_susp = log.ever_suspended();
    for id in log.current_suspended() {
        assert!(ever_susp.contains(&id));
    }
}

#[test]
fn entry_fields_round_trip_through_write() {
    let mut log = Log::new();
    log.add_entry(9, Entry { status: UserStatus::NotFound, observed: 7, reversal: Some(8) });
    assert_eq!(log.write(), b"9,50,7,8\n".to_vec());
}
