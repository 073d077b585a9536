//! The store's create, read and delete operations, exercised end to end.

use chrono::NaiveDateTime;
use screen_time::store::{AdjustmentQueryFilter, Store};

/// Seconds since the epoch for the given calendar day plus an offset in
/// days, at midnight.
fn day_timestamp(year: i32, month: u32, day: u32, days_later: i64) -> i64 {
    chrono::NaiveDate::from_ymd_opt(year, month, day)
        .unwrap()
        .and_hms_opt(0, 0, 0)
        .unwrap()
        .checked_add_signed(chrono::Duration::days(days_later))
        .unwrap()
        .and_utc()
        .timestamp()
}

#[test]
fn test_get_adjustment_type() {
    let mut store = Store::new();

    // Initially there are no adjustment types. None is returned.
    let adjustment_type = store.get_adjustment_type(1);
    assert!(adjustment_type.is_none());

    // Create an adjustment type.
    let result = store.add_adjustment_type("Test".to_string(), 1);

    // 1 record should have been inserted.
    assert_eq!(result, 1);

    // Retrieve the ID of the inserted adjustment type.
    let adjustment_type_id = store.get_adjustment_types(None).first().unwrap().id;

    // Retrieve the adjustment type and check that it has the correct
    // description and adjustment.
    let adjustment_type = store.get_adjustment_type(adjustment_type_id).unwrap();
    assert_eq!(adjustment_type.description, "Test");
    assert_eq!(adjustment_type.adjustment, 1);
}

#[test]
fn test_get_adjustment_types() {
    let mut store = Store::new();

    // Initially there are no adjustment types. An empty vector is returned.
    let adjustment_types = store.get_adjustment_types(None);
    assert!(adjustment_types.is_empty());

    // Create 12 adjustment types.
    for i in 0..=11 {
        store.add_adjustment_type(format!("Test {}", i), i - 6);
    }
    // Retrieve adjustment types without passing a limit. We should get 10
    // adjustment types by default.
    let adjustment_types = store.get_adjustment_types(None);
    assert_eq!(adjustment_types.len(), 10);

    // Pass a limit of 5. We should get 5 adjustment types.
    let adjustment_types = store.get_adjustment_types(Some(5));
    assert_eq!(adjustment_types.len(), 5);

    // Pass a limit of 100. We should get 12 adjustment types.
    let adjustment_types = store.get_adjustment_types(Some(100));
    for (i, adjustment_type) in adjustment_types.iter().enumerate() {
        // Check that all adjustment types have the correct description and
        // adjustment.
        assert_eq!(adjustment_type.description, format!("Test {}", i));
        assert_eq!(adjustment_type.adjustment, i as i8 - 6);
    }
}

#[test]
fn test_add_and_delete_adjustment_type() {
    let mut store = Store::new();

    // Initially there are no adjustment types.
    let adjustment_types = store.get_adjustment_types(None);
    assert!(adjustment_types.is_empty());

    // Try to delete a non-existing adjustment type. This should return 0
    // deleted rows.
    let rows_deleted = store.delete_adjustment_type(1);
    assert_eq!(rows_deleted, Ok(0));

    // Create an adjustment type.
    let rows_inserted = store.add_adjustment_type("Test".to_string(), 1);
    assert_eq!(rows_inserted, 1);

    // Now there should be 1 adjustment type.
    let adjustment_types = store.get_adjustment_types(None);
    assert_eq!(adjustment_types.len(), 1);

    // Retrieve the created adjustment type so we know its ID and can delete
    // it.
    let adjustment_types = store.get_adjustment_types(Some(10));
    let last_adjustment_type = adjustment_types.last().unwrap();
    let rows_deleted = store.delete_adjustment_type(last_adjustment_type.id);

    // 1 record should have been deleted.
    assert_eq!(rows_deleted, Ok(1));

    // Now there should be no adjustment types left.
    let adjustment_types = store.get_adjustment_types(None);
    assert!(adjustment_types.is_empty());
}

#[test]
fn fails_to_delete_adjustment_type_with_adjustments() {
    let mut store = Store::new();

    // Create an adjustment type.
    store.add_adjustment_type("Test".to_string(), 1);

    // Retrieve the created adjustment type so we know its ID.
    let adjustment_types = store.get_adjustment_types(Some(10));
    let adjustment_type = adjustment_types.last().unwrap();

    // Create an adjustment that references the adjustment type.
    store.add_adjustment(adjustment_type, &Some("Test".to_string()), &None);

    // When we now try to delete the adjustment type, we should get an error
    // since it would leave the adjustment without an adjustment type.
    let result = store.delete_adjustment_type(adjustment_type.id);
    assert!(result.is_err());
}

#[test]
fn test_get_adjustments() {
    let mut store = Store::new();

    // Create 3 adjustment types.
    for i in 0..=2 {
        store.add_adjustment_type(format!("Test {}", i), i - 1);
    }

    // Retrieve the adjustment types so we know their IDs.
    let adjustment_types = store.get_adjustment_types(None);

    // Create 12 adjustments which reference the adjustment types and have
    // different creation dates.
    for i in 0..=11 {
        let created = day_timestamp(2023, 1, 1, i as i64);
        store.add_adjustment(
            &adjustment_types[i % 3],
            &Some(format!("Test {}", i)),
            &Some(created),
        );
    }

    // Retrieve adjustments without any filters. We should get 10 adjustments
    // by default.
    let adjustments = store.get_adjustments(&AdjustmentQueryFilter::default());
    assert_eq!(adjustments.len(), 10);

    // Retrieve adjustments with a limit of 5. We should get 5 adjustments.
    let adjustments = store.get_adjustments(&AdjustmentQueryFilter {
        limit: Some(5),
        ..Default::default()
    });
    assert_eq!(adjustments.len(), 5);

    // Filter by one of the adjustment types. We should get 4 adjustments.
    let adjustments = store.get_adjustments(&AdjustmentQueryFilter {
        atid: Some(adjustment_types[0].id),
        ..Default::default()
    });
    assert_eq!(adjustments.len(), 4);
    // Check that all adjustments have the correct adjustment type ID.
    for adjustment in adjustments {
        assert_eq!(adjustment.adjustment_type_id, adjustment_types[0].id);
    }

    // Filter by one of the adjustment types and a limit of 2. We should get
    // 2 adjustments.
    let adjustments = store.get_adjustments(&AdjustmentQueryFilter {
        atid: Some(adjustment_types[1].id),
        limit: Some(2),
        ..Default::default()
    });
    assert_eq!(adjustments.len(), 2);
    // Check that all adjustments have the correct adjustment type ID.
    for adjustment in adjustments {
        assert_eq!(adjustment.adjustment_type_id, adjustment_types[1].id);
    }

    // Filter by creation date. We should get 7 adjustments.
    let since = day_timestamp(2023, 1, 6, 0);
    let adjustments = store.get_adjustments(&AdjustmentQueryFilter {
        since: Some(since),
        ..Default::default()
    });
    assert_eq!(adjustments.len(), 7);
    // Check that all adjustments have a creation date after 6 january 2023.
    for adjustment in adjustments {
        assert!(adjustment.created >= since);
    }

    // Filter by creation date and adjustment type. We should get 3
    // adjustments.
    let adjustments = store.get_adjustments(&AdjustmentQueryFilter {
        atid: Some(adjustment_types[2].id),
        since: Some(since),
        ..Default::default()
    });
    assert_eq!(adjustments.len(), 3);
    // Check that all adjustments have a creation date after 6 january 2023.
    for adjustment in &adjustments {
        assert!(adjustment.created >= since);
    }
    // Check that all adjustments have the correct adjustment type ID.
    for adjustment in adjustments {
        assert_eq!(adjustment.adjustment_type_id, adjustment_types[2].id);
    }
}

#[test]
fn test_get_adjustment() {
    let mut store = Store::new();

    // Initially there are no adjustments. None is returned.
    let adjustment = store.get_adjustment(1);
    assert!(adjustment.is_none());

    // Create an adjustment type.
    store.add_adjustment_type("Test".to_string(), 1);

    // Retrieve the created adjustment type so we know its ID.
    let adjustment_types = store.get_adjustment_types(None);
    let adjustment_type = adjustment_types.last().unwrap();

    // Create an adjustment.
    let created = day_timestamp(2023, 1, 1, 0);
    let rows_inserted =
        store.add_adjustment(adjustment_type, &Some("Test".to_string()), &Some(created));
    assert_eq!(rows_inserted, 1);

    // Now there should be 1 adjustment.
    let adjustments = store.get_adjustments(&AdjustmentQueryFilter::default());
    assert_eq!(adjustments.len(), 1);

    // Retrieve the created adjustment so we know its ID.
    let adjustment = adjustments.last().unwrap();

    // Retrieve the adjustment and check that it has the correct adjustment
    // type ID, comment and creation date.
    let adjustment = store.get_adjustment(adjustment.id).unwrap();
    assert_eq!(adjustment.adjustment_type_id, adjustment_type.id);
    assert_eq!(adjustment.comment, Some("Test".to_string()));
    assert_eq!(adjustment.created, created);
}

#[test]
fn test_delete_adjustment() {
    let mut store = Store::new();

    // Try to delete a non-existing adjustment. This should return 0 deleted
    // rows.
    let rows_deleted = store.delete_adjustment(1);
    assert_eq!(rows_deleted, 0);

    // Create an adjustment type and retrieve it so we know its ID.
    store.add_adjustment_type("Test".to_string(), 1);
    let adjustment_types = store.get_adjustment_types(Some(10));
    let adjustment_type = adjustment_types.last().unwrap();

    // Create an adjustment and retrieve it so we know its ID.
    store.add_adjustment(adjustment_type, &Some("Test".to_string()), &None);
    let adjustments = store.get_adjustments(&AdjustmentQueryFilter::default());
    let adjustment = adjustments.last().unwrap();

    // Delete the adjustment. One record should have been deleted.
    let rows_deleted = store.delete_adjustment(adjustment.id);
    assert_eq!(rows_deleted, 1);

    // Now there should be no adjustments left.
    let adjustments = store.get_adjustments(&AdjustmentQueryFilter::default());
    assert!(adjustments.is_empty());
}

#[test]
fn test_get_time_entries() {
    let mut store = Store::new();

    // Initially there are no time entries. An empty vector is returned.
    let time_entries = store.get_time_entries(None);
    assert!(time_entries.is_empty());

    // Create 12 time entries at different points in time.
    for i in 0..=11 {
        // Generate a timestamp, i days after 1 january 2023.
        let created = day_timestamp(2023, 1, 1, i as i64);
        store.add_time_entry(i as u16 * 15, Some(created));
    }
    // Retrieve time entries without passing a limit. We should get 10 time
    // entries.
    let time_entries = store.get_time_entries(None);
    assert_eq!(time_entries.len(), 10);

    // Pass a limit of 200. We should get all 12 time entries.
    let time_entries = store.get_time_entries(Some(200));
    assert_eq!(time_entries.len(), 12);

    // Check that all time entries have the correct time.
    for (i, time_entry) in time_entries.iter().enumerate() {
        assert_eq!(time_entry.time, (11 - i) as u16 * 15);
    }
}

#[test]
fn test_get_time_entry() {
    let mut store = Store::new();

    // Initially there are no time entries. None is returned.
    let time_entry = store.get_time_entry(1);
    assert!(time_entry.is_none());

    // Create a time entry.
    let created = NaiveDateTime::parse_from_str("2023-01-01 00:00:00", "%Y-%m-%d %H:%M:%S")
        .unwrap()
        .and_utc()
        .timestamp();
    let rows_inserted = store.add_time_entry(120, Some(created));
    assert_eq!(rows_inserted, 1);

    // Now there should be 1 time entry.
    let time_entries = store.get_time_entries(None);
    assert_eq!(time_entries.len(), 1);

    // Get the ID of the created time entry.
    let time_entry_id = time_entries.first().unwrap().id;

    // Retrieve the time entry and check that it has the correct time and
    // creation date.
    let time_entry = store.get_time_entry(time_entry_id).unwrap();
    assert_eq!(time_entry.time, 120);
    assert_eq!(
        time_entry.created,
        NaiveDateTime::parse_from_str("2023-01-01 00:00:00", "%Y-%m-%d %H:%M:%S")
            .unwrap()
            .and_utc()
            .timestamp()
    );
}

#[test]
fn test_add_and_delete_time_entry() {
    let mut store = Store::new();

    // Initially there are no time entries.
    let time_entries = store.get_time_entries(None);
    assert!(time_entries.is_empty());

    // Add a time entry.
    let created = NaiveDateTime::parse_from_str("2023-01-01 00:00:00", "%Y-%m-%d %H:%M:%S")
        .unwrap()
        .and_utc()
        .timestamp();
    let rows_inserted = store.add_time_entry(120, Some(created));
    assert_eq!(rows_inserted, 1);

    // Now there should be 1 time entry.
    let time_entries = store.get_time_entries(None);
    assert_eq!(time_entries.len(), 1);

    // Check that the time entry has the correct time and creation date.
    let time_entry = time_entries.last().unwrap();
    assert_eq!(time_entry.time, 120);
    assert_eq!(
        time_entry.created,
        NaiveDateTime::parse_from_str("2023-01-01 00:00:00", "%Y-%m-%d %H:%M:%S")
            .unwrap()
            .and_utc()
            .timestamp()
    );

    // Delete the time entry.
    store.delete_time_entry(time_entry.id);

    // Now there should be no time entries left.
    let time_entries = store.get_time_entries(None);
    assert!(time_entries.is_empty());
}

#[test]
fn test_get_adjusted_time() {
    let mut store = Store::new();

    // Initially there are no time entries nor adjustments. The adjusted time
    // should be 0.
    let adjusted_time = store.get_adjusted_time();
    assert_eq!(adjusted_time, 0);

    // Create 2 adjustment types. One with a positive adjustment and one with
    // a negative adjustment.
    store.add_adjustment_type("Cleaned room".to_string(), 2);
    store.add_adjustment_type("Late in bed".to_string(), -1);

    // Retrieve the adjustment types so we know their IDs.
    let adjustment_types = store.get_adjustment_types(None);
    let positive_adjustment_type = adjustment_types.first().unwrap();
    let negative_adjustment_type = adjustment_types.last().unwrap();

    // Create a negative adjustment. This should not affect the adjusted time
    // since we can't go below 0.
    // For every adjustment created we increase the created date by 1 second
    // so we can check that subsequent time entries override previous
    // adjustments.
    let mut created = NaiveDateTime::parse_from_str("2023-01-01 00:00:00", "%Y-%m-%d %H:%M:%S")
        .unwrap()
        .and_utc()
        .timestamp();
    store.add_adjustment(negative_adjustment_type, &None, &Some(created));
    let adjusted_time = store.get_adjusted_time();
    assert_eq!(adjusted_time, 0);

    // Create an anonymous function to increase the created date by 1 second,
    // by reference.
    let add_1_second = |created: &mut i64| {
        *created += 1;
    };

    // Create a positive adjustment. This should increase the adjusted time.
    add_1_second(&mut created);
    store.add_adjustment(positive_adjustment_type, &None, &Some(created));
    let adjusted_time = store.get_adjusted_time();
    assert_eq!(adjusted_time, 2);

    // Create a few more positive and negative adjustments.
    add_1_second(&mut created);
    store.add_adjustment(positive_adjustment_type, &None, &Some(created));
    add_1_second(&mut created);
    store.add_adjustment(negative_adjustment_type, &None, &Some(created));
    add_1_second(&mut created);
    store.add_adjustment(positive_adjustment_type, &None, &Some(created));
    let adjusted_time = store.get_adjusted_time();
    assert_eq!(adjusted_time, 5);

    // Create a time entry. This should override all previous adjustments.
    add_1_second(&mut created);
    store.add_time_entry(120, Some(created));
    let adjusted_time = store.get_adjusted_time();
    assert_eq!(adjusted_time, 120);

    // Do a few more adjustments.
    add_1_second(&mut created);
    store.add_adjustment(negative_adjustment_type, &None, &Some(created));
    assert_eq!(store.get_adjusted_time(), 119);

    add_1_second(&mut created);
    store.add_adjustment(positive_adjustment_type, &None, &Some(created));
    assert_eq!(store.get_adjusted_time(), 121);
}
