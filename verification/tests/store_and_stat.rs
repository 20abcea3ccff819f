use regionrelay::catalog::{AliasIndex, Region};
use regionrelay::error::Error;
use regionrelay::stat::{DbStat, stat};
use regionrelay::store::{MessageStore, NewMessage};
use regionrelay::tags::TagValidator;

const DAY: i64 = 86400;

fn catalogs() -> (AliasIndex, TagValidator) {
    let catalog = vec![Region {
        region: "CENTRAL".to_string(),
        aliases: vec!["capital".to_string()],
    }];
    let index = AliasIndex::new(&catalog, "country").expect("catalog should be accepted");
    let validator = TagValidator::new(vec!["C".to_string()]);
    (index, validator)
}

fn message(regions: &[&str], tags: &[&str]) -> NewMessage {
    NewMessage {
        regions: regions.iter().map(|s| s.to_string()).collect(),
        chat_id: 10,
        message_id: 1,
        tags: tags.iter().map(|s| s.to_string()).collect(),
    }
}

#[test]
fn unknown_region_in_a_batch_is_rejected_whole() {
    let (index, validator) = catalogs();
    let mut store = MessageStore::new();
    let batch = vec![message(&["CENTRAL"], &[]), message(&["NOWHERE"], &[])];
    let r = store.insert_messages(&index, &validator, &batch, 100);
    assert_eq!(
        r,
        Err(Error::BadRegion { region: "NOWHERE".to_string(), matches: vec![] })
    );
    assert_eq!(store.len(), 0);
}

#[test]
fn unknown_tag_in_a_batch_is_rejected_whole() {
    let (index, validator) = catalogs();
    let mut store = MessageStore::new();
    let batch = vec![message(&["CENTRAL"], &["C", "Z"])];
    let r = store.insert_messages(&index, &validator, &batch, 100);
    assert_eq!(r, Err(Error::BadTag("Z".to_string())));
    assert_eq!(store.len(), 0);
}

#[test]
fn query_window_bounds_are_inclusive() {
    let (index, validator) = catalogs();
    let mut store = MessageStore::new();
    store
        .insert_messages(&index, &validator, &vec![message(&["CENTRAL"], &[])], 100)
        .unwrap();
    let region = "CENTRAL".to_string();
    assert_eq!(store.query(&region, &vec![], 100, 100).len(), 1);
    assert_eq!(store.query(&region, &vec![], 0, 99).len(), 0);
    assert_eq!(store.query(&region, &vec![], 101, 200).len(), 0);
}

#[test]
fn query_matches_any_region_on_the_list() {
    let catalog = vec![
        Region { region: "CENTRAL".to_string(), aliases: vec!["capital".to_string()] },
        Region { region: "SOUTH".to_string(), aliases: vec!["harbor".to_string()] },
    ];
    let index = AliasIndex::new(&catalog, "country").unwrap();
    let validator = TagValidator::new(vec![]);
    let mut store = MessageStore::new();
    store
        .insert_messages(
            &index,
            &validator,
            &vec![message(&["CENTRAL", "SOUTH"], &[])],
            100,
        )
        .unwrap();
    assert_eq!(store.query(&"CENTRAL".to_string(), &vec![], 0, 200).len(), 1);
    assert_eq!(store.query(&"SOUTH".to_string(), &vec![], 0, 200).len(), 1);
}

#[test]
fn stat_counts_each_window() {
    let (index, validator) = catalogs();
    let mut store = MessageStore::new();
    let base = 40 * DAY;
    // One message today, one yesterday, one five days back, one twelve days
    // back, one forty days back.
    for ts in [
        base + 100,
        base - DAY + 50,
        base - 5 * DAY,
        base - 12 * DAY,
        base - 40 * DAY + 10,
    ] {
        store
            .insert_messages(&index, &validator, &vec![message(&["CENTRAL"], &[])], ts)
            .unwrap();
    }
    let r = stat(&store, 0, base + 500);
    assert_eq!(
        r,
        DbStat {
            today: 1,
            yesterday: 1,
            before_yesterday: 0,
            week: 2,
            month: 3,
            earlier: 1,
        }
    );
}

#[test]
fn stat_day_boundary_shifts_with_the_offset() {
    let (index, validator) = catalogs();
    let mut store = MessageStore::new();
    let base = 40 * DAY;
    // Fifty seconds before the plain boundary: yesterday without an
    // offset, today once the boundary moves back an hour.
    store
        .insert_messages(&index, &validator, &vec![message(&["CENTRAL"], &[])], base - 50)
        .unwrap();
    let plain = stat(&store, 0, base + 500);
    assert_eq!(plain.today, 0);
    assert_eq!(plain.yesterday, 1);
    let shifted = stat(&store, 3600, base + 500);
    assert_eq!(shifted.today, 1);
}
