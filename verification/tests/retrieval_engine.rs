use regionrelay::catalog::{AliasIndex, Region};
use regionrelay::chat::Chat;
use regionrelay::error::Error;
use regionrelay::retrieval::{RetrievalEngine, TagPriority};
use regionrelay::store::MessageStore;
use regionrelay::tags::TagValidator;

const DAY: i64 = 86400;
const LONG: &str = "a forwarded report that is long enough to buffer";

fn engine_setup() -> (AliasIndex, TagValidator, RetrievalEngine) {
    let catalog = vec![
        Region {
            region: "CENTRAL".to_string(),
            aliases: vec!["capital".to_string(), "cap".to_string()],
        },
        Region {
            region: "SOUTH".to_string(),
            aliases: vec!["harbor".to_string()],
        },
    ];
    let index = AliasIndex::new(&catalog, "country").expect("catalog should be accepted");
    let validator = TagValidator::new(vec!["C".to_string(), "P".to_string(), "U".to_string()]);
    let mut engine = RetrievalEngine::new(TagPriority::new(vec!['C', 'P', 'U']));
    engine.add_user_regions(7, vec!["CENTRAL".to_string(), "SOUTH".to_string()]);
    (index, validator, engine)
}

/// Classify one message into the store under these regions and tags.
fn put(
    index: &AliasIndex,
    validator: &TagValidator,
    store: &mut MessageStore,
    chat_id: i64,
    message_id: i32,
    line: &str,
    now: i64,
) {
    let mut chat = Chat::new();
    chat.handle_chat(index, validator, store, chat_id, message_id, Some(LONG), now)
        .unwrap();
    chat.handle_chat(index, validator, store, chat_id, message_id, Some(line), now)
        .unwrap();
}

#[test]
fn no_region_clause_is_no_regions() {
    let (index, validator, mut engine) = engine_setup();
    let store = MessageStore::new();
    let r = engine.retrieve(&index, &validator, &store, 7, "", DAY);
    assert_eq!(r, Err(Error::NoRegions));
    let r = engine.retrieve(&index, &validator, &store, 7, "5 2", DAY);
    assert_eq!(r, Err(Error::NoRegions));
}

#[test]
fn unresolvable_region_is_bad_region() {
    let (index, validator, mut engine) = engine_setup();
    let store = MessageStore::new();
    let r = engine.retrieve(&index, &validator, &store, 7, "zzz", DAY);
    assert_eq!(
        r,
        Err(Error::BadRegion { region: "zzz".to_string(), matches: vec![] })
    );
}

#[test]
fn unknown_tag_is_bad_tag() {
    let (index, validator, mut engine) = engine_setup();
    let store = MessageStore::new();
    let r = engine.retrieve(&index, &validator, &store, 7, "capital z", DAY);
    assert_eq!(r, Err(Error::BadTag("z".to_string())));
}

#[test]
fn empty_result_is_no_messages_with_the_attempt() {
    let (index, validator, mut engine) = engine_setup();
    let store = MessageStore::new();
    let r = engine.retrieve(&index, &validator, &store, 7, "capital 5 2 c", DAY);
    assert_eq!(
        r,
        Err(Error::NoMessages {
            regions: vec!["CENTRAL".to_string()],
            period: Some((5 * 3600, 2 * 3600)),
            tags: vec!["C".to_string()],
        })
    );
}

#[test]
fn messages_of_today_are_served_without_a_window() {
    let (index, validator, mut engine) = engine_setup();
    let mut store = MessageStore::new();
    put(&index, &validator, &mut store, 10, 1, "capital", DAY + 100);
    let r = engine
        .retrieve(&index, &validator, &store, 7, "capital", DAY + 200)
        .unwrap();
    assert_eq!(r.len(), 1);
    assert_eq!(r[0].0, "CENTRAL".to_string());
    assert_eq!(r[0].1.len(), 1);
    assert_eq!(r[0].1[0].timestamp, DAY + 100);
}

#[test]
fn second_incremental_call_starts_where_the_first_ended() {
    let (index, validator, mut engine) = engine_setup();
    let mut store = MessageStore::new();
    put(&index, &validator, &mut store, 10, 1, "capital", DAY + 100);
    engine
        .retrieve(&index, &validator, &store, 7, "capital", DAY + 200)
        .unwrap();
    assert_eq!(engine.watermark(7, &"CENTRAL".to_string()), Some(DAY + 200));
    // No new messages: the second window [DAY+200, DAY+300] is disjoint
    // from the first and comes back empty.
    let r = engine.retrieve(&index, &validator, &store, 7, "capital", DAY + 300);
    assert_eq!(
        r,
        Err(Error::NoMessages {
            regions: vec!["CENTRAL".to_string()],
            period: None,
            tags: vec![],
        })
    );
    assert_eq!(engine.watermark(7, &"CENTRAL".to_string()), Some(DAY + 300));
}

#[test]
fn a_message_between_the_calls_is_served_exactly_once() {
    let (index, validator, mut engine) = engine_setup();
    let mut store = MessageStore::new();
    put(&index, &validator, &mut store, 10, 1, "capital", DAY + 100);
    engine
        .retrieve(&index, &validator, &store, 7, "capital", DAY + 200)
        .unwrap();
    put(&index, &validator, &mut store, 10, 2, "capital", DAY + 250);
    let r = engine
        .retrieve(&index, &validator, &store, 7, "capital", DAY + 300)
        .unwrap();
    assert_eq!(r.len(), 1);
    assert_eq!(r[0].1.len(), 1);
    assert_eq!(r[0].1[0].timestamp, DAY + 250);
}

#[test]
fn explicit_window_still_advances_the_watermark() {
    let (index, validator, mut engine) = engine_setup();
    let mut store = MessageStore::new();
    put(&index, &validator, &mut store, 10, 1, "capital", DAY + 100);
    let r = engine
        .retrieve(&index, &validator, &store, 7, "capital 1", DAY + 200)
        .unwrap();
    assert_eq!(r.len(), 1);
    assert_eq!(engine.watermark(7, &"CENTRAL".to_string()), Some(DAY + 200));
    // The next incremental call resumes at that watermark, not at the
    // explicit window's edges.
    let r = engine.retrieve(&index, &validator, &store, 7, "capital", DAY + 300);
    assert!(matches!(r, Err(Error::NoMessages { .. })));
}

#[test]
fn regions_not_on_the_allow_list_are_dropped_silently() {
    let (index, validator, mut engine) = engine_setup();
    let mut store = MessageStore::new();
    put(&index, &validator, &mut store, 10, 1, "harbor", DAY + 100);
    // User 8 may read CENTRAL only: the SOUTH part of the query is dropped,
    // and with nothing left to serve the call reports no messages.
    engine.add_user_regions(8, vec!["CENTRAL".to_string()]);
    let r = engine.retrieve(&index, &validator, &store, 8, "harbor", DAY + 200);
    assert!(matches!(r, Err(Error::NoMessages { .. })));
    assert_eq!(engine.watermark(8, &"SOUTH".to_string()), None);
}

#[test]
fn groups_come_per_region_in_request_order() {
    let (index, validator, mut engine) = engine_setup();
    let mut store = MessageStore::new();
    put(&index, &validator, &mut store, 10, 1, "capital", DAY + 100);
    put(&index, &validator, &mut store, 11, 2, "harbor", DAY + 110);
    let r = engine
        .retrieve(&index, &validator, &store, 7, "harbor capital", DAY + 200)
        .unwrap();
    assert_eq!(r.len(), 2);
    assert_eq!(r[0].0, "SOUTH".to_string());
    assert_eq!(r[1].0, "CENTRAL".to_string());
}

#[test]
fn the_keyword_serves_every_region() {
    let (index, validator, mut engine) = engine_setup();
    let mut store = MessageStore::new();
    put(&index, &validator, &mut store, 10, 1, "capital", DAY + 100);
    put(&index, &validator, &mut store, 11, 2, "harbor", DAY + 110);
    let r = engine
        .retrieve(&index, &validator, &store, 7, "country", DAY + 200)
        .unwrap();
    assert_eq!(r.len(), 2);
    assert_eq!(r[0].0, "CENTRAL".to_string());
    assert_eq!(r[1].0, "SOUTH".to_string());
}

#[test]
fn tag_filter_keeps_only_shared_tags() {
    let (index, validator, mut engine) = engine_setup();
    let mut store = MessageStore::new();
    put(&index, &validator, &mut store, 10, 1, "capital c", DAY + 100);
    put(&index, &validator, &mut store, 10, 2, "capital p", DAY + 110);
    let r = engine
        .retrieve(&index, &validator, &store, 7, "capital p", DAY + 200)
        .unwrap();
    assert_eq!(r.len(), 1);
    assert_eq!(r[0].1.len(), 1);
    assert_eq!(r[0].1[0].tags, vec!["P".to_string()]);
}

#[test]
fn results_sort_by_tag_priority_then_time() {
    let (index, validator, mut engine) = engine_setup();
    let mut store = MessageStore::new();
    put(&index, &validator, &mut store, 10, 1, "capital u", DAY + 100);
    put(&index, &validator, &mut store, 10, 2, "capital c", DAY + 110);
    put(&index, &validator, &mut store, 10, 3, "capital", DAY + 120);
    put(&index, &validator, &mut store, 10, 4, "capital c", DAY + 105);
    let r = engine
        .retrieve(&index, &validator, &store, 7, "capital", DAY + 200)
        .unwrap();
    assert_eq!(r.len(), 1);
    let msgs = &r[0].1;
    assert_eq!(msgs.len(), 4);
    // Priority class first ('C' before 'U'), ties by ascending timestamp,
    // the tagless message last.
    assert_eq!(msgs[0].timestamp, DAY + 105);
    assert_eq!(msgs[0].tags, vec!["C".to_string()]);
    assert_eq!(msgs[1].timestamp, DAY + 110);
    assert_eq!(msgs[2].tags, vec!["U".to_string()]);
    assert!(msgs[3].tags.is_empty());
}

#[test]
fn revoked_regions_stop_being_served() {
    let (index, validator, mut engine) = engine_setup();
    let mut store = MessageStore::new();
    put(&index, &validator, &mut store, 10, 1, "capital", DAY + 100);
    engine.del_user_regions(7, &vec!["CENTRAL".to_string()]);
    let r = engine.retrieve(&index, &validator, &store, 7, "capital", DAY + 200);
    assert!(matches!(r, Err(Error::NoMessages { .. })));
}
