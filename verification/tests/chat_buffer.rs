use regionrelay::catalog::{AliasIndex, Region};
use regionrelay::chat::{Chat, HandleChat};
use regionrelay::error::Error;
use regionrelay::store::MessageStore;
use regionrelay::tags::TagValidator;

fn setup() -> (AliasIndex, TagValidator, MessageStore, Chat) {
    let catalog = vec![
        Region {
            region: "CENTRAL".to_string(),
            aliases: vec!["capital".to_string(), "cap".to_string()],
        },
        Region {
            region: "SOUTH".to_string(),
            aliases: vec!["harbor".to_string()],
        },
    ];
    let index = AliasIndex::new(&catalog, "country").expect("catalog should be accepted");
    let validator = TagValidator::new(vec!["C".to_string(), "P".to_string()]);
    (index, validator, MessageStore::new(), Chat::new())
}

const LONG: &str = "a forwarded report that is long enough to buffer";

#[test]
fn long_messages_then_finalize_saves_all_and_empties_buffer() {
    let (index, validator, mut store, mut chat) = setup();
    for i in 0..3 {
        let r = chat.handle_chat(&index, &validator, &mut store, 10, i, Some(LONG), 100);
        assert_eq!(r, Ok(HandleChat::Remembered((i + 1) as usize)));
    }
    let r = chat.handle_chat(&index, &validator, &mut store, 10, 3, Some("capital"), 200);
    assert_eq!(
        r,
        Ok(HandleChat::Saved {
            count: 3,
            regions: vec!["CENTRAL".to_string()],
            tags: vec![],
        })
    );
    assert_eq!(chat.count(), 0);
    assert_eq!(store.len(), 3);
}

#[test]
fn finalize_with_empty_buffer_saves_zero() {
    let (index, validator, mut store, mut chat) = setup();
    let r = chat.handle_chat(&index, &validator, &mut store, 10, 1, Some("capital"), 100);
    assert_eq!(
        r,
        Ok(HandleChat::Saved {
            count: 0,
            regions: vec!["CENTRAL".to_string()],
            tags: vec![],
        })
    );
    assert_eq!(store.len(), 0);
}

#[test]
fn finalize_with_tags_stamps_them() {
    let (index, validator, mut store, mut chat) = setup();
    chat.handle_chat(&index, &validator, &mut store, 10, 1, Some(LONG), 100)
        .unwrap();
    let r = chat.handle_chat(&index, &validator, &mut store, 10, 2, Some("capital c p"), 200);
    assert_eq!(
        r,
        Ok(HandleChat::Saved {
            count: 1,
            regions: vec!["CENTRAL".to_string()],
            tags: vec!["C".to_string(), "P".to_string()],
        })
    );
    let msgs = store.query(&"CENTRAL".to_string(), &vec![], 0, 1000);
    assert_eq!(msgs.len(), 1);
    assert_eq!(msgs[0].tags, vec!["C".to_string(), "P".to_string()]);
    assert_eq!(msgs[0].timestamp, 200);
    assert_eq!(msgs[0].chat_id, 10);
    assert_eq!(msgs[0].message_id, 1);
}

#[test]
fn bad_tag_fails_and_keeps_the_buffer() {
    let (index, validator, mut store, mut chat) = setup();
    chat.handle_chat(&index, &validator, &mut store, 10, 1, Some(LONG), 100)
        .unwrap();
    let r = chat.handle_chat(&index, &validator, &mut store, 10, 2, Some("capital z"), 200);
    assert_eq!(r, Err(Error::BadTag("z".to_string())));
    assert_eq!(chat.count(), 1);
    assert_eq!(store.len(), 0);
}

#[test]
fn short_failed_region_attempt_is_reported() {
    let (index, validator, mut store, mut chat) = setup();
    let r = chat.handle_chat(&index, &validator, &mut store, 10, 1, Some("zzz"), 100);
    assert_eq!(
        r,
        Err(Error::BadRegion { region: "zzz".to_string(), matches: vec![] })
    );
    assert_eq!(chat.count(), 0);
}

#[test]
fn short_ambiguous_region_attempt_lists_candidates() {
    let catalog = vec![
        Region { region: "CENTRAL".to_string(), aliases: vec!["cap".to_string()] },
        Region { region: "SOUTH".to_string(), aliases: vec!["car".to_string()] },
    ];
    let index = AliasIndex::new(&catalog, "country").unwrap();
    let validator = TagValidator::new(vec![]);
    let mut store = MessageStore::new();
    let mut chat = Chat::new();
    let r = chat.handle_chat(&index, &validator, &mut store, 10, 1, Some("ca"), 100);
    assert_eq!(
        r,
        Err(Error::BadRegion {
            region: "ca".to_string(),
            matches: vec!["CENTRAL".to_string(), "SOUTH".to_string()],
        })
    );
}

#[test]
fn short_keyword_noise_is_ignored() {
    let (index, validator, mut store, mut chat) = setup();
    let r = chat.handle_chat(&index, &validator, &mut store, 10, 7, Some("country"), 100);
    assert_eq!(r, Ok(HandleChat::Ignored(7)));
    assert_eq!(chat.count(), 0);
}

#[test]
fn media_without_text_is_buffered() {
    let (index, validator, mut store, mut chat) = setup();
    let r = chat.handle_chat(&index, &validator, &mut store, 10, 5, None, 100);
    assert_eq!(r, Ok(HandleChat::Remembered(1)));
    assert_eq!(chat.count(), 1);
}

#[test]
fn tags_without_a_region_do_not_finalize() {
    let (index, validator, mut store, mut chat) = setup();
    chat.handle_chat(&index, &validator, &mut store, 10, 1, Some(LONG), 100)
        .unwrap();
    // A line of tag letters alone is noise, not a finalize line; the
    // letter happens to resolve as a region prefix, so it is merely
    // ignored, and nothing is saved.
    let r = chat.handle_chat(&index, &validator, &mut store, 10, 2, Some("c"), 200);
    assert_eq!(r, Ok(HandleChat::Ignored(2)));
    assert_eq!(chat.count(), 1);
    assert_eq!(store.len(), 0);
}

#[test]
fn finalize_keeps_region_duplicates() {
    let (index, validator, mut store, mut chat) = setup();
    chat.handle_chat(&index, &validator, &mut store, 10, 1, Some(LONG), 100)
        .unwrap();
    let r = chat.handle_chat(&index, &validator, &mut store, 10, 2, Some("capital cap"), 200);
    assert_eq!(
        r,
        Ok(HandleChat::Saved {
            count: 1,
            regions: vec!["CENTRAL".to_string(), "CENTRAL".to_string()],
            tags: vec![],
        })
    );
}

#[test]
fn saved_messages_get_consecutive_ids() {
    let (index, validator, mut store, mut chat) = setup();
    for i in 0..2 {
        chat.handle_chat(&index, &validator, &mut store, 10, i, Some(LONG), 100)
            .unwrap();
    }
    chat.handle_chat(&index, &validator, &mut store, 10, 9, Some("capital"), 200)
        .unwrap();
    let msgs = store.query(&"CENTRAL".to_string(), &vec![], 0, 1000);
    assert_eq!(msgs.len(), 2);
    assert_eq!(msgs[0].id, 0);
    assert_eq!(msgs[1].id, 1);
    assert_eq!(msgs[0].message_id, 0);
    assert_eq!(msgs[1].message_id, 1);
}
