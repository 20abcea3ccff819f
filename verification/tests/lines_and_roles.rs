use regionrelay::dispatch::{DialogueKind, next_dialogue};
use regionrelay::error::Error;
use regionrelay::grammar::{parse_chat_line, parse_query_line};
use regionrelay::users::{UserGroup, try_admin};

#[test]
fn a_finalize_line_splits_into_regions_and_tags() {
    let cl = parse_chat_line("capital harbor c p").expect("line should match");
    assert_eq!(
        cl.regions,
        Some(vec!["capital".to_string(), "harbor".to_string()])
    );
    assert_eq!(cl.tags, Some(vec!["c".to_string(), "p".to_string()]));
}

#[test]
fn a_finalize_line_may_lack_either_clause() {
    let cl = parse_chat_line("capital").expect("line should match");
    assert_eq!(cl.regions, Some(vec!["capital".to_string()]));
    assert_eq!(cl.tags, None);
    let cl = parse_chat_line("c p").expect("line should match");
    assert_eq!(cl.regions, None);
    assert_eq!(cl.tags, Some(vec!["c".to_string(), "p".to_string()]));
    let cl = parse_chat_line("").expect("line should match");
    assert_eq!(cl.regions, None);
    assert_eq!(cl.tags, None);
}

#[test]
fn a_letter_before_a_region_word_breaks_the_line() {
    assert!(parse_chat_line("c capital").is_none());
    assert!(parse_chat_line("this, too, is no line").is_none());
}

#[test]
fn numbers_break_a_finalize_line_but_not_a_retrieval_line() {
    assert!(parse_chat_line("capital 5").is_none());
    let ql = parse_query_line("capital 5").expect("line should match");
    assert_eq!(ql.regions, Some(vec!["capital".to_string()]));
    assert_eq!(ql.since, Some(5));
    assert_eq!(ql.duration, None);
    assert_eq!(ql.tags, None);
}

#[test]
fn a_retrieval_line_takes_window_and_tags() {
    let ql = parse_query_line("capital 5 2 c p").expect("line should match");
    assert_eq!(ql.regions, Some(vec!["capital".to_string()]));
    assert_eq!(ql.since, Some(5));
    assert_eq!(ql.duration, Some(2));
    assert_eq!(ql.tags, Some(vec!["c".to_string(), "p".to_string()]));
}

#[test]
fn a_third_number_breaks_a_retrieval_line() {
    assert!(parse_query_line("capital 5 2 9").is_none());
}

#[test]
fn a_number_beyond_the_machine_breaks_a_retrieval_line() {
    assert!(parse_query_line("capital 99999999999999999999").is_none());
    assert_eq!(
        parse_query_line("capital 18446744073709551615")
            .expect("the largest machine number should parse")
            .since,
        Some(u64::MAX)
    );
}

#[test]
fn hyphenated_words_are_region_words() {
    let cl = parse_chat_line("north-west").expect("line should match");
    assert_eq!(cl.regions, Some(vec!["north-west".to_string()]));
}

#[test]
fn only_admins_pass_the_role_check() {
    assert_eq!(try_admin(UserGroup::Admin), Ok(()));
    assert_eq!(
        try_admin(UserGroup::Registered),
        Err(Error::PrivilegeFailure {
            desired: UserGroup::Admin,
            current: UserGroup::Registered,
        })
    );
    assert_eq!(
        try_admin(UserGroup::Unregistered),
        Err(Error::PrivilegeFailure {
            desired: UserGroup::Admin,
            current: UserGroup::Unregistered,
        })
    );
}

#[test]
fn every_dialogue_transition_is_enumerable() {
    assert_eq!(next_dialogue(true, DialogueKind::Echo, false), DialogueKind::Private);
    assert_eq!(next_dialogue(true, DialogueKind::Echo, true), DialogueKind::Private);
    assert_eq!(next_dialogue(true, DialogueKind::Private, true), DialogueKind::Private);
    assert_eq!(next_dialogue(false, DialogueKind::Echo, true), DialogueKind::Chat);
    assert_eq!(next_dialogue(false, DialogueKind::Chat, true), DialogueKind::Chat);
    assert_eq!(next_dialogue(false, DialogueKind::Echo, false), DialogueKind::Echo);
    assert_eq!(next_dialogue(false, DialogueKind::Chat, false), DialogueKind::Echo);
}
