use regionrelay::tags::{TagValidator, Tags};

fn validator(tags: &[&str]) -> TagValidator {
    TagValidator::new(tags.iter().map(|s| s.to_string()).collect())
}

#[test]
fn lower_and_upper_tokens_resolve_alike() {
    let v = validator(&["A"]);
    let low = v.extract_tags("a");
    let up = v.extract_tags("A");
    assert_eq!(low, up);
    assert_eq!(low, Tags::Tags(vec!["A".to_string()]));
}

#[test]
fn unknown_tag_aborts_with_the_raw_token() {
    let v = validator(&["A", "B"]);
    let r = v.extract_tags("a zz b");
    assert_eq!(r, Tags::BadTag("zz".to_string()));
}

#[test]
fn tags_preserve_order_and_duplicates() {
    let v = validator(&["A", "B"]);
    let r = v.extract_tags("b a b");
    assert_eq!(
        r,
        Tags::Tags(vec!["B".to_string(), "A".to_string(), "B".to_string()])
    );
}

#[test]
fn empty_text_resolves_to_no_tags() {
    let v = validator(&["A"]);
    assert_eq!(v.extract_tags(""), Tags::Tags(vec![]));
}
