use regionrelay::catalog::{AliasIndex, Region, Regions};

fn region(code: &str, aliases: &[&str]) -> Region {
    Region {
        region: code.to_string(),
        aliases: aliases.iter().map(|s| s.to_string()).collect(),
    }
}

fn index(catalog: Vec<Region>) -> AliasIndex {
    AliasIndex::new(&catalog, "country").expect("catalog should be accepted")
}

#[test]
fn exact_alias_resolves_to_its_region() {
    let idx = index(vec![region("CENTRAL", &["capital", "cap"])]);
    let r = idx.extract_regions("capital");
    assert_eq!(r, Regions::Regions(vec!["CENTRAL".to_string()]));
}

#[test]
fn exact_alias_is_case_insensitive() {
    let idx = index(vec![region("CENTRAL", &["capital", "cap"])]);
    let r = idx.extract_regions("Capital");
    assert_eq!(r, Regions::Regions(vec!["CENTRAL".to_string()]));
    let r = idx.extract_regions("CAPITAL");
    assert_eq!(r, Regions::Regions(vec!["CENTRAL".to_string()]));
}

#[test]
fn unambiguous_prefix_resolves() {
    let idx = index(vec![
        region("CENTRAL", &["capital", "cap"]),
        region("SOUTH", &["harbor"]),
    ]);
    let r = idx.extract_regions("capi");
    assert_eq!(r, Regions::Regions(vec!["CENTRAL".to_string()]));
}

#[test]
fn ambiguous_prefix_lists_sorted_distinct_candidates() {
    let idx = index(vec![
        region("SOUTH", &["morton"]),
        region("CENTRAL", &["mont"]),
        region("NORTH", &["month"]),
    ]);
    let r = idx.extract_regions("mo");
    assert_eq!(
        r,
        Regions::BadRegion {
            region: "mo".to_string(),
            matches: vec![
                "CENTRAL".to_string(),
                "NORTH".to_string(),
                "SOUTH".to_string()
            ],
        }
    );
}

#[test]
fn unknown_token_has_empty_candidates() {
    let idx = index(vec![region("CENTRAL", &["capital"])]);
    let r = idx.extract_regions("zzz");
    assert_eq!(
        r,
        Regions::BadRegion { region: "zzz".to_string(), matches: vec![] }
    );
}

#[test]
fn resolution_preserves_order_and_duplicates() {
    let idx = index(vec![region("CENTRAL", &["capital", "cap"])]);
    let r = idx.extract_regions("capital cap");
    assert_eq!(
        r,
        Regions::Regions(vec!["CENTRAL".to_string(), "CENTRAL".to_string()])
    );
}

#[test]
fn exact_alias_beats_ambiguous_prefix() {
    let idx = index(vec![
        region("CENTRAL", &["mo"]),
        region("SOUTH", &["mor"]),
    ]);
    let r = idx.extract_regions("mo");
    assert_eq!(r, Regions::Regions(vec!["CENTRAL".to_string()]));
    let r = idx.extract_regions("m");
    assert_eq!(
        r,
        Regions::BadRegion {
            region: "m".to_string(),
            matches: vec!["CENTRAL".to_string(), "SOUTH".to_string()],
        }
    );
}

#[test]
fn keyword_short_circuits_to_all_regions() {
    let idx = index(vec![
        region("CENTRAL", &["capital"]),
        region("SOUTH", &["harbor"]),
    ]);
    let r = idx.extract_regions("capital country harbor");
    assert_eq!(
        r,
        Regions::Country(vec!["CENTRAL".to_string(), "SOUTH".to_string()])
    );
}

#[test]
fn keyword_is_case_insensitive() {
    let idx = index(vec![region("CENTRAL", &["capital"])]);
    let r = idx.extract_regions("Country");
    assert_eq!(r, Regions::Country(vec!["CENTRAL".to_string()]));
}

#[test]
fn first_unresolved_token_aborts_and_discards() {
    let idx = index(vec![region("CENTRAL", &["capital"])]);
    let r = idx.extract_regions("capital zzz");
    assert_eq!(
        r,
        Regions::BadRegion { region: "zzz".to_string(), matches: vec![] }
    );
}

#[test]
fn empty_text_resolves_to_empty_list() {
    let idx = index(vec![region("CENTRAL", &["capital"])]);
    assert_eq!(idx.extract_regions(""), Regions::Regions(vec![]));
    assert_eq!(idx.extract_regions("   "), Regions::Regions(vec![]));
}

#[test]
fn the_code_itself_is_an_alias_when_lowercase() {
    let idx = index(vec![region("north", &["up"])]);
    let r = idx.extract_regions("north");
    assert_eq!(r, Regions::Regions(vec!["north".to_string()]));
}

#[test]
fn cyrillic_aliases_fold_case() {
    let idx = index(vec![region("XX", &["москва"])]);
    let r = idx.extract_regions("МОСКВА");
    assert_eq!(r, Regions::Regions(vec!["XX".to_string()]));
}

#[test]
fn duplicate_alias_is_rejected() {
    let cat = vec![region("A1", &["x1"]), region("B2", &["x1"])];
    assert!(AliasIndex::new(&cat, "country").is_none());
}

#[test]
fn duplicate_code_is_rejected() {
    let cat = vec![region("A1", &["x1"]), region("A1", &["y1"])];
    assert!(AliasIndex::new(&cat, "country").is_none());
}
