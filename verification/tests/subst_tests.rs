use child_issue::{substitute, substitutions, SubstitutionMap};

#[test]
fn substitution_test() {
    let entries = vec![("INPUT_SUBSTITUTION_TARGET".to_string(), "value".to_string())];
    let mut subs = SubstitutionMap::new();

    substitutions(&entries, &mut subs);

    assert_eq!(Some("value".to_string()), subs.get("TARGET"));
}

#[test]
fn substitutions_ignores_other_entries() {
    let entries = vec![
        ("PATH".to_string(), "/usr/bin".to_string()),
        ("INPUT_TITLE".to_string(), "t".to_string()),
        ("INPUT_SUBSTITUTION_NAME".to_string(), "n".to_string()),
    ];
    let mut subs = SubstitutionMap::new();

    substitutions(&entries, &mut subs);

    assert_eq!(1, subs.len());
    assert_eq!(Some("n".to_string()), subs.get("NAME"));
    assert_eq!(None, subs.get("PATH"));
}

#[test]
fn substitutions_strips_the_prefix_once() {
    let entries = vec![(
        "INPUT_SUBSTITUTION_INPUT_SUBSTITUTION_X".to_string(),
        "v".to_string(),
    )];
    let mut subs = SubstitutionMap::new();

    substitutions(&entries, &mut subs);

    assert_eq!(Some("v".to_string()), subs.get("INPUT_SUBSTITUTION_X"));
}

#[test]
fn insert_replaces_an_existing_key() {
    let mut subs = SubstitutionMap::new();

    subs.insert("k".to_string(), "a".to_string());
    subs.insert("k".to_string(), "b".to_string());

    assert_eq!(1, subs.len());
    assert_eq!(Some("b".to_string()), subs.get("k"));
}

#[test]
fn get_on_an_absent_key_is_none() {
    let mut subs = SubstitutionMap::new();

    subs.insert("k".to_string(), "a".to_string());

    assert_eq!(None, subs.get("missing"));
}

#[test]
fn empty_mapping_is_identity() {
    let body = "a {{ x }} b";

    assert_eq!(body, substitute(body, &SubstitutionMap::new()));
}

#[test]
fn body_without_tokens_is_unchanged() {
    let mut subs = SubstitutionMap::new();

    subs.insert("x".to_string(), "X".to_string());

    let body = "no tokens here, only text { and } and {single} braces";

    assert_eq!(body, substitute(body, &subs));
}

#[test]
fn token_alone_is_replaced() {
    let mut subs = SubstitutionMap::new();

    subs.insert("k".to_string(), "V".to_string());

    assert_eq!("V", substitute("{{ k }}", &subs));
}

#[test]
fn every_occurrence_is_replaced() {
    let mut subs = SubstitutionMap::new();

    subs.insert("k".to_string(), "V".to_string());

    assert_eq!("V and V and V", substitute("{{ k }} and {{ k }} and {{ k }}", &subs));
}

#[test]
fn token_needs_its_exact_spacing() {
    let mut subs = SubstitutionMap::new();

    subs.insert("k".to_string(), "V".to_string());

    assert_eq!("{{k}} {{  k  }} V", substitute("{{k}} {{  k  }} {{ k }}", &subs));
}

#[test]
fn earlier_replacement_feeds_later_pair() {
    // The pairs apply in order, each acting on the already rewritten body, so
    // a replacement value that holds a later pair's token is itself rewritten.
    let mut subs = SubstitutionMap::new();

    subs.insert("first".to_string(), "{{ second }}".to_string());
    subs.insert("second".to_string(), "SECOND".to_string());

    assert_eq!("SECOND", substitute("{{ first }}", &subs));
}
