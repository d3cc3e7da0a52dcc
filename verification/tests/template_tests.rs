use child_issue::{parse, process, substitute, SubstitutionMap};

fn template() -> String {
    let t = r#"---
        name: Template
        about: This is a template
        title: Test title
        labels: new,bug
        assignees: ''

        ----

        # Sample Template
        ## Subs
        {{ first }}
        {{ second }}
        ## Other Stuff
        Hi Mom!
        "#;

    t.to_string()
}

fn raw_body() -> String {
    r#"# Sample Template
        ## Subs
        {{ first }}
        {{ second }}
        ## Other Stuff
        Hi Mom!
        "#
    .to_string()
}

fn subbed_body() -> String {
    let t = r#"# Sample Template
        ## Subs
        FIRST
        SECOND
        ## Other Stuff
        Hi Mom!
        "#;

    t.to_string()
}

fn partial_sub() -> String {
    let t = r#"# Sample Template
        ## Subs
        FIRST
        {{ second }}
        ## Other Stuff
        Hi Mom!
        "#;

    t.to_string()
}

// The body exactly as it stands inside the sample template, its own
// indentation and blank lines kept.
fn template_body() -> String {
    r#"        # Sample Template
        ## Subs
        {{ first }}
        {{ second }}
        ## Other Stuff
        Hi Mom!
        "#
    .to_string()
}

#[test]
fn full_template_substitution() {
    let mut subs = SubstitutionMap::new();

    subs.insert("first".to_string(), "FIRST".to_string());
    subs.insert("second".to_string(), "SECOND".to_string());

    assert_eq!(subbed_body(), substitute(&raw_body(), &subs));
}

#[test]
fn sub_without_matches() {
    assert_eq!(raw_body(), substitute(&raw_body(), &SubstitutionMap::new()));
}

#[test]
fn partial_substitution() {
    let mut subs = SubstitutionMap::new();

    subs.insert("first".to_string(), "FIRST".to_string());

    assert_eq!(partial_sub(), substitute(&raw_body(), &subs));
}

#[test]
fn template_decomposition() {
    let m = parse(&template());

    assert_eq!("Test title", m.title);
    assert_eq!(vec!["new", "bug"], m.labels);
    assert_eq!(template_body(), m.body);
}

#[test]
fn decomposition_keeps_whole_assignee_value() {
    let m = parse(&template());

    assert_eq!(Some("''".to_string()), m.assignee);
}

#[test]
fn empty_document_degrades_silently() {
    let m = parse("");

    assert_eq!("", m.title);
    assert!(m.labels.is_empty());
    assert_eq!(None, m.assignee);
    assert_eq!("", m.body);
}

#[test]
fn short_document_fills_what_it_can() {
    let m = parse("---\nname: x\nabout: y\ntitle: Only a title");

    assert_eq!("Only a title", m.title);
    assert!(m.labels.is_empty());
    assert_eq!(None, m.assignee);
    assert_eq!("", m.body);
}

#[test]
fn title_takes_text_after_last_colon() {
    let m = parse("---\nname: x\nabout: y\ntitle: note: the last colon wins\nlabels: ''\nassignees: ''");

    assert_eq!("the last colon wins", m.title);
}

#[test]
fn title_line_without_colon_is_kept_whole() {
    let m = parse("---\nname: x\nabout: y\n   no colon here\nlabels: ''\nassignees: ''");

    assert_eq!("no colon here", m.title);
}

#[test]
fn labels_empty_marker_yields_no_labels() {
    let m = parse("---\nname: x\nabout: y\ntitle: t\nlabels: ''\nassignees: a");

    assert!(m.labels.is_empty());
}

#[test]
fn labels_are_quote_stripped_and_split_verbatim() {
    let m = parse("---\nname: x\nabout: y\ntitle: t\nlabels: 'new, bug'\nassignees: a");

    assert_eq!(vec!["new", " bug"], m.labels);
}

#[test]
fn assignee_line_is_not_split_on_commas() {
    let m = parse("---\nname: x\nabout: y\ntitle: t\nlabels: ''\nassignees: ann,bob");

    assert_eq!(Some("ann,bob".to_string()), m.assignee);
}

#[test]
fn body_keeps_blank_lines() {
    let m = parse("---\n1\n2\n3\n4\n5\n\n----\n\nfirst\n\nlast\n");

    assert_eq!("first\n\nlast", m.body);
}

#[test]
fn process_substitutes_the_parsed_body() {
    let mut subs = SubstitutionMap::new();

    subs.insert("first".to_string(), "FIRST".to_string());
    subs.insert("second".to_string(), "SECOND".to_string());

    let m = process(&template(), &subs);

    assert_eq!("Test title", m.title);
    assert_eq!(vec!["new", "bug"], m.labels);
    assert_eq!(
        template_body()
            .replace("{{ first }}", "FIRST")
            .replace("{{ second }}", "SECOND"),
        m.body
    );
}
