use bito_lint::completeness::{
    check, classify_body, extract_section, find_section_content, required_sections, SectionState,
};

const HANDOFF: &str = r#"# Handoff: Test

**Date:** 2026-02-07
**Branch:** main
**State:** Green

## Where things stand

Everything works fine.

## Decisions made

- Chose X over Y because Z.

## What's next

1. Do the thing.

## Landmines

- Watch out for the thing.
"#;

#[test]
fn test_complete_handoff() {
    let result = check(HANDOFF, "handoff");
    assert!(result.is_ok());
    let report = result.ok().unwrap();
    assert!(report.passed());
    assert!(report.missing.is_empty());
    assert!(report.empty.is_empty());
}

#[test]
fn test_missing_section() {
    let content = r#"# Handoff: Test

## Where things stand

Everything works fine.

## Decisions made

- Chose X.
"#;
    assert!(matches!(
        find_section_content(content, "Landmines"),
        SectionState::Missing
    ));
}

#[test]
fn test_empty_section() {
    let content = r#"# Handoff: Test

## Where things stand

Everything works fine.

## Landmines

TBD

## What's next

Do stuff.
"#;
    assert!(matches!(
        find_section_content(content, "Landmines"),
        SectionState::Empty
    ));
}

#[test]
fn extract_yields_text_between_headings() {
    let content = "# T\n\n## Where things stand\n\n  First line.  \nSecond line.\n\n## Decisions made\n\nX.\n";
    assert_eq!(
        extract_section(content, "Where things stand"),
        Some("First line.\nSecond line.".to_string())
    );
    assert_eq!(extract_section(content, "Landmines"), None);
}

#[test]
fn extract_keeps_deeper_headings_and_ignores_case() {
    let content = "## where THINGS stand\nA\n### Detail\nB\n## Next\nC";
    assert_eq!(
        extract_section(content, "Where things stand"),
        Some("A\n### Detail\nB".to_string())
    );
    assert_eq!(extract_section(content, "detail"), Some("B".to_string()));
}

#[test]
fn heading_needs_two_or_three_hashes_and_a_space() {
    assert_eq!(extract_section("# Landmines\nA", "Landmines"), None);
    assert_eq!(extract_section("##Landmines\nA", "Landmines"), None);
    assert_eq!(extract_section("#### Landmines\nA", "Landmines"), None);
    assert_eq!(extract_section("### Landmines\nA", "Landmines"), Some("A".to_string()));
}

#[test]
fn handoff_missing_landmines_fails() {
    let content = "## Where things stand\nA.\n## Decisions made\nB.\n## What's next\nC.\n";
    let report = check(content, "handoff").ok().unwrap();
    assert!(!report.passed());
    assert_eq!(report.missing, vec!["Landmines".to_string()]);
    assert!(report.empty.is_empty());
}

#[test]
fn handoff_tbd_landmines_is_empty() {
    let content = "## Where things stand\nA.\n## Decisions made\nB.\n## What's next\nC.\n## Landmines\n   tBd   \n";
    assert_eq!(find_section_content(content, "Landmines"), SectionState::Empty);
    let report = check(content, "handoff").ok().unwrap();
    assert!(!report.passed());
    assert!(report.missing.is_empty());
    assert_eq!(report.empty, vec!["Landmines".to_string()]);
}

#[test]
fn unknown_template_is_a_configuration_error() {
    let result = check(HANDOFF, "unknown");
    assert!(result.is_err());
    assert_eq!(result.err().unwrap().template, "unknown".to_string());
    assert!(required_sections("unknown").is_none());
}

#[test]
fn templates_list_their_sections_in_order() {
    assert_eq!(
        required_sections("adr").unwrap(),
        vec![
            "Context and Problem Statement",
            "Decision Drivers",
            "Considered Options",
            "Decision Outcome",
            "Consequences"
        ]
    );
    assert_eq!(required_sections("handoff").unwrap().len(), 4);
    assert_eq!(
        required_sections("design-doc").unwrap(),
        vec!["Overview", "Context", "Approach", "Alternatives considered", "Consequences"]
    );
}

#[test]
fn missing_and_empty_are_reported_in_template_order() {
    let content = "## Consequences\n\n## Overview\nn/a\n## Approach\nDo it.\n";
    let report = check(content, "design-doc").ok().unwrap();
    assert_eq!(
        report.missing,
        vec!["Context".to_string(), "Alternatives considered".to_string()]
    );
    assert_eq!(
        report.empty,
        vec!["Overview".to_string(), "Consequences".to_string()]
    );
}

#[test]
fn placeholders_match_whole_bodies_only() {
    for p in ["", "tbd", "TODO", "N/A", "...", "\u{2014}", "Placeholder"] {
        assert_eq!(classify_body(p), SectionState::Empty, "{p}");
    }
    assert_eq!(classify_body("TBD soon"), SectionState::Present);
    assert_eq!(classify_body("Yes"), SectionState::Present);
}
