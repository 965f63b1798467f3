use github_release_tag::analyzer::BumpType;
use github_release_tag::changelog::{
    changelog_from_parsed, generate_changelog, get_default_rules, merge_custom_rules, ReleaseRule,
    ReleaseRules,
};
use github_release_tag::conventional::ConventionalCommit;

fn section_of(rules: &ReleaseRules, key: &str) -> Option<String> {
    rules.get(key).and_then(|r| r.section.clone())
}

fn bump_of(rules: &ReleaseRules, key: &str) -> Option<BumpType> {
    rules.get(key).map(|r| r.bump)
}

#[test]
fn default_rules_follow_angular() {
    let rules = get_default_rules();
    assert_eq!(rules.len(), 10);
    assert_eq!(bump_of(&rules, "feat"), Some(BumpType::Minor));
    assert_eq!(bump_of(&rules, "fix"), Some(BumpType::Patch));
    assert_eq!(section_of(&rules, "feat").as_deref(), Some("Features"));
    assert_eq!(section_of(&rules, "fix").as_deref(), Some("Bug Fixes"));
    for key in ["perf", "revert", "docs", "style", "refactor", "test", "build", "ci"] {
        assert_eq!(bump_of(&rules, key), Some(BumpType::NoBump));
    }
    assert_eq!(section_of(&rules, "perf").as_deref(), Some("Performance Improvements"));
    assert_eq!(section_of(&rules, "ci").as_deref(), Some("Continuous Integration"));
    assert!(rules.get("chore").is_none());
}

#[test]
fn empty_custom_rules_keep_defaults() {
    let rules = merge_custom_rules(get_default_rules(), "");
    assert_eq!(rules.len(), 10);
    assert_eq!(bump_of(&rules, "feat"), Some(BumpType::Minor));
}

#[test]
fn custom_rule_adds_keyword() {
    let rules = merge_custom_rules(get_default_rules(), "chore:patch:Chores");
    assert_eq!(rules.len(), 11);
    assert_eq!(bump_of(&rules, "chore"), Some(BumpType::Patch));
    assert_eq!(section_of(&rules, "chore").as_deref(), Some("Chores"));
}

#[test]
fn custom_rule_without_section_keeps_default_section() {
    let rules = merge_custom_rules(get_default_rules(), "feat:major");
    assert_eq!(bump_of(&rules, "feat"), Some(BumpType::Major));
    assert_eq!(section_of(&rules, "feat").as_deref(), Some("Features"));
}

#[test]
fn custom_rule_is_trimmed_and_lower_cased() {
    let rules = merge_custom_rules(get_default_rules(), " Docs : Minor :  , Ops:PATCH: Operations ");
    assert_eq!(bump_of(&rules, "docs"), Some(BumpType::Minor));
    assert_eq!(section_of(&rules, "docs").as_deref(), Some("Documentation"));
    assert_eq!(bump_of(&rules, "ops"), Some(BumpType::Patch));
    assert_eq!(section_of(&rules, "ops").as_deref(), Some("Operations"));
}

#[test]
fn malformed_custom_rules_are_skipped() {
    let rules = merge_custom_rules(get_default_rules(), "nonsense,,also-nonsense");
    assert_eq!(rules.len(), 10);
}

#[test]
fn custom_rule_with_unknown_bump_and_no_section() {
    let rules = merge_custom_rules(ReleaseRules::new(), "wip:someday:");
    assert_eq!(rules.len(), 1);
    assert_eq!(bump_of(&rules, "wip"), Some(BumpType::NoBump));
    assert_eq!(section_of(&rules, "wip"), None);
}

#[test]
fn later_custom_rule_wins() {
    let rules = merge_custom_rules(ReleaseRules::new(), "x:major:A,x:minor");
    assert_eq!(bump_of(&rules, "x"), Some(BumpType::Minor));
    assert_eq!(section_of(&rules, "x").as_deref(), Some("A"));
}

fn pair(sha: &str, msg: &str) -> (String, String) {
    (sha.to_string(), msg.to_string())
}

#[test]
fn changelog_groups_and_sorts_sections() {
    let rules = get_default_rules();
    let commits = vec![
        pair("1111111aaaa", "feat: add login"),
        pair("2222222bbbb", "fix: crash on start"),
        pair("3333333cccc", "not conventional"),
        pair("4444444dddd", "chore: no section"),
        pair("5555555eeee", "feat(ui): dark mode"),
    ];
    let expected = "### Bug Fixes\n\n* crash on start (2222222)\n\n### Features\n\n* add login (1111111)\n* dark mode (5555555)\n\n";
    assert_eq!(generate_changelog(&commits, &rules), expected);
}

#[test]
fn changelog_of_no_commits_is_empty() {
    let rules = get_default_rules();
    assert_eq!(generate_changelog(&[], &rules), "");
    let commits = vec![pair("abc", "just words"), pair("def", "chore: x")];
    assert_eq!(generate_changelog(&commits, &rules), "");
}

#[test]
fn changelog_trims_messages_and_short_shas() {
    let rules = get_default_rules();
    let commits = vec![pair("ab", "  \n docs: explain \n")];
    assert_eq!(generate_changelog(&commits, &rules), "### Documentation\n\n* explain (ab)\n\n");
}

#[test]
fn changelog_reads_type_case_insensitively() {
    let rules = get_default_rules();
    let commits = vec![pair("0123456789", "Fix: upper")];
    assert_eq!(generate_changelog(&commits, &rules), "### Bug Fixes\n\n* upper (0123456)\n\n");
}

#[test]
fn changelog_sections_are_alphabetical() {
    let rules = get_default_rules();
    let commits = vec![
        pair("a", "test: t"),
        pair("b", "ci: c"),
        pair("c", "build: b"),
        pair("d", "ci: c2"),
    ];
    let expected = "### Build Systems\n\n* b (c)\n\n### Continuous Integration\n\n* c (b)\n* c2 (d)\n\n### Tests\n\n* t (a)\n\n";
    assert_eq!(generate_changelog(&commits, &rules), expected);
}

#[test]
fn changelog_from_parsed_commits() {
    let mut rules = ReleaseRules::new();
    rules.insert(
        "feat".to_string(),
        ReleaseRule { bump: BumpType::Minor, section: Some("New".to_string()) },
    );
    let parsed = vec![
        (
            "deadbeefcafe".to_string(),
            Some(ConventionalCommit {
                kind: "feat".to_string(),
                description: "thing".to_string(),
                breaking: false,
            }),
        ),
        ("0000000".to_string(), None),
    ];
    assert_eq!(changelog_from_parsed(&parsed, &rules), "### New\n\n* thing (deadbee)\n\n");
}

fn same_rules(a: &ReleaseRules, b: &ReleaseRules, keys: &[&str]) -> bool {
    a.len() == b.len()
        && keys.iter().all(|k| {
            a.get(k).map(|r| (r.bump, r.section.clone())) == b.get(k).map(|r| (r.bump, r.section.clone()))
        })
}

#[test]
fn custom_rules_compose_with_comma() {
    let keys = ["feat", "fix", "chore", "docs", "x"];
    let s1 = "chore:patch:Chores,feat:major";
    let s2 = "x:minor, docs:major:Docs";
    let one_by_one = merge_custom_rules(merge_custom_rules(get_default_rules(), s1), s2);
    let joined = merge_custom_rules(get_default_rules(), &format!("{},{}", s1, s2));
    assert!(same_rules(&one_by_one, &joined, &keys));
}

#[test]
fn custom_rules_merge_is_idempotent() {
    let keys = ["feat", "fix", "chore", "x"];
    let s = "x:major:A,x:minor,chore:patch";
    let once = merge_custom_rules(get_default_rules(), s);
    let twice = merge_custom_rules(merge_custom_rules(get_default_rules(), s), s);
    assert!(same_rules(&once, &twice, &keys));
}

#[test]
fn trimmed_messages_give_same_changelog() {
    let rules = get_default_rules();
    let raw = vec![pair("1234567", "  feat: a \n"), pair("89abcde", "\tfix: b")];
    let trimmed: Vec<(String, String)> =
        raw.iter().map(|(s, m)| (s.clone(), m.trim().to_string())).collect();
    assert_eq!(generate_changelog(&raw, &rules), generate_changelog(&trimmed, &rules));
}
