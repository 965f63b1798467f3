use github_release_tag::analyzer::{analyze_commits, bump_from_commits, BumpType};
use github_release_tag::changelog::{get_default_rules, ReleaseRule, ReleaseRules};
use github_release_tag::conventional::ConventionalCommit;

fn all_bumps() -> Vec<BumpType> {
    vec![BumpType::NoBump, BumpType::Patch, BumpType::Minor, BumpType::Major]
}

#[test]
fn as_str_names_each_bump() {
    assert_eq!(BumpType::Major.as_str(), "major");
    assert_eq!(BumpType::Minor.as_str(), "minor");
    assert_eq!(BumpType::Patch.as_str(), "patch");
    assert_eq!(BumpType::NoBump.as_str(), "none");
}

#[test]
fn from_str_ignores_case() {
    assert_eq!(BumpType::from_str("major"), BumpType::Major);
    assert_eq!(BumpType::from_str("MAJOR"), BumpType::Major);
    assert_eq!(BumpType::from_str("Minor"), BumpType::Minor);
    assert_eq!(BumpType::from_str("pAtCh"), BumpType::Patch);
}

#[test]
fn from_str_unknown_is_no_bump() {
    assert_eq!(BumpType::from_str("none"), BumpType::NoBump);
    assert_eq!(BumpType::from_str(""), BumpType::NoBump);
    assert_eq!(BumpType::from_str("huge"), BumpType::NoBump);
    assert_eq!(BumpType::from_str(" major"), BumpType::NoBump);
}

#[test]
fn from_str_reads_as_str_back() {
    for b in all_bumps() {
        assert_eq!(BumpType::from_str(b.as_str()), b);
    }
}

#[test]
fn level_orders_bumps() {
    let levels: Vec<u8> = all_bumps().iter().map(|b| b.level()).collect();
    assert_eq!(levels, vec![0, 1, 2, 3]);
    assert!(BumpType::NoBump < BumpType::Patch);
    assert!(BumpType::Minor < BumpType::Major);
}

#[test]
fn feat_commit_gives_minor() {
    let rules = get_default_rules();
    assert_eq!(analyze_commits(&["feat: add a thing"], "patch", &rules), BumpType::Minor);
}

#[test]
fn fix_commit_gives_patch() {
    let rules = get_default_rules();
    assert_eq!(analyze_commits(&["fix: repair a thing"], "minor", &rules), BumpType::Patch);
}

#[test]
fn highest_rule_bump_wins() {
    let rules = get_default_rules();
    let msgs = ["fix: one", "feat(core): two", "docs: three"];
    assert_eq!(analyze_commits(&msgs, "patch", &rules), BumpType::Minor);
}

#[test]
fn breaking_bang_forces_major() {
    let rules = get_default_rules();
    let msgs = ["fix: one", "refactor!: drop the old api"];
    assert_eq!(analyze_commits(&msgs, "patch", &rules), BumpType::Major);
}

#[test]
fn breaking_footer_forces_major() {
    let rules = get_default_rules();
    let msgs = ["feat: new parser\n\nBREAKING CHANGE: the old one is gone"];
    assert_eq!(analyze_commits(&msgs, "patch", &rules), BumpType::Major);
}

#[test]
fn commit_type_is_read_case_insensitively() {
    let rules = get_default_rules();
    assert_eq!(analyze_commits(&["FEAT: shout"], "false", &rules), BumpType::Minor);
}

#[test]
fn default_bump_when_nothing_matches() {
    let rules = get_default_rules();
    let msgs = ["update readme", "docs: typo"];
    assert_eq!(analyze_commits(&msgs, "patch", &rules), BumpType::Patch);
    assert_eq!(analyze_commits(&msgs, "minor", &rules), BumpType::Minor);
    assert_eq!(analyze_commits(&msgs, "Major", &rules), BumpType::Major);
    assert_eq!(analyze_commits(&msgs, "false", &rules), BumpType::NoBump);
    assert_eq!(analyze_commits(&msgs, "whatever", &rules), BumpType::Patch);
}

#[test]
fn no_commits_use_the_default() {
    let rules = get_default_rules();
    assert_eq!(analyze_commits(&[], "minor", &rules), BumpType::Minor);
    assert_eq!(analyze_commits(&[], "false", &rules), BumpType::NoBump);
}

#[test]
fn custom_rule_bumps_major() {
    let mut rules = ReleaseRules::new();
    rules.insert(
        "chore".to_string(),
        ReleaseRule { bump: BumpType::Major, section: None },
    );
    assert_eq!(analyze_commits(&["chore: bump deps"], "patch", &rules), BumpType::Major);
}

fn commit(kind: &str, breaking: bool) -> Option<ConventionalCommit> {
    Some(ConventionalCommit {
        kind: kind.to_string(),
        description: "d".to_string(),
        breaking,
    })
}

#[test]
fn bump_from_parsed_commits() {
    let rules = get_default_rules();
    let cs = vec![commit("fix", false), None, commit("feat", false)];
    assert_eq!(bump_from_commits(&cs, "patch", &rules), BumpType::Minor);
    let cs = vec![commit("docs", false), commit("fix", true)];
    assert_eq!(bump_from_commits(&cs, "patch", &rules), BumpType::Major);
    let cs = vec![None, commit("style", false)];
    assert_eq!(bump_from_commits(&cs, "false", &rules), BumpType::NoBump);
    assert_eq!(bump_from_commits(&cs, "minor", &rules), BumpType::Minor);
}

#[test]
fn bump_from_parsed_commits_wants_lower_case_types() {
    let rules = get_default_rules();
    let cs = vec![commit("FEAT", false)];
    assert_eq!(bump_from_commits(&cs, "patch", &rules), BumpType::Patch);
}

#[test]
fn commit_order_does_not_matter() {
    let rules = get_default_rules();
    let a = ["fix: a", "feat: b", "docs: c"];
    let b = ["docs: c", "fix: a", "feat: b"];
    assert_eq!(analyze_commits(&a, "patch", &rules), analyze_commits(&b, "patch", &rules));
    let c = ["chore: a", "refactor!: b"];
    let d = ["refactor!: b", "chore: a"];
    assert_eq!(analyze_commits(&c, "false", &rules), analyze_commits(&d, "false", &rules));
}

#[test]
fn more_commits_never_lower_the_bump_with_false_default() {
    let rules = get_default_rules();
    let ms1 = vec!["feat: a"];
    let mut ms2 = ms1.clone();
    ms2.push("fix: b");
    ms2.push("noise");
    assert!(analyze_commits(&ms2, "false", &rules) >= analyze_commits(&ms1, "false", &rules));
    let mut ms3 = ms2.clone();
    ms3.push("perf!: faster");
    assert_eq!(analyze_commits(&ms3, "false", &rules), BumpType::Major);
}

#[test]
fn neutral_commit_changes_nothing() {
    let rules = get_default_rules();
    let ms = vec!["fix: a"];
    for extra in ["not conventional", "docs: words", "chore: unknown type"] {
        let mut more = ms.clone();
        more.push(extra);
        assert_eq!(analyze_commits(&more, "minor", &rules), analyze_commits(&ms, "minor", &rules));
    }
}

#[test]
fn lowercase_folds_ascii() {
    assert_eq!(github_release_tag::text::lowercase("ChOrE"), "chore");
    assert_eq!(github_release_tag::text::lowercase("ÄB"), "äb");
}
