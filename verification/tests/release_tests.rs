use github_release_tag::analyzer::BumpType;
use github_release_tag::github::{
    asset_content_type, asset_upload_request, asset_upload_url, commit_entries, fetch_more_tag_pages,
    CommitDetails, CommitItem,
};
use github_release_tag::release::{
    artifact_patterns, multiline_output_text, output_text, plan_bump_release, plan_custom_release,
    release_body, release_name, split_repository,
};
use github_release_tag::text::{decimal_string, split_on, trim};
use github_release_tag::utils::{
    get_latest_tag, get_valid_tags, sort_tags_descending, ParsedTag, RawTag, SemVersion, TagError,
};

fn raw(name: &str, sha: &str) -> RawTag {
    RawTag { name: name.to_string(), sha: sha.to_string() }
}

fn names(tags: &[ParsedTag]) -> Vec<String> {
    tags.iter().map(|t| t.raw_name.clone()).collect()
}

fn parsed(name: &str, version: &str) -> ParsedTag {
    ParsedTag {
        raw_name: name.to_string(),
        sha: format!("sha-{}", name),
        version: SemVersion::parse(version).unwrap(),
    }
}

#[test]
fn valid_tags_are_filtered_and_sorted() {
    let tags = vec![
        raw("v1.0.0", "a"),
        raw("v2.0.0-beta", "b"),
        raw("v1.2.0", "c"),
        raw("x1.0.0", "d"),
        raw("vbad", "e"),
        raw("v0.9.0", "f"),
        raw("v1.10.0", "g"),
    ];
    let valid = get_valid_tags(tags, "v").ok().unwrap();
    assert_eq!(names(&valid), vec!["v2.0.0-beta", "v1.10.0", "v1.2.0", "v1.0.0", "v0.9.0"]);
    assert_eq!(valid[1].sha, "g");
    assert_eq!(valid[1].version.minor(), 10);
}

#[test]
fn valid_tags_treat_prefix_literally() {
    let tags = vec![raw("v.1.0.0", "a"), raw("vx1.0.0", "b"), raw("v1.0.0", "c")];
    let valid = get_valid_tags(tags, "v.").ok().unwrap();
    assert_eq!(names(&valid), vec!["v.1.0.0"]);
}

#[test]
fn valid_tags_with_empty_prefix() {
    let tags = vec![raw("1.0.0", "a"), raw("v1.0.1", "b"), raw("1.0.0-rc.1", "c")];
    let valid = get_valid_tags(tags, "").ok().unwrap();
    assert_eq!(names(&valid), vec!["1.0.0", "1.0.0-rc.1"]);
}

#[test]
fn valid_tags_of_nothing() {
    let valid = get_valid_tags(Vec::new(), "v").ok().unwrap();
    assert!(valid.is_empty());
}

#[test]
fn oversized_prefix_pattern_is_an_error() {
    let prefix = "(".repeat(2_000_000);
    match get_valid_tags(vec![raw("v1.0.0", "a")], &prefix) {
        Err(TagError::InvalidPrefixPattern(_)) => {}
        Ok(_) => panic!("a pattern this large should not compile"),
    }
}

#[test]
fn sorting_keeps_equal_versions_in_order() {
    let tags = vec![
        parsed("a", "1.0.0"),
        parsed("b", "2.0.0"),
        parsed("c", "1.0.0"),
        parsed("d", "1.0.0-alpha"),
    ];
    let sorted = sort_tags_descending(tags);
    assert_eq!(names(&sorted), vec!["b", "a", "c", "d"]);
}

#[test]
fn latest_tag_skips_prereleases() {
    let tags = vec![parsed("v2.0.0-rc.1", "2.0.0-rc.1"), parsed("v1.4.2", "1.4.2"), parsed("v1.0.0", "1.0.0")];
    let latest = get_latest_tag(&tags, "v");
    assert_eq!(latest.raw_name, "v1.4.2");
    assert_eq!(latest.sha, "sha-v1.4.2");
    assert_eq!(latest.version.to_text(), "1.4.2");
    assert!(!latest.points_at_head());
}

#[test]
fn latest_tag_defaults_to_zero() {
    let tags = vec![parsed("v1.0.0-beta", "1.0.0-beta")];
    let latest = get_latest_tag(&tags, "rel-");
    assert_eq!(latest.raw_name, "rel-0.0.0");
    assert_eq!(latest.sha, "HEAD");
    assert_eq!(latest.version.to_text(), "0.0.0");
    assert!(latest.points_at_head());
    assert_eq!(get_latest_tag(&[], "v").raw_name, "v0.0.0");
}

#[test]
fn version_text_round_trips() {
    for text in ["0.0.0", "1.2.3", "10.20.30-rc.1", "1.0.0+build.5", "1.0.0-alpha+001"] {
        assert_eq!(SemVersion::parse(text).unwrap().to_text(), text);
    }
    assert!(SemVersion::parse("1.2").is_none());
    assert!(SemVersion::parse("01.2.3").is_none());
    let v = SemVersion::parse("3.4.5-beta.2+exp").unwrap();
    assert_eq!((v.major(), v.minor(), v.patch()), (3, 4, 5));
    assert_eq!(v.pre(), "beta.2");
    assert_eq!(v.build(), "exp");
    assert!(!v.is_stable());
}

#[test]
fn custom_release_strips_prefix() {
    let plan = plan_custom_release("v9.9.9", "v");
    assert_eq!(plan.release_type, "custom");
    assert_eq!(plan.new_version, "9.9.9");
    assert_eq!(plan.new_tag, "v9.9.9");
    let plan = plan_custom_release("9.9.9", "v");
    assert_eq!(plan.new_version, "9.9.9");
    assert_eq!(plan.new_tag, "v9.9.9");
}

#[test]
fn bump_release_versions() {
    let v = SemVersion::parse("1.2.3").unwrap();
    let major = plan_bump_release(&v, BumpType::Major, "v").unwrap();
    assert_eq!((major.release_type.as_str(), major.new_version.as_str(), major.new_tag.as_str()), ("major", "2.0.0", "v2.0.0"));
    let minor = plan_bump_release(&v, BumpType::Minor, "v").unwrap();
    assert_eq!(minor.new_version, "1.3.0");
    let patch = plan_bump_release(&v, BumpType::Patch, "").unwrap();
    assert_eq!((patch.release_type.as_str(), patch.new_tag.as_str()), ("patch", "1.2.4"));
    assert!(plan_bump_release(&v, BumpType::NoBump, "v").is_none());
}

#[test]
fn bump_release_keeps_build_metadata() {
    let v = SemVersion::parse("0.9.9+linux").unwrap();
    let plan = plan_bump_release(&v, BumpType::Patch, "v").unwrap();
    assert_eq!(plan.new_version, "0.9.10+linux");
}

#[test]
fn release_name_fills_tag() {
    assert_eq!(release_name("Release {tag}", "v1.0.0"), "Release v1.0.0");
    assert_eq!(release_name("{tag} / {tag}", "x"), "x / x");
    assert_eq!(release_name("Plain name", "x"), "Plain name");
    assert_eq!(release_name("{ta{tag}g}", "Q"), "{taQg}");
    assert_eq!(release_name("", "x"), "");
}

#[test]
fn artifact_patterns_split_and_trim() {
    assert_eq!(artifact_patterns("a/*, b/*\n\n c ,"), vec!["a/*", "b/*", "c"]);
    assert!(artifact_patterns("").is_empty());
    assert!(artifact_patterns(" ,\n").is_empty());
}

#[test]
fn repository_is_split_at_slash() {
    assert_eq!(split_repository("owner/repo"), Some(("owner".to_string(), "repo".to_string())));
    assert_eq!(split_repository("a/b/c"), Some(("a".to_string(), "b".to_string())));
    assert_eq!(split_repository("noslash"), None);
}

#[test]
fn output_texts() {
    assert_eq!(output_text("new_tag", "v1.0.0", true), "new_tag=v1.0.0");
    assert_eq!(output_text("new_tag", "v1.0.0", false), "::set-output name=new_tag::v1.0.0");
    assert_eq!(multiline_output_text("changelog", "a\nb", true), "changelog<<EOF\na\nb\nEOF");
    assert_eq!(multiline_output_text("changelog", "a", false), "::set-output name=changelog::\na");
}

#[test]
fn upload_url_drops_template() {
    let url = "https://uploads.github.com/repos/o/r/releases/1/assets{?name,label}";
    assert_eq!(
        asset_upload_url(url, "app.zip"),
        "https://uploads.github.com/repos/o/r/releases/1/assets?name=app.zip"
    );
    assert_eq!(asset_upload_url("https://h/x", "f"), "https://h/x?name=f");
}

#[test]
fn commit_entries_pair_sha_and_message() {
    let items = vec![
        CommitItem { sha: "s1".to_string(), commit: CommitDetails { message: "m1".to_string() } },
        CommitItem { sha: "s2".to_string(), commit: CommitDetails { message: "m2".to_string() } },
    ];
    assert_eq!(
        commit_entries(&items),
        vec![("s1".to_string(), "m1".to_string()), ("s2".to_string(), "m2".to_string())]
    );
}

#[test]
fn text_helpers() {
    assert_eq!(trim("\u{3000} x y\u{a0}\t"), "x y");
    assert_eq!(trim("   "), "");
    assert_eq!(split_on("a:b::c", &[':']), vec!["a", "b", "", "c"]);
    assert_eq!(split_on("", &[',']), vec![""]);
    assert_eq!(decimal_string(0), "0");
    assert_eq!(decimal_string(1234567890), "1234567890");
    assert_eq!(decimal_string(u64::MAX), u64::MAX.to_string());
}

#[test]
fn valid_tags_are_ordered_pairwise_and_stably() {
    let tags = vec![
        raw("v1.0.0", "first"),
        raw("v1.0.0-rc.1", "a"),
        raw("v3.0.0", "b"),
        raw("v1.0.0", "second"),
        raw("v2.0.0", "c"),
    ];
    let valid = get_valid_tags(tags, "v").ok().unwrap();
    let shas: Vec<&str> = valid.iter().map(|t| t.sha.as_str()).collect();
    assert_eq!(shas, vec!["b", "c", "first", "second", "a"]);
}

#[test]
fn content_type_follows_the_extension() {
    assert_eq!(asset_content_type("app.zip"), "application/zip");
    assert_eq!(asset_content_type("notes.txt"), "text/plain");
    assert_eq!(asset_content_type("dist/data.json"), "application/json");
    assert_eq!(asset_content_type("archive.tar.gz"), "application/gzip");
}

#[test]
fn content_type_without_extension_is_octet_stream() {
    assert_eq!(asset_content_type("README"), "application/octet-stream");
    assert_eq!(asset_content_type(""), "application/octet-stream");
    assert_eq!(asset_content_type("app.unknownext"), "application/octet-stream");
}

#[test]
fn upload_request_gives_address_and_content_type() {
    let url = "https://uploads.github.com/repos/o/r/releases/1/assets{?name,label}";
    let (address, content_type) = asset_upload_request(url, "app.zip");
    assert_eq!(address, "https://uploads.github.com/repos/o/r/releases/1/assets?name=app.zip");
    assert_eq!(content_type, "application/zip");
    let (address, content_type) = asset_upload_request("https://h/x", "LICENSE");
    assert_eq!(address, "https://h/x?name=LICENSE");
    assert_eq!(content_type, "application/octet-stream");
}

#[test]
fn more_tag_pages_only_after_a_full_first_page() {
    assert!(fetch_more_tag_pages(true, 100));
    assert!(!fetch_more_tag_pages(true, 99));
    assert!(!fetch_more_tag_pages(true, 0));
    assert!(!fetch_more_tag_pages(false, 100));
    assert!(!fetch_more_tag_pages(true, 101));
}

#[test]
fn release_body_falls_back_to_changelog() {
    assert_eq!(release_body("", "## Features\n- a"), "## Features\n- a");
    assert_eq!(release_body("Custom notes", "## Features\n- a"), "Custom notes");
    assert_eq!(release_body(" ", "log"), " ");
    assert_eq!(release_body("", ""), "");
}
