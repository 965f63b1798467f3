//! Release rules (which commit types bump the version and under which
//! changelog section they are listed) and the Markdown changelog.
use vstd::prelude::*;
use vstd::hash_map::StringHashMap;

use crate::analyzer::{bump_named, BumpType};
use crate::conventional::{
    commit_view, conventional_parts, parse_conventional, CommitView, ConventionalCommit,
};
use crate::text::{
    concat, first_chars, lemma_lex_irreflexive, lemma_lex_total, lemma_lex_transitive, lex_lt,
    lemma_split_concat, lemma_trim_idempotent, lower_text, lowercase, same_text, split_on,
    split_spec, take_chars, text_less, trim, trim_spec,
};

verus! {

/// How commits of one type are treated: the bump they call for, and the
/// changelog section they are listed under, if any.
#[derive(Debug, Clone)]
pub struct ReleaseRule {
    pub bump: BumpType,
    pub section: Option<String>,
}

/// A rule as plain values: (bump, section).
pub type RuleView = (BumpType, Option<Seq<char>>);

/// Rules by commit type.
pub type RulesView = Map<Seq<char>, RuleView>;

/// The view of an optional string.
pub open spec fn opt_text(s: Option<String>) -> Option<Seq<char>> {
    match s {
        Some(s) => Some(s@),
        None => None,
    }
}

impl View for ReleaseRule {
    type V = RuleView;

    open spec fn view(&self) -> RuleView {
        (self.bump, opt_text(self.section))
    }
}

/// The release rules, keyed by commit type.
pub struct ReleaseRules {
    map: StringHashMap<ReleaseRule>,
}

impl View for ReleaseRules {
    type V = RulesView;

    closed spec fn view(&self) -> RulesView {
        self.map@.map_values(|r: ReleaseRule| r@)
    }
}

impl ReleaseRules {
    /// No rules.
    pub fn new() -> (r: ReleaseRules)
        ensures
            r@ == Map::<Seq<char>, RuleView>::empty(),
    {
        let r = ReleaseRules { map: StringHashMap::new() };
        proof {
            assert(r@ =~= Map::<Seq<char>, RuleView>::empty());
        }
        r
    }

    /// Sets the rule for `keyword`, replacing any earlier one.
    pub fn insert(&mut self, keyword: String, rule: ReleaseRule)
        ensures
            final(self)@ == old(self)@.insert(keyword@, rule@),
    {
        let ghost k = keyword@;
        let ghost v = rule@;
        self.map.insert(keyword, rule);
        proof {
            assert(self@ =~= old(self)@.insert(k, v));
        }
    }

    /// The rule for `keyword`, if there is one.
    pub fn get(&self, keyword: &str) -> (r: Option<&ReleaseRule>)
        ensures
            match r {
                Some(rule) => self@.contains_key(keyword@) && rule@ == self@[keyword@],
                None => !self@.contains_key(keyword@),
            },
    {
        self.map.get(keyword)
    }

    /// The number of commit types that have a rule.
    pub fn len(&self) -> (r: usize)
        ensures
            r == self@.len(),
    {
        proof {
            assert(self@.dom() =~= self.map@.dom());
        }
        self.map.len()
    }
}

/// The default Angular conventions.
pub open spec fn default_rules_spec() -> RulesView {
    Map::<Seq<char>, RuleView>::empty()
        .insert("feat"@, (BumpType::Minor, Some("Features"@)))
        .insert("fix"@, (BumpType::Patch, Some("Bug Fixes"@)))
        .insert("perf"@, (BumpType::NoBump, Some("Performance Improvements"@)))
        .insert("revert"@, (BumpType::NoBump, Some("Reverts"@)))
        .insert("docs"@, (BumpType::NoBump, Some("Documentation"@)))
        .insert("style"@, (BumpType::NoBump, Some("Styles"@)))
        .insert("refactor"@, (BumpType::NoBump, Some("Code Refactoring"@)))
        .insert("test"@, (BumpType::NoBump, Some("Tests"@)))
        .insert("build"@, (BumpType::NoBump, Some("Build Systems"@)))
        .insert("ci"@, (BumpType::NoBump, Some("Continuous Integration"@)))
}

fn add_rule(rules: &mut ReleaseRules, keyword: &str, bump: BumpType, section: &str)
    ensures
        final(rules)@ == old(rules)@.insert(keyword@, (bump, Some(section@))),
{
    rules.insert(
        String::from_str(keyword),
        ReleaseRule { bump, section: Some(String::from_str(section)) },
    );
}

/// Returns the default Angular conventions: `feat` bumps the minor version,
/// `fix` the patch version, and eight more types only get a changelog section.
pub fn get_default_rules() -> (r: ReleaseRules)
    ensures
        r@ == default_rules_spec(),
{
    let mut rules = ReleaseRules::new();
    add_rule(&mut rules, "feat", BumpType::Minor, "Features");
    add_rule(&mut rules, "fix", BumpType::Patch, "Bug Fixes");
    add_rule(&mut rules, "perf", BumpType::NoBump, "Performance Improvements");
    add_rule(&mut rules, "revert", BumpType::NoBump, "Reverts");
    add_rule(&mut rules, "docs", BumpType::NoBump, "Documentation");
    add_rule(&mut rules, "style", BumpType::NoBump, "Styles");
    add_rule(&mut rules, "refactor", BumpType::NoBump, "Code Refactoring");
    add_rule(&mut rules, "test", BumpType::NoBump, "Tests");
    add_rule(&mut rules, "build", BumpType::NoBump, "Build Systems");
    add_rule(&mut rules, "ci", BumpType::NoBump, "Continuous Integration");
    rules
}

/// The rules after one `<keyword>:<release_type>[:<changelog_section>]` entry:
/// entries with fewer than two fields change nothing; the keyword is trimmed
/// and lower-cased, the release type read case-insensitively; without a
/// non-blank section the keyword keeps the section it had.
pub open spec fn custom_rule_applied(m: RulesView, entry: Seq<char>) -> RulesView {
    let parts = split_spec(entry, seq![':']);
    if parts.len() >= 2 {
        let keyword = lower_text(trim_spec(parts[0]));
        let bump = bump_named(lower_text(trim_spec(parts[1])));
        let section = if parts.len() >= 3 && trim_spec(parts[2]).len() > 0 {
            Some(trim_spec(parts[2]))
        } else if m.contains_key(keyword) {
            m[keyword].1
        } else {
            None
        };
        m.insert(keyword, (bump, section))
    } else {
        m
    }
}

/// The rules after the entries, applied from first to last.
pub open spec fn custom_rules_applied(m: RulesView, entries: Seq<Seq<char>>) -> RulesView
    decreases entries.len(),
{
    if entries.len() == 0 {
        m
    } else {
        custom_rule_applied(custom_rules_applied(m, entries.drop_last()), entries.last())
    }
}

/// The rules after the comma-separated `custom_release_rules` setting.
pub open spec fn merged_rules(m: RulesView, custom: Seq<char>) -> RulesView {
    if custom.len() == 0 {
        m
    } else {
        custom_rules_applied(m, split_spec(custom, seq![',']))
    }
}

/// Applies one `<keyword>:<release_type>[:<changelog_section>]` entry.
fn apply_custom_rule(rules: &mut ReleaseRules, entry: &str)
    ensures
        final(rules)@ == custom_rule_applied(old(rules)@, entry@),
{
    let colon = [':'];
    proof {
        assert(colon@ =~= seq![':']);
    }
    let parts = split_on(entry, &colon);
    if parts.len() >= 2 {
        let keyword = lowercase(trim(parts[0]));
        let bump = BumpType::from_str(trim(parts[1]));
        let mut section: Option<String> = None;
        if parts.len() >= 3 {
            let s = trim(parts[2]);
            if !s.is_empty() {
                section = Some(String::from_str(s));
            }
        }
        if section.is_none() {
            match rules.get(keyword.as_str()) {
                Some(r) => {
                    section = match &r.section {
                        Some(s) => Some(s.clone()),
                        None => None,
                    };
                },
                None => {},
            }
        }
        rules.insert(keyword, ReleaseRule { bump, section });
    }
}

/// Parses the `custom_release_rules` input, a comma-separated list of
/// `<keyword>:<release_type>:<changelog_section>` entries, into `base_rules`.
pub fn merge_custom_rules(base_rules: ReleaseRules, custom_rules_str: &str) -> (r: ReleaseRules)
    ensures
        r@ == merged_rules(base_rules@, custom_rules_str@),
{
    let mut rules = base_rules;
    if custom_rules_str.is_empty() {
        return rules;
    }
    let comma = [','];
    proof {
        assert(comma@ =~= seq![',']);
    }
    let entries = split_on(custom_rules_str, &comma);
    let ghost all = split_spec(custom_rules_str@, seq![',']);
    let n = entries.len();
    let mut i: usize = 0;
    while i < n
        invariant
            i <= n,
            n == entries@.len(),
            n == all.len(),
            all == split_spec(custom_rules_str@, seq![',']),
            forall|k: int| 0 <= k < n ==> #[trigger] entries@[k]@ == all[k],
            rules@ == custom_rules_applied(base_rules@, all.take(i as int)),
        decreases n - i,
    {
        proof {
            assert(all.take(i + 1).drop_last() =~= all.take(i as int));
            assert(all.take(i + 1).last() == all[i as int]);
        }
        apply_custom_rule(&mut rules, entries[i]);
        i = i + 1;
    }
    proof {
        assert(all.take(n as int) =~= all);
    }
    rules
}


// ---------------------------------------------------------------------------
// Changelog
// ---------------------------------------------------------------------------

/// One commit's place in the changelog: its section and its Markdown item.
pub type EntryView = Option<(Seq<char>, Seq<char>)>;

/// The Markdown item of a commit: `* <description> (<first 7 chars of sha>)`.
pub open spec fn changelog_item(sha: Seq<char>, description: Seq<char>) -> Seq<char> {
    "* "@ + description + " ("@ + take_chars(sha, 7) + ")"@
}

/// The changelog entry of a commit, parsed with its type lower-cased: listed
/// when the rules give its type a section, left out otherwise.
pub open spec fn changelog_entry(sha: Seq<char>, c: Option<CommitView>, rules: RulesView) -> EntryView {
    match c {
        Some(c) => if rules.contains_key(c.0) {
            match rules[c.0].1 {
                Some(section) => Some((section, changelog_item(sha, c.1))),
                None => None,
            }
        } else {
            None
        },
        None => None,
    }
}

/// The items of `section`, in commit order, each on a line of its own.
pub open spec fn section_items(entries: Seq<EntryView>, section: Seq<char>) -> Seq<char>
    decreases entries.len(),
{
    if entries.len() == 0 {
        Seq::empty()
    } else {
        section_items(entries.drop_last(), section) + match entries.last() {
            Some(e) => if e.0 == section {
                e.1 + "\n"@
            } else {
                Seq::empty()
            },
            None => Seq::empty(),
        }
    }
}

/// The sections in the given order, each as a `### ` heading, a blank line,
/// its items and a blank line.
pub open spec fn render_sections(sections: Seq<Seq<char>>, entries: Seq<EntryView>) -> Seq<char>
    decreases sections.len(),
{
    if sections.len() == 0 {
        Seq::empty()
    } else {
        render_sections(sections.drop_last(), entries) + "### "@ + sections.last() + "\n\n"@
            + section_items(entries, sections.last()) + "\n"@
    }
}

/// The sections that some entry is listed under.
pub open spec fn section_set(entries: Seq<EntryView>) -> Set<Seq<char>> {
    Set::new(
        |s: Seq<char>|
            exists|i: int| 0 <= i < entries.len() && (#[trigger] entries[i] matches Some(e) && e.0 == s),
    )
}

/// Each text comes strictly before the ones after it.
pub open spec fn strictly_sorted(s: Seq<Seq<char>>) -> bool {
    forall|i: int, j: int| 0 <= i < j < s.len() ==> lex_lt(#[trigger] s[i], #[trigger] s[j])
}

/// `s` lists the elements of `set`, each once, in alphabetical order.
pub open spec fn enumerates(s: Seq<Seq<char>>, set: Set<Seq<char>>) -> bool {
    strictly_sorted(s) && s.to_set() == set
}

/// The sections of the entries, each once, in alphabetical order.
pub open spec fn sorted_sections(entries: Seq<EntryView>) -> Seq<Seq<char>> {
    choose|s: Seq<Seq<char>>| enumerates(s, section_set(entries))
}

/// The Markdown changelog of the entries: the sections in alphabetical order.
pub open spec fn changelog_text(entries: Seq<EntryView>) -> Seq<char> {
    render_sections(sorted_sections(entries), entries)
}

/// The entries of commits given as (sha, parsed commit with lower-cased type).
pub open spec fn parsed_entries(
    commits: Seq<(String, Option<ConventionalCommit>)>,
    rules: RulesView,
) -> Seq<EntryView> {
    commits.map_values(
        |c: (String, Option<ConventionalCommit>)| changelog_entry(c.0@, commit_view(c.1), rules),
    )
}

/// A commit message as the changelog reads it: trimmed, parsed, its type
/// lower-cased.
pub open spec fn normalized_trimmed(message: Seq<char>) -> Option<CommitView> {
    match conventional_parts(trim_spec(message)) {
        Some(p) => Some((lower_text(p.0), p.1, p.2)),
        None => None,
    }
}

/// The entries of commits given as (sha, message).
pub open spec fn message_entries(commits: Seq<(String, String)>, rules: RulesView) -> Seq<EntryView> {
    commits.map_values(
        |c: (String, String)| changelog_entry(c.0@, normalized_trimmed(c.1@), rules),
    )
}

/// The views of a sequence of strings.
pub open spec fn texts(v: Seq<String>) -> Seq<Seq<char>> {
    v.map_values(|s: String| s@)
}

/// The view of an optional (section, item) pair.
pub open spec fn entry_view(e: Option<(String, String)>) -> EntryView {
    match e {
        Some(p) => Some((p.0@, p.1@)),
        None => None,
    }
}

/// Two strictly sorted sequences with the same elements are equal.
pub proof fn lemma_sorted_unique(a: Seq<Seq<char>>, b: Seq<Seq<char>>)
    requires
        strictly_sorted(a),
        strictly_sorted(b),
        a.to_set() == b.to_set(),
    ensures
        a == b,
    decreases a.len(),
{
    if a.len() == 0 {
        if b.len() > 0 {
            assert(b.to_set().contains(b[0]));
        }
        assert(a =~= b);
    } else if b.len() == 0 {
        assert(a.to_set().contains(a[0]));
    } else {
        assert(a.to_set().contains(a[0]));
        assert(b.to_set().contains(b[0]));
        let j = choose|j: int| 0 <= j < b.len() && b[j] == a[0];
        let k = choose|k: int| 0 <= k < a.len() && a[k] == b[0];
        if a[0] != b[0] {
            assert(j > 0 && k > 0);
            assert(lex_lt(b[0], b[j]));
            assert(lex_lt(a[0], a[k]));
            lemma_lex_total(a[0], b[0]);
            assert(false);
        }
        let a1 = a.drop_first();
        let b1 = b.drop_first();
        assert forall|x: Seq<char>| a1.to_set().contains(x) <==> b1.to_set().contains(x) by {
            if a1.to_set().contains(x) {
                let i = choose|i: int| 0 <= i < a1.len() && a1[i] == x;
                assert(a.to_set().contains(x));
                assert(lex_lt(a[0], a[i + 1]));
                lemma_lex_irreflexive(x);
                assert(x != b[0]);
                let m = choose|m: int| 0 <= m < b.len() && b[m] == x;
                assert(m > 0);
                assert(b1[m - 1] == x);
            }
            if b1.to_set().contains(x) {
                let i = choose|i: int| 0 <= i < b1.len() && b1[i] == x;
                assert(b.to_set().contains(x));
                assert(lex_lt(b[0], b[i + 1]));
                lemma_lex_irreflexive(x);
                assert(x != a[0]);
                let m = choose|m: int| 0 <= m < a.len() && a[m] == x;
                assert(m > 0);
                assert(a1[m - 1] == x);
            }
        }
        assert(a1.to_set() =~= b1.to_set());
        assert forall|i: int, j: int| 0 <= i < j < a1.len() implies lex_lt(
            #[trigger] a1[i],
            #[trigger] a1[j],
        ) by {
            assert(a1[i] == a[i + 1] && a1[j] == a[j + 1]);
        }
        assert forall|i: int, j: int| 0 <= i < j < b1.len() implies lex_lt(
            #[trigger] b1[i],
            #[trigger] b1[j],
        ) by {
            assert(b1[i] == b[i + 1] && b1[j] == b[j + 1]);
        }
        lemma_sorted_unique(a1, b1);
        assert forall|i: int| 0 <= i < a.len() implies a[i] == b[i] by {
            if i > 0 {
                assert(a[i] == a1[i - 1]);
                assert(b[i] == b1[i - 1]);
            }
        }
        assert(a =~= b);
    }
}

/// Adds `s` to the sorted, duplicate-free list of sections.
fn insert_section(sections: &mut Vec<String>, s: &str)
    requires
        strictly_sorted(texts(old(sections)@)),
    ensures
        strictly_sorted(texts(final(sections)@)),
        texts(final(sections)@).to_set() == texts(old(sections)@).to_set().insert(s@),
{
    let ghost before = texts(sections@);
    let n = sections.len();
    let mut j: usize = 0;
    while j < n && text_less(sections[j].as_str(), s)
        invariant
            j <= n,
            n == sections@.len(),
            before == texts(sections@),
            forall|k: int| 0 <= k < j ==> lex_lt(#[trigger] before[k], s@),
        decreases n - j,
    {
        j = j + 1;
    }
    if j < n && same_text(sections[j].as_str(), s) {
        proof {
            assert(before[j as int] == s@);
            assert(before.to_set() =~= before.to_set().insert(s@));
        }
        return;
    }
    proof {
        if j < n {
            lemma_lex_total(before[j as int], s@);
            assert(lex_lt(s@, before[j as int]));
        }
    }
    sections.insert(j, String::from_str(s));
    proof {
        let after = texts(sections@);
        assert(after =~= before.insert(j as int, s@));
        assert forall|a: int, b: int| 0 <= a < b < after.len() implies lex_lt(
            #[trigger] after[a],
            #[trigger] after[b],
        ) by {
            if b < j {
            } else if b == j {
            } else if a < j {
                assert(after[b] == before[b - 1]);
                if b - 1 > j {
                    lemma_lex_transitive(s@, before[j as int], before[b - 1]);
                }
                lemma_lex_transitive(after[a], s@, after[b]);
            } else if a == j {
                assert(after[b] == before[b - 1]);
                if b - 1 > j {
                    lemma_lex_transitive(s@, before[j as int], before[b - 1]);
                }
            } else {
                assert(after[a] == before[a - 1]);
                assert(after[b] == before[b - 1]);
            }
        }
        assert forall|x: Seq<char>| after.to_set().contains(x) <==> before.to_set().insert(
            s@,
        ).contains(x) by {
            if after.to_set().contains(x) {
                let i = choose|i: int| 0 <= i < after.len() && after[i] == x;
                if i < j {
                    assert(before[i] == x);
                } else if i > j {
                    assert(before[i - 1] == x);
                }
            }
            if before.to_set().contains(x) {
                let i = choose|i: int| 0 <= i < before.len() && before[i] == x;
                if i < j {
                    assert(after[i] == x);
                } else {
                    assert(after[i + 1] == x);
                }
            }
            if x == s@ {
                assert(after[j as int] == x);
            }
        }
        assert(after.to_set() =~= before.to_set().insert(s@));
    }
}

/// The changelog entry of one parsed commit.
fn entry_for(sha: &String, commit: &Option<ConventionalCommit>, rules: &ReleaseRules) -> (r: Option<(String, String)>)
    ensures
        entry_view(r) == changelog_entry(sha@, commit_view(*commit), rules@),
{
    match commit {
        Some(c) => match rules.get(c.kind.as_str()) {
            Some(rule) => match &rule.section {
                Some(section) => {
                    let short_sha = first_chars(sha.as_str(), 7);
                    let mut item = concat("* ", c.description.as_str());
                    item.append(" (");
                    item.append(short_sha.as_str());
                    item.append(")");
                    Some((section.clone(), item))
                },
                None => None,
            },
            None => None,
        },
        None => None,
    }
}

/// The items of `section`, in order, each followed by a newline.
fn append_section_items(out: &mut String, entries: &Vec<Option<(String, String)>>, section: &str)
    ensures
        final(out)@ == old(out)@ + section_items(
            entries@.map_values(|e: Option<(String, String)>| entry_view(e)),
            section@,
        ),
{
    let ghost es = entries@.map_values(|e: Option<(String, String)>| entry_view(e));
    let n = entries.len();
    let mut i: usize = 0;
    while i < n
        invariant
            i <= n,
            n == entries@.len(),
            es == entries@.map_values(|e: Option<(String, String)>| entry_view(e)),
            out@ == old(out)@ + section_items(es.take(i as int), section@),
        decreases n - i,
    {
        proof {
            assert(es.take(i + 1).drop_last() =~= es.take(i as int));
            assert(es.take(i + 1).last() == es[i as int]);
        }
        match &entries[i] {
            Some(e) => {
                if same_text(e.0.as_str(), section) {
                    out.append(e.1.as_str());
                    out.append("\n");
                    proof {
                        assert(out@ =~= old(out)@ + section_items(es.take(i + 1), section@));
                    }
                } else {
                    proof {
                        assert(out@ =~= old(out)@ + section_items(es.take(i + 1), section@));
                    }
                }
            },
            None => {
                proof {
                    assert(out@ =~= old(out)@ + section_items(es.take(i + 1), section@));
                }
            },
        }
        i = i + 1;
    }
    proof {
        assert(es.take(n as int) =~= es);
    }
}

/// Renders the Markdown changelog of commits that are already parsed: each
/// pair is a commit's sha and its parsed message with the type lower-cased
/// (`None` when it is not a conventional commit). Commits are grouped by the
/// section that the rules give their type, sections in alphabetical order.
pub fn changelog_from_parsed(
    commits: &[(String, Option<ConventionalCommit>)],
    rules: &ReleaseRules,
) -> (r: String)
    ensures
        r@ == changelog_text(parsed_entries(commits@, rules@)),
{
    let ghost es = parsed_entries(commits@, rules@);
    let n = commits.len();
    let mut entries: Vec<Option<(String, String)>> = Vec::new();
    let mut sections: Vec<String> = Vec::new();
    let mut i: usize = 0;
    while i < n
        invariant
            i <= n,
            n == commits@.len(),
            es == parsed_entries(commits@, rules@),
            entries@.len() == i,
            forall|k: int| 0 <= k < i ==> entry_view(#[trigger] entries@[k]) == es[k],
            strictly_sorted(texts(sections@)),
            texts(sections@).to_set() == section_set(es.take(i as int)),
        decreases n - i,
    {
        let e = entry_for(&commits[i].0, &commits[i].1, rules);
        proof {
            assert(entry_view(e) == es[i as int]);
        }
        match &e {
            Some(p) => {
                insert_section(&mut sections, p.0.as_str());
            },
            None => {},
        }
        proof {
            let t = es.take(i + 1);
            assert forall|x: Seq<char>| texts(sections@).to_set().contains(x) <==> section_set(
                t,
            ).contains(x) by {
                if section_set(t).contains(x) {
                    let m = choose|m: int| 0 <= m < t.len() && (#[trigger] t[m] matches Some(q) && q.0 == x);
                    if m < i {
                        assert(es.take(i as int)[m] == t[m]);
                        assert(section_set(es.take(i as int)).contains(x));
                    }
                }
                if section_set(es.take(i as int)).contains(x) {
                    let m = choose|m: int|
                        0 <= m < es.take(i as int).len() && (#[trigger] es.take(i as int)[m] matches Some(
                            q,
                        ) && q.0 == x);
                    assert(t[m] == es.take(i as int)[m]);
                }
                if e matches Some(p) && x == p.0@ {
                    assert(t[i as int] == es[i as int]);
                }
            }
            assert(texts(sections@).to_set() =~= section_set(t));
        }
        entries.push(e);
        i = i + 1;
    }
    proof {
        assert(es.take(n as int) =~= es);
        let ev = entries@.map_values(|e: Option<(String, String)>| entry_view(e));
        assert(ev =~= es);
        assert(enumerates(texts(sections@), section_set(es)));
        lemma_sorted_unique(texts(sections@), sorted_sections(es));
    }
    let ghost secs = texts(sections@);
    let m = sections.len();
    let mut out = String::new();
    let mut k: usize = 0;
    while k < m
        invariant
            k <= m,
            m == sections@.len(),
            secs == texts(sections@),
            es == entries@.map_values(|e: Option<(String, String)>| entry_view(e)),
            out@ == render_sections(secs.take(k as int), es),
        decreases m - k,
    {
        proof {
            assert(secs.take(k + 1).drop_last() =~= secs.take(k as int));
            assert(secs.take(k + 1).last() == secs[k as int]);
        }
        out.append("### ");
        out.append(sections[k].as_str());
        out.append("\n\n");
        append_section_items(&mut out, &entries, sections[k].as_str());
        out.append("\n");
        proof {
            assert(out@ =~= render_sections(secs.take(k + 1), es));
        }
        k = k + 1;
    }
    proof {
        assert(secs.take(m as int) =~= secs);
    }
    out
}

/// Generates the Markdown changelog of commits given as (sha, message),
/// grouped by the changelog section of their type, sections in alphabetical
/// order.
pub fn generate_changelog(commits: &[(String, String)], rules: &ReleaseRules) -> (r: String)
    ensures
        r@ == changelog_text(message_entries(commits@, rules@)),
{
    let n = commits.len();
    let mut parsed: Vec<(String, Option<ConventionalCommit>)> = Vec::new();
    let mut i: usize = 0;
    while i < n
        invariant
            i <= n,
            n == commits@.len(),
            parsed@.len() == i,
            forall|k: int|
                0 <= k < i ==> (#[trigger] parsed@[k]).0@ == commits@[k].0@ && commit_view(
                    parsed@[k].1,
                ) == normalized_trimmed(commits@[k].1@),
        decreases n - i,
    {
        let message = trim(commits[i].1.as_str());
        let c = match parse_conventional(message) {
            Ok(c) => {
                let kind = lowercase(c.kind.as_str());
                Some(ConventionalCommit { kind, description: c.description, breaking: c.breaking })
            },
            Err(_) => None,
        };
        parsed.push((commits[i].0.clone(), c));
        i = i + 1;
    }
    let r = changelog_from_parsed(parsed.as_slice(), rules);
    proof {
        assert(parsed_entries(parsed@, rules@) =~= message_entries(commits@, rules@));
    }
    r
}


/// A new text can be added to a strictly sorted sequence.
proof fn lemma_insert_sorted(s: Seq<Seq<char>>, x: Seq<char>)
    requires
        strictly_sorted(s),
        !s.contains(x),
    ensures
        exists|t: Seq<Seq<char>>| #[trigger] enumerates(t, s.to_set().insert(x)),
    decreases s.len(),
{
    if s.len() == 0 {
        let t = seq![x];
        assert(t.to_set() =~= s.to_set().insert(x)) by {
            assert forall|y: Seq<char>| t.to_set().contains(y) implies s.to_set().insert(x).contains(y) by {
                let i = choose|i: int| 0 <= i < t.len() && t[i] == y;
            }
            assert(t[0] == x);
        }
        assert(enumerates(t, s.to_set().insert(x)));
    } else if lex_lt(x, s[0]) {
        let t = seq![x] + s;
        assert forall|i: int, j: int| 0 <= i < j < t.len() implies lex_lt(
            #[trigger] t[i],
            #[trigger] t[j],
        ) by {
            if i == 0 {
                if j > 1 {
                    lemma_lex_transitive(x, s[0], s[j - 1]);
                }
            } else {
                assert(t[i] == s[i - 1] && t[j] == s[j - 1]);
            }
        }
        assert forall|y: Seq<char>| t.to_set().contains(y) <==> s.to_set().insert(x).contains(y) by {
            if t.to_set().contains(y) {
                let i = choose|i: int| 0 <= i < t.len() && t[i] == y;
                if i > 0 {
                    assert(s[i - 1] == y);
                }
            }
            if s.to_set().contains(y) {
                let i = choose|i: int| 0 <= i < s.len() && s[i] == y;
                assert(t[i + 1] == y);
            }
            if y == x {
                assert(t[0] == x);
            }
        }
        assert(t.to_set() =~= s.to_set().insert(x));
        assert(enumerates(t, s.to_set().insert(x)));
    } else {
        assert(s[0] != x);
        lemma_lex_total(x, s[0]);
        let rest = s.drop_first();
        assert forall|i: int, j: int| 0 <= i < j < rest.len() implies lex_lt(
            #[trigger] rest[i],
            #[trigger] rest[j],
        ) by {
            assert(rest[i] == s[i + 1] && rest[j] == s[j + 1]);
        }
        assert(!rest.contains(x)) by {
            if rest.contains(x) {
                let i = choose|i: int| 0 <= i < rest.len() && rest[i] == x;
                assert(s[i + 1] == x);
            }
        }
        lemma_insert_sorted(rest, x);
        let t1 = choose|t: Seq<Seq<char>>| #[trigger] enumerates(t, rest.to_set().insert(x));
        let t = seq![s[0]] + t1;
        assert forall|i: int, j: int| 0 <= i < j < t.len() implies lex_lt(
            #[trigger] t[i],
            #[trigger] t[j],
        ) by {
            if i == 0 {
                let y = t1[j - 1];
                assert(t1.to_set().contains(y));
                assert(rest.to_set().insert(x).contains(y));
                if y != x {
                    let k = choose|k: int| 0 <= k < rest.len() && rest[k] == y;
                    assert(s[k + 1] == y);
                }
            } else {
                assert(t[i] == t1[i - 1] && t[j] == t1[j - 1]);
            }
        }
        assert forall|y: Seq<char>| t.to_set().contains(y) <==> s.to_set().insert(x).contains(y) by {
            if t.to_set().contains(y) {
                let i = choose|i: int| 0 <= i < t.len() && t[i] == y;
                if i > 0 {
                    assert(t1.to_set().contains(y));
                    if y != x {
                        let k = choose|k: int| 0 <= k < rest.len() && rest[k] == y;
                        assert(s[k + 1] == y);
                    }
                } else {
                    assert(s[0] == y);
                }
            }
            if s.to_set().contains(y) {
                let i = choose|i: int| 0 <= i < s.len() && s[i] == y;
                if i == 0 {
                    assert(t[0] == y);
                } else {
                    assert(rest[i - 1] == y);
                    assert(rest.to_set().insert(x).contains(y));
                    assert(t1.to_set().contains(y));
                    let k = choose|k: int| 0 <= k < t1.len() && t1[k] == y;
                    assert(t[k + 1] == y);
                }
            }
            if y == x {
                assert(t1.to_set().contains(x));
                let k = choose|k: int| 0 <= k < t1.len() && t1[k] == x;
                assert(t[k + 1] == x);
            }
        }
        assert(t.to_set() =~= s.to_set().insert(x));
        assert(enumerates(t, s.to_set().insert(x)));
    }
}

/// The sections of any entries can be listed alphabetically.
proof fn lemma_sections_enumerable(entries: Seq<EntryView>)
    ensures
        exists|t: Seq<Seq<char>>| #[trigger] enumerates(t, section_set(entries)),
    decreases entries.len(),
{
    if entries.len() == 0 {
        let t = Seq::<Seq<char>>::empty();
        assert(t.to_set() =~= section_set(entries));
        assert(enumerates(t, section_set(entries)));
    } else {
        let init = entries.drop_last();
        lemma_sections_enumerable(init);
        let t = choose|t: Seq<Seq<char>>| #[trigger] enumerates(t, section_set(init));
        let last = entries.last();
        assert forall|y: Seq<char>| section_set(init).contains(y) implies #[trigger] section_set(
            entries,
        ).contains(y) by {
            let i = choose|i: int| 0 <= i < init.len() && (#[trigger] init[i] matches Some(e) && e.0 == y);
            assert(entries[i] == init[i]);
        }
        match last {
            Some(e) => {
                assert(section_set(entries) =~= section_set(init).insert(e.0)) by {
                    assert(entries[entries.len() - 1] == last);
                    assert forall|y: Seq<char>| #[trigger] section_set(entries).contains(y) implies section_set(init).insert(e.0).contains(y) by {
                        let i = choose|i: int| 0 <= i < entries.len() && (#[trigger] entries[i] matches Some(f) && f.0 == y);
                        if i < init.len() {
                            assert(init[i] == entries[i]);
                        }
                    }
                }
                if t.contains(e.0) {
                    assert(t.to_set().contains(e.0));
                    assert(section_set(entries) =~= section_set(init));
                    assert(enumerates(t, section_set(entries)));
                } else {
                    lemma_insert_sorted(t, e.0);
                }
            },
            None => {
                assert(section_set(entries) =~= section_set(init)) by {
                    assert forall|y: Seq<char>| #[trigger] section_set(entries).contains(y) implies section_set(init).contains(y) by {
                        let i = choose|i: int| 0 <= i < entries.len() && (#[trigger] entries[i] matches Some(f) && f.0 == y);
                        if i < init.len() {
                            assert(init[i] == entries[i]);
                        } else {
                            assert(entries[i] == last);
                        }
                    }
                }
                assert(enumerates(t, section_set(entries)));
            },
        }
    }
}

/// The changelog lists every section that some commit is filed under, each
/// once, in alphabetical order; no other order of them is alphabetical.
pub proof fn law_changelog_sections_alphabetical(entries: Seq<EntryView>)
    ensures
        strictly_sorted(sorted_sections(entries)),
        sorted_sections(entries).to_set() == section_set(entries),
        forall|t: Seq<Seq<char>>| #[trigger] enumerates(t, section_set(entries)) ==> t == sorted_sections(entries),
{
    lemma_sections_enumerable(entries);
    assert forall|t: Seq<Seq<char>>| #[trigger] enumerates(t, section_set(entries)) implies t == sorted_sections(entries) by {
        lemma_sorted_unique(t, sorted_sections(entries));
    }
}

/// Without a commit filed under a section, the changelog is empty.
pub proof fn law_changelog_empty_without_sections(entries: Seq<EntryView>)
    requires
        forall|i: int| 0 <= i < entries.len() ==> #[trigger] entries[i] is None,
    ensures
        changelog_text(entries) == Seq::<char>::empty(),
{
    law_changelog_sections_alphabetical(entries);
    let s = sorted_sections(entries);
    if s.len() > 0 {
        assert(s.to_set().contains(s[0]));
        assert(section_set(entries).contains(s[0]));
        let i = choose|i: int| 0 <= i < entries.len() && (#[trigger] entries[i] matches Some(e) && e.0 == s[0]);
        assert(entries[i] is None);
    }
}

/// An empty `custom_release_rules` setting leaves the rules as they are.
pub proof fn law_empty_custom_rules_keep_rules(m: RulesView)
    ensures
        merged_rules(m, Seq::<char>::empty()) == m,
{
}


/// The rules after applying `e1` and then `e2` are those after `e1 + e2`.
proof fn lemma_applied_concat(m: RulesView, e1: Seq<Seq<char>>, e2: Seq<Seq<char>>)
    ensures
        custom_rules_applied(m, e1 + e2) == custom_rules_applied(custom_rules_applied(m, e1), e2),
    decreases e2.len(),
{
    if e2.len() == 0 {
        assert(e1 + e2 =~= e1);
    } else {
        lemma_applied_concat(m, e1, e2.drop_last());
        assert((e1 + e2).drop_last() =~= e1 + e2.drop_last());
        assert((e1 + e2).last() == e2.last());
    }
}

/// An empty setting, split at commas, changes nothing either.
proof fn lemma_merged_is_applied(m: RulesView, custom: Seq<char>)
    ensures
        merged_rules(m, custom) == custom_rules_applied(m, split_spec(custom, seq![','])),
{
    if custom.len() == 0 {
        let pieces = split_spec(custom, seq![',']);
        assert(pieces =~= seq![Seq::<char>::empty()]);
        assert(pieces.drop_last() =~= Seq::<Seq<char>>::empty());
        assert(pieces.last() =~= custom);
        assert(custom_rules_applied(m, pieces.drop_last()) == m);
        assert(split_spec(custom, seq![':']).len() == 1);
        assert(custom_rule_applied(m, custom) == m);
    }
}

/// Merging two settings one after the other is merging them joined by a comma.
pub proof fn law_custom_rules_compose(m: RulesView, s1: Seq<char>, s2: Seq<char>)
    ensures
        merged_rules(merged_rules(m, s1), s2) == merged_rules(m, s1 + seq![','] + s2),
{
    lemma_merged_is_applied(m, s1);
    lemma_merged_is_applied(merged_rules(m, s1), s2);
    lemma_merged_is_applied(m, s1 + seq![','] + s2);
    assert(seq![','][0] == ',');
    assert(seq![','].contains(','));
    lemma_split_concat(s1, ',', s2, seq![',']);
    lemma_applied_concat(m, split_spec(s1, seq![',']), split_spec(s2, seq![',']));
}

/// The keyword an entry sets, if it has the two fields it needs.
pub open spec fn entry_key(e: Seq<char>) -> Option<Seq<char>> {
    let parts = split_spec(e, seq![':']);
    if parts.len() >= 2 {
        Some(lower_text(trim_spec(parts[0])))
    } else {
        None
    }
}

/// The bump an entry sets.
pub open spec fn entry_bump(e: Seq<char>) -> BumpType {
    bump_named(lower_text(trim_spec(split_spec(e, seq![':'])[1])))
}

/// The section an entry names, if it names a non-blank one.
pub open spec fn entry_section(e: Seq<char>) -> Option<Seq<char>> {
    let parts = split_spec(e, seq![':']);
    if parts.len() >= 3 && trim_spec(parts[2]).len() > 0 {
        Some(trim_spec(parts[2]))
    } else {
        None
    }
}

/// Some entry sets keyword `k`.
pub open spec fn key_in(es: Seq<Seq<char>>, k: Seq<char>) -> bool
    decreases es.len(),
{
    es.len() > 0 && (entry_key(es.last()) == Some(k) || key_in(es.drop_last(), k))
}

/// The bump of the last entry that sets `k`.
pub open spec fn key_bump(es: Seq<Seq<char>>, k: Seq<char>) -> BumpType
    decreases es.len(),
{
    if es.len() == 0 {
        BumpType::NoBump
    } else if entry_key(es.last()) == Some(k) {
        entry_bump(es.last())
    } else {
        key_bump(es.drop_last(), k)
    }
}

/// The section of the last entry that sets `k` with a non-blank section.
pub open spec fn key_section(es: Seq<Seq<char>>, k: Seq<char>) -> Option<Seq<char>>
    decreases es.len(),
{
    if es.len() == 0 {
        None
    } else if entry_key(es.last()) == Some(k) && entry_section(es.last()) is Some {
        entry_section(es.last())
    } else {
        key_section(es.drop_last(), k)
    }
}

/// What the entries make of keyword `k`: the last entry for it gives the bump,
/// the last non-blank section for it (else the section it had) the section.
proof fn lemma_applied_at(m: RulesView, es: Seq<Seq<char>>, k: Seq<char>)
    ensures
        custom_rules_applied(m, es).contains_key(k) == (m.contains_key(k) || key_in(es, k)),
        key_in(es, k) ==> custom_rules_applied(m, es)[k] == (
            key_bump(es, k),
            if key_section(es, k) is Some {
                key_section(es, k)
            } else if m.contains_key(k) {
                m[k].1
            } else {
                None
            },
        ),
        !key_in(es, k) && m.contains_key(k) ==> custom_rules_applied(m, es)[k] == m[k],
        !key_in(es, k) ==> key_section(es, k) is None,
    decreases es.len(),
{
    if es.len() > 0 {
        let init = es.drop_last();
        let e = es.last();
        lemma_applied_at(m, init, k);
        let prev = custom_rules_applied(m, init);
        assert(custom_rules_applied(m, es) == custom_rule_applied(prev, e));
    }
}

/// Merging the same setting twice is merging it once.
pub proof fn law_custom_rules_idempotent(m: RulesView, custom: Seq<char>)
    ensures
        merged_rules(merged_rules(m, custom), custom) == merged_rules(m, custom),
{
    lemma_merged_is_applied(m, custom);
    let once = merged_rules(m, custom);
    lemma_merged_is_applied(once, custom);
    let es = split_spec(custom, seq![',']);
    let twice = custom_rules_applied(once, es);
    assert forall|k: Seq<char>| #[trigger] twice.contains_key(k) == once.contains_key(k) by {
        lemma_applied_at(m, es, k);
        lemma_applied_at(once, es, k);
    }
    assert forall|k: Seq<char>| #[trigger] twice.contains_key(k) implies twice[k] == once[k] by {
        lemma_applied_at(m, es, k);
        lemma_applied_at(once, es, k);
    }
    assert(twice =~= once);
}

/// Trimming the commit messages beforehand does not change the changelog.
pub proof fn law_trimmed_messages_same_changelog(
    cs1: Seq<(String, String)>,
    cs2: Seq<(String, String)>,
    rules: RulesView,
)
    requires
        cs1.len() == cs2.len(),
        forall|i: int|
            0 <= i < cs1.len() ==> (#[trigger] cs2[i]).0@ == cs1[i].0@ && cs2[i].1@ == trim_spec(
                cs1[i].1@,
            ),
    ensures
        changelog_text(message_entries(cs1, rules)) == changelog_text(message_entries(cs2, rules)),
{
    assert forall|i: int| 0 <= i < cs1.len() implies #[trigger] message_entries(cs1, rules)[i]
        == message_entries(cs2, rules)[i] by {
        lemma_trim_idempotent(cs1[i].1@);
        assert(cs2[i].1@ == trim_spec(cs1[i].1@));
    }
    assert(message_entries(cs1, rules) =~= message_entries(cs2, rules));
}

/// A conventional commit is listed exactly when the rules give its type a
/// section: then it stands under that section as
/// `* <description> (<first 7 characters of the sha>)`; any other message
/// (not conventional, a type without a rule, a rule without a section) is
/// left out.
pub proof fn law_changelog_lists_sectioned_commits(
    sha: Seq<char>,
    c: Option<CommitView>,
    rules: RulesView,
)
    ensures
        match c {
            Some(c) => if rules.contains_key(c.0) && rules[c.0].1 is Some {
                changelog_entry(sha, Some(c), rules) == Some(
                    (
                        rules[c.0].1->0,
                        "* "@ + c.1 + " ("@ + (if sha.len() <= 7 {
                            sha
                        } else {
                            sha.subrange(0, 7)
                        }) + ")"@,
                    ),
                )
            } else {
                changelog_entry(sha, Some(c), rules) is None
            },
            None => changelog_entry(sha, c, rules) is None,
        },
{
}

/// Whether a commit announces a breaking change has no bearing on its
/// changelog entry: a breaking commit is listed exactly as the same commit
/// without the mark.
pub proof fn law_breaking_mark_leaves_changelog_entry(
    sha: Seq<char>,
    kind: Seq<char>,
    description: Seq<char>,
    rules: RulesView,
)
    ensures
        changelog_entry(sha, Some((kind, description, true)), rules) == changelog_entry(
            sha,
            Some((kind, description, false)),
            rules,
        ),
{
}

/// The default rules are the ten Angular commit types; each of them has a
/// changelog section, so every commit of a default type is listed; only
/// `feat` (minor) and `fix` (patch) bump the version.
pub proof fn law_default_rules_are_angular()
    ensures
        default_rules_spec().dom() == set![
            "feat"@,
            "fix"@,
            "perf"@,
            "revert"@,
            "docs"@,
            "style"@,
            "refactor"@,
            "test"@,
            "build"@,
            "ci"@,
        ],
        forall|k: Seq<char>|
            #[trigger] default_rules_spec().contains_key(k) ==> default_rules_spec()[k].1 is Some,
        forall|k: Seq<char>|
            #[trigger] default_rules_spec().contains_key(k) && k != "feat"@ && k != "fix"@
                ==> default_rules_spec()[k].0 == BumpType::NoBump,
        default_rules_spec()["feat"@] == (BumpType::Minor, Some("Features"@)),
        default_rules_spec()["fix"@] == (BumpType::Patch, Some("Bug Fixes"@)),
        default_rules_spec()["perf"@] == (BumpType::NoBump, Some("Performance Improvements"@)),
        default_rules_spec()["revert"@] == (BumpType::NoBump, Some("Reverts"@)),
        default_rules_spec()["docs"@] == (BumpType::NoBump, Some("Documentation"@)),
        default_rules_spec()["style"@] == (BumpType::NoBump, Some("Styles"@)),
        default_rules_spec()["refactor"@] == (BumpType::NoBump, Some("Code Refactoring"@)),
        default_rules_spec()["test"@] == (BumpType::NoBump, Some("Tests"@)),
        default_rules_spec()["build"@] == (BumpType::NoBump, Some("Build Systems"@)),
        default_rules_spec()["ci"@] == (BumpType::NoBump, Some("Continuous Integration"@)),
        forall|sha: Seq<char>, c: CommitView|
            default_rules_spec().contains_key(c.0) ==> (#[trigger] changelog_entry(
                sha,
                Some(c),
                default_rules_spec(),
            )) is Some,
{
    reveal_strlit("feat");
    reveal_strlit("fix");
    reveal_strlit("perf");
    reveal_strlit("revert");
    reveal_strlit("docs");
    reveal_strlit("style");
    reveal_strlit("refactor");
    reveal_strlit("test");
    reveal_strlit("build");
    reveal_strlit("ci");
    assert("feat"@.len() != "fix"@.len());
    assert("feat"@[0] != "perf"@[0]);
    assert("feat"@.len() != "revert"@.len());
    assert("feat"@[0] != "docs"@[0]);
    assert("feat"@.len() != "style"@.len());
    assert("feat"@.len() != "refactor"@.len());
    assert("feat"@[0] != "test"@[0]);
    assert("feat"@.len() != "build"@.len());
    assert("feat"@.len() != "ci"@.len());
    assert("fix"@.len() != "perf"@.len());
    assert("fix"@.len() != "revert"@.len());
    assert("fix"@.len() != "docs"@.len());
    assert("fix"@.len() != "style"@.len());
    assert("fix"@.len() != "refactor"@.len());
    assert("fix"@.len() != "test"@.len());
    assert("fix"@.len() != "build"@.len());
    assert("fix"@.len() != "ci"@.len());
    assert("perf"@.len() != "revert"@.len());
    assert("perf"@[0] != "docs"@[0]);
    assert("perf"@.len() != "style"@.len());
    assert("perf"@.len() != "refactor"@.len());
    assert("perf"@[0] != "test"@[0]);
    assert("perf"@.len() != "build"@.len());
    assert("perf"@.len() != "ci"@.len());
    assert("revert"@.len() != "docs"@.len());
    assert("revert"@.len() != "style"@.len());
    assert("revert"@.len() != "refactor"@.len());
    assert("revert"@.len() != "test"@.len());
    assert("revert"@.len() != "build"@.len());
    assert("revert"@.len() != "ci"@.len());
    assert("docs"@.len() != "style"@.len());
    assert("docs"@.len() != "refactor"@.len());
    assert("docs"@[0] != "test"@[0]);
    assert("docs"@.len() != "build"@.len());
    assert("docs"@.len() != "ci"@.len());
    assert("style"@.len() != "refactor"@.len());
    assert("style"@.len() != "test"@.len());
    assert("style"@[0] != "build"@[0]);
    assert("style"@.len() != "ci"@.len());
    assert("refactor"@.len() != "test"@.len());
    assert("refactor"@.len() != "build"@.len());
    assert("refactor"@.len() != "ci"@.len());
    assert("test"@.len() != "build"@.len());
    assert("test"@.len() != "ci"@.len());
    assert("build"@.len() != "ci"@.len());
    assert(default_rules_spec().dom() =~= set![
        "feat"@,
        "fix"@,
        "perf"@,
        "revert"@,
        "docs"@,
        "style"@,
        "refactor"@,
        "test"@,
        "build"@,
        "ci"@,
    ]);
}

} // verus!
