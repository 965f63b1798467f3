//! Deciding the semantic-version bump that a list of commit messages calls for.
use vstd::prelude::*;

use crate::changelog::{ReleaseRules, RulesView};
use crate::conventional::{
    commit_view, conventional_parts, parse_conventional, CommitView, ConventionalCommit,
};
use crate::text::{all_ascii, ascii_lower_char, lower_text, lowercase, same_text};

verus! {

/// The size of a version bump, from smallest to largest.
#[derive(Debug, Clone, Copy, PartialEq, Eq, PartialOrd, Ord, Structural)]
pub enum BumpType {
    NoBump,
    Patch,
    Minor,
    Major,
}

impl BumpType {
    /// Position of the bump in the order `NoBump < Patch < Minor < Major`.
    pub open spec fn rank(self) -> nat {
        match self {
            BumpType::NoBump => 0,
            BumpType::Patch => 1,
            BumpType::Minor => 2,
            BumpType::Major => 3,
        }
    }

    /// The lower-case name of the bump.
    pub open spec fn name(self) -> Seq<char> {
        match self {
            BumpType::Major => "major"@,
            BumpType::Minor => "minor"@,
            BumpType::Patch => "patch"@,
            BumpType::NoBump => "none"@,
        }
    }

    /// The lower-case name of the bump: `major`, `minor`, `patch` or `none`.
    pub fn as_str(&self) -> (r: &'static str)
        ensures
            r@ == self.name(),
    {
        match self {
            BumpType::Major => "major",
            BumpType::Minor => "minor",
            BumpType::Patch => "patch",
            BumpType::NoBump => "none",
        }
    }

    /// The bump named by `s`, case-insensitively; `NoBump` for any other text.
    pub fn from_str(s: &str) -> (r: BumpType)
        ensures
            r == bump_named(lower_text(s@)),
            all_ascii(s@) ==> r == bump_named(s@.map_values(|c: char| ascii_lower_char(c))),
    {
        let lower = lowercase(s);
        bump_from_lowercase(lower.as_str())
    }

    /// Position of the bump in the order `NoBump < Patch < Minor < Major`.
    pub fn level(&self) -> (r: u8)
        ensures
            r == self.rank(),
    {
        match self {
            BumpType::NoBump => 0,
            BumpType::Patch => 1,
            BumpType::Minor => 2,
            BumpType::Major => 3,
        }
    }
}

/// The bump whose lower-case name is `t`; `NoBump` for any other text.
pub open spec fn bump_named(t: Seq<char>) -> BumpType {
    if t == "major"@ {
        BumpType::Major
    } else if t == "minor"@ {
        BumpType::Minor
    } else if t == "patch"@ {
        BumpType::Patch
    } else {
        BumpType::NoBump
    }
}

/// The bump that the `default_bump` setting `t` (already lower-cased) asks
/// for: `false` means no bump, and any unknown word means a patch.
pub open spec fn default_bump_named(t: Seq<char>) -> BumpType {
    if t == "major"@ {
        BumpType::Major
    } else if t == "minor"@ {
        BumpType::Minor
    } else if t == "patch"@ {
        BumpType::Patch
    } else if t == "false"@ {
        BumpType::NoBump
    } else {
        BumpType::Patch
    }
}

/// The larger of two bumps.
pub open spec fn max_bump(a: BumpType, b: BumpType) -> BumpType {
    if a.rank() < b.rank() {
        b
    } else {
        a
    }
}

/// The bump that the rules give a parsed commit whose type is lower-cased.
pub open spec fn rule_bump(c: Option<CommitView>, rules: RulesView) -> BumpType {
    match c {
        Some(c) => if rules.contains_key(c.0) {
            rules[c.0].0
        } else {
            BumpType::NoBump
        },
        None => BumpType::NoBump,
    }
}

/// The largest bump that the rules give any of the commits.
pub open spec fn highest_rule_bump(cs: Seq<Option<CommitView>>, rules: RulesView) -> BumpType
    decreases cs.len(),
{
    if cs.len() == 0 {
        BumpType::NoBump
    } else {
        max_bump(highest_rule_bump(cs.drop_last(), rules), rule_bump(cs.last(), rules))
    }
}

/// Some commit announces a breaking change.
pub open spec fn has_breaking(cs: Seq<Option<CommitView>>) -> bool {
    exists|i: int| 0 <= i < cs.len() && (#[trigger] cs[i] matches Some(c) && c.2)
}

/// The bump for parsed commits (types lower-cased) and a lower-cased default:
/// `Major` on a breaking change, else the largest bump of the rules, else the
/// default.
pub open spec fn decided_bump(
    cs: Seq<Option<CommitView>>,
    default_lower: Seq<char>,
    rules: RulesView,
) -> BumpType {
    if has_breaking(cs) {
        BumpType::Major
    } else if highest_rule_bump(cs, rules) == BumpType::NoBump {
        default_bump_named(default_lower)
    } else {
        highest_rule_bump(cs, rules)
    }
}

/// A message as the analysis reads it: parsed, with its type lower-cased.
pub open spec fn normalized_commit(message: Seq<char>) -> Option<CommitView> {
    match conventional_parts(message) {
        Some(p) => Some((lower_text(p.0), p.1, p.2)),
        None => None,
    }
}

/// The messages as the analysis reads them.
pub open spec fn message_commits(messages: Seq<&str>) -> Seq<Option<CommitView>> {
    messages.map_values(|m: &str| normalized_commit(m@))
}

/// The bump whose lower-case name is `t`; `NoBump` for any other text.
pub fn bump_from_lowercase(t: &str) -> (r: BumpType)
    ensures
        r == bump_named(t@),
{
    if same_text(t, "major") {
        BumpType::Major
    } else if same_text(t, "minor") {
        BumpType::Minor
    } else if same_text(t, "patch") {
        BumpType::Patch
    } else {
        BumpType::NoBump
    }
}

/// The bump that a lower-cased `default_bump` setting asks for.
pub fn default_bump_from_lowercase(t: &str) -> (r: BumpType)
    ensures
        r == default_bump_named(t@),
{
    if same_text(t, "major") {
        BumpType::Major
    } else if same_text(t, "minor") {
        BumpType::Minor
    } else if same_text(t, "patch") {
        BumpType::Patch
    } else if same_text(t, "false") {
        BumpType::NoBump
    } else {
        BumpType::Patch
    }
}

/// The bump for commits that are already parsed, with their types lower-cased
/// (`None` for a message that is not a conventional commit), and a lower-cased
/// `default_bump` setting.
pub fn bump_from_commits(
    commits: &[Option<ConventionalCommit>],
    default_lower: &str,
    rules: &ReleaseRules,
) -> (r: BumpType)
    ensures
        r == decided_bump(commits@.map_values(|c| commit_view(c)), default_lower@, rules@),
        has_breaking(commits@.map_values(|c| commit_view(c))) ==> r == BumpType::Major,
        forall|i: int|
            0 <= i < commits@.len() ==> r.rank() >= #[trigger] rule_bump(
                commit_view(commits@[i]),
                rules@,
            ).rank(),
{
    let ghost cs = commits@.map_values(|c| commit_view(c));
    let n = commits.len();
    let mut highest = BumpType::NoBump;
    let mut i: usize = 0;
    while i < n
        invariant
            i <= n,
            n == commits@.len(),
            cs == commits@.map_values(|c| commit_view(c)),
            highest == highest_rule_bump(cs.take(i as int), rules@),
            forall|j: int| 0 <= j < i ==> !(#[trigger] cs[j] matches Some(c) && c.2),
            forall|j: int|
                0 <= j < i ==> highest.rank() >= #[trigger] rule_bump(cs[j], rules@).rank(),
        decreases n - i,
    {
        proof {
            assert(cs.take(i + 1).drop_last() =~= cs.take(i as int));
            assert(cs.take(i + 1).last() == cs[i as int]);
        }
        match &commits[i] {
            Some(c) => {
                if c.breaking {
                    proof {
                        assert(cs[i as int] matches Some(v) && v.2);
                        assert(has_breaking(cs));
                        lemma_highest_bounds(cs, rules@);
                    }
                    return BumpType::Major;
                }
                match rules.get(c.kind.as_str()) {
                    Some(rule) => {
                        if highest.level() < rule.bump.level() {
                            highest = rule.bump;
                        }
                    },
                    None => {},
                }
            },
            None => {},
        }
        i = i + 1;
    }
    proof {
        assert(cs.take(n as int) =~= cs);
        assert(!has_breaking(cs));
        assert forall|j: int| 0 <= j < n implies #[trigger] rule_bump(
            commit_view(commits@[j]),
            rules@,
        ).rank() <= highest.rank() by {
            assert(cs[j] == commit_view(commits@[j]));
        }
    }
    if highest.level() == 0 {
        let d = default_bump_from_lowercase(default_lower);
        proof {
            lemma_rank_zero(highest);
        }
        d
    } else {
        highest
    }
}

proof fn lemma_rank_zero(b: BumpType)
    requires
        b.rank() == 0,
    ensures
        b == BumpType::NoBump,
{
}

/// The largest rule bump bounds each commit's rule bump.
proof fn lemma_highest_bounds(cs: Seq<Option<CommitView>>, rules: RulesView)
    ensures
        forall|j: int|
            0 <= j < cs.len() ==> highest_rule_bump(cs, rules).rank() >= #[trigger] rule_bump(
                cs[j],
                rules,
            ).rank(),
    decreases cs.len(),
{
    if cs.len() > 0 {
        lemma_highest_bounds(cs.drop_last(), rules);
        assert forall|j: int| 0 <= j < cs.len() implies highest_rule_bump(cs, rules).rank()
            >= #[trigger] rule_bump(cs[j], rules).rank() by {
            if j < cs.len() - 1 {
                assert(cs.drop_last()[j] == cs[j]);
            }
        }
    }
}

/// Analyzes commit messages to determine the appropriate SemVer bump: a
/// breaking change forces `Major`; otherwise the largest bump that the rules
/// give a commit type; when that is `None`, the `default_bump` setting.
pub fn analyze_commits(
    commit_messages: &[&str],
    default_bump: &str,
    rules: &ReleaseRules,
) -> (r: BumpType)
    ensures
        r == decided_bump(
            message_commits(commit_messages@),
            lower_text(default_bump@),
            rules@,
        ),
{
    let n = commit_messages.len();
    let mut parsed: Vec<Option<ConventionalCommit>> = Vec::new();
    let mut i: usize = 0;
    while i < n
        invariant
            i <= n,
            n == commit_messages@.len(),
            parsed@.len() == i,
            forall|j: int|
                0 <= j < i ==> commit_view(#[trigger] parsed@[j]) == normalized_commit(
                    commit_messages@[j]@,
                ),
        decreases n - i,
    {
        match parse_conventional(commit_messages[i]) {
            Ok(c) => {
                let kind = lowercase(c.kind.as_str());
                parsed.push(
                    Some(
                        ConventionalCommit {
                            kind,
                            description: c.description,
                            breaking: c.breaking,
                        },
                    ),
                );
            },
            Err(_) => {
                parsed.push(None);
            },
        }
        i = i + 1;
    }
    let lower_default = lowercase(default_bump);
    let r = bump_from_commits(parsed.as_slice(), lower_default.as_str(), rules);
    proof {
        assert(parsed@.map_values(|c| commit_view(c)) =~= message_commits(commit_messages@));
    }
    r
}


/// Reading a bump's name back, case-insensitively, gives the bump: the name
/// is ASCII and already lower case, so `from_str(as_str(b))` is `b`.
pub proof fn law_bump_name_reads_back(b: BumpType)
    ensures
        all_ascii(b.name()),
        bump_named(b.name().map_values(|c: char| ascii_lower_char(c))) == b,
{
    reveal_strlit("major");
    reveal_strlit("minor");
    reveal_strlit("patch");
    reveal_strlit("none");
    let n = b.name();
    assert(n.map_values(|c: char| ascii_lower_char(c)) =~= n);
    assert("major"@[1] != "minor"@[1]);
    assert("major"@[0] != "patch"@[0]);
    assert("minor"@[0] != "patch"@[0]);
    assert("none"@[0] != "major"@[0]);
    assert("none"@[0] != "patch"@[0]);
    assert("none"@[1] != "minor"@[1]);
}

/// A breaking change among the commits always means a major bump.
pub proof fn law_breaking_change_forces_major(
    cs: Seq<Option<CommitView>>,
    default_lower: Seq<char>,
    rules: RulesView,
)
    requires
        has_breaking(cs),
    ensures
        decided_bump(cs, default_lower, rules) == BumpType::Major,
{
}

/// The decided bump is never smaller than the bump that the rules give any
/// of the commits.
pub proof fn law_bump_covers_every_commit(
    cs: Seq<Option<CommitView>>,
    default_lower: Seq<char>,
    rules: RulesView,
)
    ensures
        forall|i: int|
            0 <= i < cs.len() ==> decided_bump(cs, default_lower, rules).rank()
                >= #[trigger] rule_bump(cs[i], rules).rank(),
{
    lemma_highest_bounds(cs, rules);
}

/// Without a breaking change and without a commit type that the rules bump,
/// the `default_bump` setting decides (and `false` means no bump).
pub proof fn law_default_bump_applies(
    cs: Seq<Option<CommitView>>,
    default_lower: Seq<char>,
    rules: RulesView,
)
    requires
        !has_breaking(cs),
        forall|i: int| 0 <= i < cs.len() ==> #[trigger] rule_bump(cs[i], rules) == BumpType::NoBump,
    ensures
        decided_bump(cs, default_lower, rules) == default_bump_named(default_lower),
    decreases cs.len(),
{
    lemma_highest_none(cs, rules);
}

proof fn lemma_highest_none(cs: Seq<Option<CommitView>>, rules: RulesView)
    requires
        forall|i: int| 0 <= i < cs.len() ==> #[trigger] rule_bump(cs[i], rules) == BumpType::NoBump,
    ensures
        highest_rule_bump(cs, rules) == BumpType::NoBump,
    decreases cs.len(),
{
    if cs.len() > 0 {
        let t = cs.drop_last();
        assert forall|i: int| 0 <= i < t.len() implies #[trigger] rule_bump(t[i], rules)
            == BumpType::NoBump by {
            assert(t[i] == cs[i]);
        }
        lemma_highest_none(t, rules);
        assert(rule_bump(cs[cs.len() - 1], rules) == BumpType::NoBump);
    }
}


/// Two bumps of the same rank are the same bump.
proof fn lemma_rank_injective(a: BumpType, b: BumpType)
    requires
        a.rank() == b.rank(),
    ensures
        a == b,
{
}

/// The largest rule bump is `NoBump` or the rule bump of one of the commits.
proof fn lemma_highest_attained(cs: Seq<Option<CommitView>>, rules: RulesView)
    ensures
        highest_rule_bump(cs, rules) == BumpType::NoBump || exists|i: int|
            0 <= i < cs.len() && #[trigger] rule_bump(cs[i], rules) == highest_rule_bump(cs, rules),
    decreases cs.len(),
{
    if cs.len() > 0 {
        let t = cs.drop_last();
        lemma_highest_attained(t, rules);
        let h = highest_rule_bump(cs, rules);
        if h != BumpType::NoBump {
            if h == rule_bump(cs.last(), rules) {
                assert(rule_bump(cs[cs.len() - 1], rules) == h);
            } else {
                let i = choose|i: int| 0 <= i < t.len() && #[trigger] rule_bump(t[i], rules)
                    == highest_rule_bump(t, rules);
                assert(t[i] == cs[i]);
                assert(rule_bump(cs[i], rules) == h);
            }
        }
    }
}

/// The bump decided for commits depends only on which commits occur, not on
/// their order or how often each occurs.
proof fn lemma_decided_by_elements(
    cs1: Seq<Option<CommitView>>,
    cs2: Seq<Option<CommitView>>,
    default_lower: Seq<char>,
    rules: RulesView,
)
    requires
        forall|x: Option<CommitView>| cs1.contains(x) ==> cs2.contains(x),
        forall|x: Option<CommitView>| cs2.contains(x) ==> cs1.contains(x),
    ensures
        decided_bump(cs1, default_lower, rules) == decided_bump(cs2, default_lower, rules),
{
    lemma_highest_bounds(cs1, rules);
    lemma_highest_bounds(cs2, rules);
    lemma_highest_attained(cs1, rules);
    lemma_highest_attained(cs2, rules);
    let h1 = highest_rule_bump(cs1, rules);
    let h2 = highest_rule_bump(cs2, rules);
    if h1 != BumpType::NoBump {
        let i = choose|i: int| 0 <= i < cs1.len() && #[trigger] rule_bump(cs1[i], rules) == h1;
        assert(cs1.contains(cs1[i]));
        let j = choose|j: int| 0 <= j < cs2.len() && cs2[j] == cs1[i];
        assert(rule_bump(cs2[j], rules).rank() <= h2.rank());
    }
    if h2 != BumpType::NoBump {
        let i = choose|i: int| 0 <= i < cs2.len() && #[trigger] rule_bump(cs2[i], rules) == h2;
        assert(cs2.contains(cs2[i]));
        let j = choose|j: int| 0 <= j < cs1.len() && cs1[j] == cs2[i];
        assert(rule_bump(cs1[j], rules).rank() <= h1.rank());
    }
    lemma_rank_injective(h1, h2);
    if has_breaking(cs1) {
        let i = choose|i: int| 0 <= i < cs1.len() && (#[trigger] cs1[i] matches Some(c) && c.2);
        assert(cs1.contains(cs1[i]));
        let j = choose|j: int| 0 <= j < cs2.len() && cs2[j] == cs1[i];
        assert(cs2[j] matches Some(c) && c.2);
    }
    if has_breaking(cs2) {
        let i = choose|i: int| 0 <= i < cs2.len() && (#[trigger] cs2[i] matches Some(c) && c.2);
        assert(cs2.contains(cs2[i]));
        let j = choose|j: int| 0 <= j < cs1.len() && cs1[j] == cs2[i];
        assert(cs1[j] matches Some(c) && c.2);
    }
}

/// The order of the commit messages does not matter: messages that are a
/// permutation of each other call for the same bump.
pub proof fn law_commit_order_irrelevant(
    ms1: Seq<&str>,
    ms2: Seq<&str>,
    default_lower: Seq<char>,
    rules: RulesView,
)
    requires
        ms1.to_multiset() == ms2.to_multiset(),
    ensures
        decided_bump(message_commits(ms1), default_lower, rules) == decided_bump(
            message_commits(ms2),
            default_lower,
            rules,
        ),
{
    broadcast use vstd::seq_lib::group_to_multiset_ensures;

    let cs1 = message_commits(ms1);
    let cs2 = message_commits(ms2);
    assert forall|x: Option<CommitView>| cs1.contains(x) implies cs2.contains(x) by {
        let i = choose|i: int| 0 <= i < cs1.len() && cs1[i] == x;
        assert(ms1.contains(ms1[i]));
        assert(ms1.to_multiset().count(ms1[i]) > 0);
        assert(ms2.contains(ms1[i]));
        let j = choose|j: int| 0 <= j < ms2.len() && ms2[j] == ms1[i];
        assert(cs2[j] == x);
    }
    assert forall|x: Option<CommitView>| cs2.contains(x) implies cs1.contains(x) by {
        let i = choose|i: int| 0 <= i < cs2.len() && cs2[i] == x;
        assert(ms2.contains(ms2[i]));
        assert(ms2.to_multiset().count(ms2[i]) > 0);
        assert(ms1.contains(ms2[i]));
        let j = choose|j: int| 0 <= j < ms1.len() && ms1[j] == ms2[i];
        assert(cs1[j] == x);
    }
    lemma_decided_by_elements(cs1, cs2, default_lower, rules);
}

/// With the default `false`, more commits never call for a smaller bump.
pub proof fn law_more_commits_never_lower_bump(ms1: Seq<&str>, ms2: Seq<&str>, rules: RulesView)
    ensures
        decided_bump(message_commits(ms1 + ms2), "false"@, rules).rank() >= decided_bump(
            message_commits(ms1),
            "false"@,
            rules,
        ).rank(),
{
    let cs1 = message_commits(ms1);
    let cs = message_commits(ms1 + ms2);
    assert forall|i: int| 0 <= i < cs1.len() implies #[trigger] cs1[i] == cs[i] by {
        assert((ms1 + ms2)[i] == ms1[i]);
    }
    if has_breaking(cs1) {
        let i = choose|i: int| 0 <= i < cs1.len() && (#[trigger] cs1[i] matches Some(c) && c.2);
        assert(cs[i] == cs1[i]);
    }
    lemma_highest_attained(cs1, rules);
    lemma_highest_bounds(cs, rules);
    let h1 = highest_rule_bump(cs1, rules);
    if h1 != BumpType::NoBump {
        let i = choose|i: int| 0 <= i < cs1.len() && #[trigger] rule_bump(cs1[i], rules) == h1;
        assert(cs[i] == cs1[i]);
        assert(rule_bump(cs[i], rules).rank() <= highest_rule_bump(cs, rules).rank());
    }
    reveal_strlit("false");
    reveal_strlit("major");
    reveal_strlit("minor");
    reveal_strlit("patch");
    assert("false"@[0] != "major"@[0]);
    assert("false"@[0] != "minor"@[0]);
    assert("false"@[0] != "patch"@[0]);
}

/// A message that is not a conventional commit, or one that is not breaking
/// and whose type the rules do not bump, leaves the bump as it was.
pub proof fn law_neutral_commit_changes_nothing(
    ms: Seq<&str>,
    m: &str,
    default_lower: Seq<char>,
    rules: RulesView,
)
    requires
        match normalized_commit(m@) {
            Some(c) => !c.2 && rule_bump(Some(c), rules) == BumpType::NoBump,
            None => true,
        },
    ensures
        decided_bump(message_commits(ms.push(m)), default_lower, rules) == decided_bump(
            message_commits(ms),
            default_lower,
            rules,
        ),
{
    let cs = message_commits(ms);
    let cs2 = message_commits(ms.push(m));
    assert(cs2 =~= cs.push(normalized_commit(m@)));
    assert(cs2.drop_last() =~= cs);
    if has_breaking(cs2) {
        let i = choose|i: int| 0 <= i < cs2.len() && (#[trigger] cs2[i] matches Some(c) && c.2);
        assert(i < cs.len());
        assert(cs[i] == cs2[i]);
    }
    if has_breaking(cs) {
        let i = choose|i: int| 0 <= i < cs.len() && (#[trigger] cs[i] matches Some(c) && c.2);
        assert(cs2[i] == cs[i]);
    }
}

/// When no commit announces a breaking change and the rules bump the type of
/// some commit, the answer is the largest bump that the rules give a commit,
/// whatever the `default_bump` setting: the default only decides when no rule
/// bumps.
pub proof fn law_rules_outrank_default(
    cs: Seq<Option<CommitView>>,
    default_lower: Seq<char>,
    other_default: Seq<char>,
    rules: RulesView,
)
    requires
        !has_breaking(cs),
        exists|i: int| 0 <= i < cs.len() && #[trigger] rule_bump(cs[i], rules) != BumpType::NoBump,
    ensures
        decided_bump(cs, default_lower, rules) == decided_bump(cs, other_default, rules),
        exists|i: int|
            0 <= i < cs.len() && decided_bump(cs, default_lower, rules) == #[trigger] rule_bump(
                cs[i],
                rules,
            ),
        forall|i: int|
            0 <= i < cs.len() ==> decided_bump(cs, default_lower, rules).rank()
                >= #[trigger] rule_bump(cs[i], rules).rank(),
{
    lemma_highest_bounds(cs, rules);
    lemma_highest_attained(cs, rules);
    let i = choose|i: int| 0 <= i < cs.len() && #[trigger] rule_bump(cs[i], rules) != BumpType::NoBump;
    assert(rule_bump(cs[i], rules).rank() > 0);
    assert(highest_rule_bump(cs, rules) != BumpType::NoBump);
}

} // verus!
