//! Version tags: picking the tags that carry a semantic version after the
//! tag prefix, ordering them from the highest version down, and finding the
//! latest stable one.
use vstd::prelude::*;

use crate::text::{decimal, decimal_string, has_prefix, owned, push_char};

verus! {

// ---------------------------------------------------------------------------
// regex
// ---------------------------------------------------------------------------

/// The characters that have a meaning in a regular expression
/// (`regex_syntax::is_meta_character`).
pub open spec fn is_regex_meta(c: char) -> bool {
    ||| c == '\\' || c == '.' || c == '+' || c == '*' || c == '?' || c == '('
    ||| c == ')' || c == '|' || c == '[' || c == ']' || c == '{' || c == '}'
    ||| c == '^' || c == '$' || c == '#' || c == '&' || c == '-' || c == '~'
}

/// `s` with a backslash before each meta character (`regex::escape`).
pub open spec fn regex_escaped(s: Seq<char>) -> Seq<char>
    decreases s.len(),
{
    if s.len() == 0 {
        Seq::empty()
    } else {
        regex_escaped(s.drop_last()) + if is_regex_meta(s.last()) {
            seq!['\\', s.last()]
        } else {
            seq![s.last()]
        }
    }
}

/// The pattern that matches text starting with `prefix`.
pub open spec fn prefix_pattern(prefix: Seq<char>) -> Seq<char> {
    seq!['^'] + regex_escaped(prefix)
}

/// Whether `regex::Regex::new` accepts `pattern` (it refuses invalid syntax
/// and programs over its size limit).
pub uninterp spec fn regex_compiles(pattern: Seq<char>) -> bool;

/// What `regex::Regex::is_match` answers for `pattern` on `haystack`.
pub uninterp spec fn regex_is_match(pattern: Seq<char>, haystack: Seq<char>) -> bool;

/// What `regex::Regex::replace` returns for `pattern` on `haystack` with an
/// empty replacement.
pub uninterp spec fn regex_removed_first(pattern: Seq<char>, haystack: Seq<char>) -> Seq<char>;

#[verifier::external_type_specification]
#[verifier::external_body]
pub struct ExRegex(regex::Regex);

#[verifier::external_type_specification]
#[verifier::external_body]
pub struct ExRegexError(regex::Error);

/// A compiled regular expression together with its source pattern.
pub struct CompiledPattern {
    regex: regex::Regex,
    pattern: String,
}

impl View for CompiledPattern {
    type V = Seq<char>;

    closed spec fn view(&self) -> Seq<char> {
        self.pattern@
    }
}

/// `regex::escape`: a backslash before each of the meta characters that
/// `is_regex_meta` lists, every other character kept.
#[verifier::external_body]
fn escape_regex(text: &str) -> (r: String)
    ensures
        r@ == regex_escaped(text@),
{
    regex::escape(text)
}

/// `regex::Regex::new`: succeeds exactly when the pattern compiles
/// (`regex_compiles`); the result remembers its source pattern.
#[verifier::external_body]
fn compile_regex(pattern: &str) -> (r: Result<CompiledPattern, regex::Error>)
    ensures
        r is Ok <==> regex_compiles(pattern@),
        r matches Ok(c) ==> c@ == pattern@,
{
    match regex::Regex::new(pattern) {
        Ok(regex) => Ok(CompiledPattern { regex, pattern: pattern.to_string() }),
        Err(e) => Err(e),
    }
}

/// `regex::Regex::is_match`. Named `regex_is_match`; for an anchored escaped
/// literal `^<escape(p)>` the regex documentation gives the answer: whether the
/// haystack starts with `p`.
#[verifier::external_body]
fn regex_matches(re: &CompiledPattern, haystack: &str) -> (r: bool)
    ensures
        r == regex_is_match(re@, haystack@),
        forall|p: Seq<char>| re@ == #[trigger] prefix_pattern(p) ==> (r == has_prefix(haystack@, p)),
{
    re.regex.is_match(haystack)
}

/// `regex::Regex::replace` with an empty replacement: the leftmost match is
/// removed, and a haystack without a match comes back unchanged. Named
/// `regex_removed_first`; for `^<escape(p)>` the match is the prefix `p`.
#[verifier::external_body]
fn regex_remove_first(re: &CompiledPattern, haystack: &str) -> (r: String)
    ensures
        r@ == regex_removed_first(re@, haystack@),
        forall|p: Seq<char>|
            re@ == #[trigger] prefix_pattern(p) ==> r@ == if has_prefix(haystack@, p) {
                haystack@.subrange(p.len() as int, haystack@.len() as int)
            } else {
                haystack@
            },
{
    re.regex.replace(haystack, "").to_string()
}

// ---------------------------------------------------------------------------
// semver
// ---------------------------------------------------------------------------

/// A semantic version as plain values: (major, minor, patch, pre-release,
/// build metadata).
pub type VersionView = (u64, u64, u64, Seq<char>, Seq<char>);

/// What `semver::Version::parse` makes of `text`: `None` when it is not a
/// valid semantic version.
pub uninterp spec fn semver_parsed(text: Seq<char>) -> Option<VersionView>;

/// The order of `semver::Version` (`Ord::cmp`): -1, 0 or 1.
pub uninterp spec fn version_precedence(a: VersionView, b: VersionView) -> int;

#[verifier::external_type_specification]
#[verifier::external_body]
pub struct ExVersion(semver::Version);

#[verifier::external_type_specification]
#[verifier::external_body]
pub struct ExSemverError(semver::Error);

/// A semantic version: its numbers, pre-release and build metadata, next to
/// the `semver::Version` that they were read from.
pub struct SemVersion {
    major: u64,
    minor: u64,
    patch: u64,
    pre: String,
    build: String,
    inner: semver::Version,
}

impl View for SemVersion {
    type V = VersionView;

    closed spec fn view(&self) -> VersionView {
        (self.major, self.minor, self.patch, self.pre@, self.build@)
    }
}

/// `semver::Version::parse`, with the version handed out as its numbers and
/// the text of its pre-release and build metadata. Named `semver_parsed`.
#[verifier::external_body]
fn parse_version(text: &str) -> (r: Result<SemVersion, semver::Error>)
    ensures
        match r {
            Ok(v) => semver_parsed(text@) == Some(v@),
            Err(_) => semver_parsed(text@) is None,
        },
{
    match semver::Version::parse(text) {
        Ok(v) => Ok(SemVersion {
            major: v.major,
            minor: v.minor,
            patch: v.patch,
            pre: v.pre.as_str().to_string(),
            build: v.build.as_str().to_string(),
            inner: v,
        }),
        Err(e) => Err(e),
    }
}

/// `semver::Version::new`: the version with the given numbers and empty
/// pre-release and build metadata.
#[verifier::external_body]
fn new_version(major: u64, minor: u64, patch: u64) -> (r: SemVersion)
    ensures
        r@ == (major, minor, patch, Seq::<char>::empty(), Seq::<char>::empty()),
{
    SemVersion {
        major,
        minor,
        patch,
        pre: String::new(),
        build: String::new(),
        inner: semver::Version::new(major, minor, patch),
    }
}

/// `Clone` for `semver::Version` (derived): an equal value.
#[verifier::external_body]
fn clone_version(v: &semver::Version) -> (r: semver::Version)
    ensures
        r == *v,
{
    v.clone()
}

/// `Ord::cmp` for `semver::Version` as -1, 0 or 1, named `version_precedence`.
/// The order is derived over (major, minor, patch, pre, build), so the
/// numbers decide first; a release ranks above a pre-release of the same
/// numbers; and `Ord` makes the order a total order, so it is antisymmetric
/// and transitive (the last two clauses: from `a >= b` and `b >= c` follow
/// `a >= c`, and from `a > b` and `b >= c` follow `a > c`).
#[verifier::external_body]
fn compare_versions(a: &SemVersion, b: &SemVersion) -> (r: i8)
    ensures
        r == version_precedence(a@, b@),
        r == -version_precedence(b@, a@),
        -1 <= r <= 1,
        a@ == b@ ==> r == 0,
        a.major < b.major ==> r == -1,
        a.major > b.major ==> r == 1,
        a.major == b.major && a.minor < b.minor ==> r == -1,
        a.major == b.major && a.minor > b.minor ==> r == 1,
        a.major == b.major && a.minor == b.minor && a.patch < b.patch ==> r == -1,
        a.major == b.major && a.minor == b.minor && a.patch > b.patch ==> r == 1,
        a.major == b.major && a.minor == b.minor && a.patch == b.patch && a.pre@.len() == 0
            && b.pre@.len() > 0 ==> r == 1,
        a.major == b.major && a.minor == b.minor && a.patch == b.patch && a.pre@.len() > 0
            && b.pre@.len() == 0 ==> r == -1,
        forall|c: VersionView|
            r >= 0 && #[trigger] version_precedence(b@, c) >= 0 ==> version_precedence(a@, c) >= 0,
        forall|c: VersionView|
            r > 0 && #[trigger] version_precedence(b@, c) >= 0 ==> version_precedence(a@, c) > 0,
{
    match a.inner.cmp(&b.inner) {
        std::cmp::Ordering::Less => -1,
        std::cmp::Ordering::Equal => 0,
        std::cmp::Ordering::Greater => 1,
    }
}

/// The text form of a version, as `Display` for `semver::Version` writes it:
/// `major.minor.patch`, then `-pre` and `+build` when they are not empty.
pub open spec fn version_display(v: VersionView) -> Seq<char> {
    decimal(v.0 as nat) + "."@ + decimal(v.1 as nat) + "."@ + decimal(v.2 as nat) + if v.3.len() > 0 {
        "-"@ + v.3
    } else {
        Seq::empty()
    } + if v.4.len() > 0 {
        "+"@ + v.4
    } else {
        Seq::empty()
    }
}

/// The text form of a version (`major.minor.patch[-pre][+build]`).
pub fn render_version(major: u64, minor: u64, patch: u64, pre: &str, build: &str) -> (r: String)
    ensures
        r@ == version_display((major, minor, patch, pre@, build@)),
{
    let mut s = decimal_string(major);
    s.append(".");
    let minor_text = decimal_string(minor);
    s.append(minor_text.as_str());
    s.append(".");
    let patch_text = decimal_string(patch);
    s.append(patch_text.as_str());
    if !pre.is_empty() {
        s.append("-");
        s.append(pre);
    }
    if !build.is_empty() {
        s.append("+");
        s.append(build);
    }
    proof {
        assert(s@ =~= version_display((major, minor, patch, pre@, build@)));
    }
    s
}

impl SemVersion {
    /// The semantic version written in `text`, if it is one.
    pub fn parse(text: &str) -> (r: Option<SemVersion>)
        ensures
            match r {
                Some(v) => semver_parsed(text@) == Some(v@),
                None => semver_parsed(text@) is None,
            },
    {
        match parse_version(text) {
            Ok(v) => Some(v),
            Err(_) => None,
        }
    }

    pub fn major(&self) -> (r: u64)
        ensures
            r == self@.0,
    {
        self.major
    }

    pub fn minor(&self) -> (r: u64)
        ensures
            r == self@.1,
    {
        self.minor
    }

    pub fn patch(&self) -> (r: u64)
        ensures
            r == self@.2,
    {
        self.patch
    }

    /// The pre-release part, empty for a release.
    pub fn pre(&self) -> (r: &str)
        ensures
            r@ == self@.3,
    {
        self.pre.as_str()
    }

    /// The build metadata, usually empty.
    pub fn build(&self) -> (r: &str)
        ensures
            r@ == self@.4,
    {
        self.build.as_str()
    }

    /// Whether the version is a release rather than a pre-release.
    pub fn is_stable(&self) -> (r: bool)
        ensures
            r == (self@.3.len() == 0),
    {
        self.pre.as_str().is_empty()
    }

    /// A copy of the version.
    pub fn duplicate(&self) -> (r: SemVersion)
        ensures
            r@ == self@,
    {
        SemVersion {
            major: self.major,
            minor: self.minor,
            patch: self.patch,
            pre: self.pre.clone(),
            build: self.build.clone(),
            inner: clone_version(&self.inner),
        }
    }

    /// The text form of the version (`major.minor.patch[-pre][+build]`).
    pub fn to_text(&self) -> (r: String)
        ensures
            r@ == version_display(self@),
    {
        render_version(self.major, self.minor, self.patch, self.pre.as_str(), self.build.as_str())
    }
}


// ---------------------------------------------------------------------------
// Tags
// ---------------------------------------------------------------------------

/// A tag of the repository: its name and the sha of the commit it points at.
pub struct RawTag {
    pub name: String,
    pub sha: String,
}

/// A tag whose name is the tag prefix followed by a semantic version.
pub struct ParsedTag {
    pub raw_name: String,
    pub sha: String,
    pub version: SemVersion,
}

/// A parsed tag as plain values: (name, sha, version).
pub type TagView = (Seq<char>, Seq<char>, VersionView);

impl View for ParsedTag {
    type V = TagView;

    open spec fn view(&self) -> TagView {
        (self.raw_name@, self.sha@, self.version@)
    }
}

impl ParsedTag {
    /// Whether this is the fallback tag at `HEAD`, which stands for "no
    /// release yet" and has no commits to compare against.
    pub fn points_at_head(&self) -> (r: bool)
        ensures
            r == (self.sha@ == "HEAD"@),
    {
        crate::text::same_text(self.sha.as_str(), "HEAD")
    }

    /// A copy of the tag.
    pub fn duplicate(&self) -> (r: ParsedTag)
        ensures
            r@ == self@,
    {
        ParsedTag {
            raw_name: self.raw_name.clone(),
            sha: self.sha.clone(),
            version: self.version.duplicate(),
        }
    }
}

/// Why the tags could not be read.
pub enum TagError {
    /// The pattern built from the tag prefix does not compile.
    InvalidPrefixPattern(regex::Error),
}

/// The views of a sequence of tags.
pub open spec fn tag_views(tags: Seq<ParsedTag>) -> Seq<TagView> {
    tags.map_values(|t: ParsedTag| t@)
}

/// The tag that a raw tag (name, sha) gives: its name must start with the
/// prefix, and the rest of the name must be a semantic version.
pub open spec fn tag_candidate(prefix: Seq<char>, name: Seq<char>, sha: Seq<char>) -> Option<TagView> {
    if has_prefix(name, prefix) {
        match semver_parsed(name.subrange(prefix.len() as int, name.len() as int)) {
            Some(v) => Some((name, sha, v)),
            None => None,
        }
    } else {
        None
    }
}

/// The tags that the raw tags give, in their order.
pub open spec fn valid_tags(prefix: Seq<char>, tags: Seq<RawTag>) -> Seq<TagView>
    decreases tags.len(),
{
    if tags.len() == 0 {
        Seq::empty()
    } else {
        let rest = valid_tags(prefix, tags.drop_last());
        match tag_candidate(prefix, tags.last().name@, tags.last().sha@) {
            Some(t) => rest.push(t),
            None => rest,
        }
    }
}

/// `x` placed into `s` after every tag whose version it does not exceed.
pub open spec fn insert_descending(s: Seq<TagView>, x: TagView) -> Seq<TagView>
    decreases s.len(),
{
    if s.len() == 0 {
        seq![x]
    } else if version_precedence(x.2, s[0].2) > 0 {
        seq![x] + s
    } else {
        seq![s[0]] + insert_descending(s.drop_first(), x)
    }
}

/// The tags ordered from the highest version down, tags of equal versions in
/// their original order (a stable sort by descending version).
pub open spec fn sort_descending(s: Seq<TagView>) -> Seq<TagView>
    decreases s.len(),
{
    if s.len() == 0 {
        Seq::empty()
    } else {
        insert_descending(sort_descending(s.drop_last()), s.last())
    }
}

/// Each tag's version is at least that of every tag after it.
pub open spec fn descending(s: Seq<TagView>) -> bool {
    forall|i: int, j: int|
        0 <= i < j < s.len() ==> version_precedence(#[trigger] s[i].2, #[trigger] s[j].2) >= 0
}

/// `out` holds the tags of `input` rearranged by `perm` (`out[i]` is
/// `input[perm[i]]`, each input tag once), and tags of equal versions keep
/// the order they had in `input`.
pub open spec fn stable_arrangement(out: Seq<TagView>, input: Seq<TagView>, perm: Seq<int>) -> bool {
    &&& perm.len() == out.len()
    &&& out.len() == input.len()
    &&& forall|i: int| 0 <= i < perm.len() ==> 0 <= #[trigger] perm[i] < input.len()
    &&& forall|i: int, j: int| 0 <= i < j < perm.len() ==> #[trigger] perm[i] != #[trigger] perm[j]
    &&& forall|i: int| 0 <= i < out.len() ==> #[trigger] out[i] == input[perm[i]]
    &&& forall|i: int, j: int|
        0 <= i < j < out.len() && version_precedence(#[trigger] out[i].2, #[trigger] out[j].2) == 0
            ==> perm[i] < perm[j]
}

/// Inserting before the first strictly smaller tag is `insert_descending`.
proof fn lemma_insert_descending_at(s: Seq<TagView>, x: TagView, j: int)
    requires
        0 <= j <= s.len(),
        forall|k: int| 0 <= k < j ==> version_precedence(x.2, #[trigger] s[k].2) <= 0,
        j < s.len() ==> version_precedence(x.2, s[j].2) > 0,
    ensures
        insert_descending(s, x) == s.take(j).push(x) + s.skip(j),
    decreases j,
{
    if j == 0 {
        if s.len() == 0 {
            assert(s.take(0).push(x) + s.skip(0) =~= seq![x]);
        } else {
            assert(s.take(0).push(x) + s.skip(0) =~= seq![x] + s);
        }
    } else {
        let t = s.drop_first();
        assert forall|k: int| 0 <= k < j - 1 implies version_precedence(x.2, #[trigger] t[k].2)
            <= 0 by {
            assert(t[k] == s[k + 1]);
        }
        if j - 1 < t.len() {
            assert(t[j - 1] == s[j]);
        }
        assert(s[0] == s[0]);
        assert(version_precedence(x.2, s[0].2) <= 0);
        lemma_insert_descending_at(t, x, j - 1);
        assert(seq![s[0]] + (t.take(j - 1).push(x) + t.skip(j - 1)) =~= s.take(j).push(x)
            + s.skip(j));
    }
}

/// Inserts `x` into the tags, which are ordered from the highest version
/// down, after every tag whose version `x` does not exceed; returns where.
fn insert_tag_descending(sorted: &mut Vec<ParsedTag>, x: ParsedTag) -> (j: usize)
    requires
        descending(tag_views(old(sorted)@)),
    ensures
        j <= old(sorted)@.len(),
        tag_views(final(sorted)@) == insert_descending(tag_views(old(sorted)@), x@),
        tag_views(final(sorted)@) == tag_views(old(sorted)@).take(j as int).push(x@) + tag_views(
            old(sorted)@,
        ).skip(j as int),
        forall|k: int|
            0 <= k < j ==> version_precedence(#[trigger] tag_views(old(sorted)@)[k].2, x@.2) >= 0,
        forall|k: int|
            j <= k < old(sorted)@.len() ==> version_precedence(
                x@.2,
                #[trigger] tag_views(old(sorted)@)[k].2,
            ) > 0,
        descending(tag_views(final(sorted)@)),
{
    let ghost before = tag_views(sorted@);
    let n = sorted.len();
    let mut j: usize = 0;
    let mut found = false;
    while j < n && !found
        invariant
            j <= n,
            n == sorted@.len(),
            before == tag_views(sorted@),
            descending(before),
            forall|k: int| 0 <= k < j ==> version_precedence(x@.2, #[trigger] before[k].2) <= 0,
            forall|k: int| 0 <= k < j ==> version_precedence(#[trigger] before[k].2, x@.2) >= 0,
            found ==> j < n && version_precedence(x@.2, before[j as int].2) > 0,
            found ==> forall|c: VersionView|
                #[trigger] version_precedence(before[j as int].2, c) >= 0 ==> version_precedence(
                    x@.2,
                    c,
                ) > 0,
        decreases n - j + (if found { 0int } else { 1int }),
    {
        let c = compare_versions(&x.version, &sorted[j].version);
        proof {
            assert(sorted@[j as int]@ == before[j as int]);
        }
        if c > 0 {
            found = true;
        } else {
            j = j + 1;
        }
    }
    proof {
        lemma_insert_descending_at(before, x@, j as int);
        assert forall|k: int| j <= k < n implies version_precedence(x@.2, #[trigger] before[k].2)
            > 0 by {
            if k > j {
                assert(version_precedence(before[j as int].2, before[k].2) >= 0);
            }
        }
    }
    let ghost xv = x@;
    sorted.insert(j, x);
    proof {
        let after = tag_views(sorted@);
        assert(after =~= before.take(j as int).push(xv) + before.skip(j as int));
        assert forall|a: int, b: int| 0 <= a < b < after.len() implies version_precedence(
            #[trigger] after[a].2,
            #[trigger] after[b].2,
        ) >= 0 by {
            if b < j {
                assert(after[a] == before[a] && after[b] == before[b]);
            } else if b == j {
                assert(after[a] == before[a] && after[b] == xv);
            } else if a < j {
                assert(after[a] == before[a] && after[b] == before[b - 1]);
            } else if a == j {
                assert(after[a] == xv && after[b] == before[b - 1]);
            } else {
                assert(after[a] == before[a - 1] && after[b] == before[b - 1]);
            }
        }
    }
    j
}

/// Orders tags from the highest version down; tags of equal versions keep
/// their order.
pub fn sort_tags_descending(tags: Vec<ParsedTag>) -> (r: Vec<ParsedTag>)
    ensures
        tag_views(r@) == sort_descending(tag_views(tags@)),
        descending(tag_views(r@)),
        exists|perm: Seq<int>| #[trigger] stable_arrangement(tag_views(r@), tag_views(tags@), perm),
{
    let ghost all = tag_views(tags@);
    let mut rest = tags;
    let mut sorted: Vec<ParsedTag> = Vec::new();
    let ghost mut perm: Seq<int> = Seq::empty();
    proof {
        assert(all.take(0) =~= Seq::<TagView>::empty());
    }
    let n = rest.len();
    let mut i: usize = 0;
    while i < n
        invariant
            i <= n,
            n == all.len(),
            rest@.len() == n - i,
            forall|k: int| 0 <= k < n - i ==> #[trigger] rest@[k]@ == all[i + k],
            tag_views(sorted@) == sort_descending(all.take(i as int)),
            descending(tag_views(sorted@)),
            stable_arrangement(tag_views(sorted@), all.take(i as int), perm),
        decreases n - i,
    {
        let ghost old_rest = rest@;
        let ghost old_sorted = tag_views(sorted@);
        let t = rest.remove(0);
        proof {
            assert(t@ == all[i as int]);
            assert forall|k: int| 0 <= k < n - i - 1 implies #[trigger] rest@[k]@ == all[i + 1 + k] by {
                assert(rest@[k] == old_rest[k + 1]);
            }
            assert(all.take(i + 1).drop_last() =~= all.take(i as int));
            assert(all.take(i + 1).last() == all[i as int]);
        }
        let ghost tv = t@;
        let j = insert_tag_descending(&mut sorted, t);
        proof {
            let out = tag_views(sorted@);
            let inp = all.take(i + 1);
            let p2 = perm.take(j as int).push(i as int) + perm.skip(j as int);
            assert(out =~= old_sorted.take(j as int).push(tv) + old_sorted.skip(j as int));
            assert forall|k: int| 0 <= k < p2.len() implies 0 <= #[trigger] p2[k] < inp.len() by {
                if k < j {
                    assert(p2[k] == perm[k]);
                } else if k > j {
                    assert(p2[k] == perm[k - 1]);
                }
            }
            assert forall|a: int, b: int| 0 <= a < b < p2.len() implies #[trigger] p2[a]
                != #[trigger] p2[b] by {
                if a < j {
                    assert(p2[a] == perm[a]);
                } else if a > j {
                    assert(p2[a] == perm[a - 1]);
                }
                if b < j {
                    assert(p2[b] == perm[b]);
                } else if b > j {
                    assert(p2[b] == perm[b - 1]);
                }
            }
            assert forall|k: int| 0 <= k < out.len() implies #[trigger] out[k] == inp[p2[k]] by {
                if k < j {
                    assert(p2[k] == perm[k]);
                    assert(out[k] == old_sorted[k]);
                } else if k > j {
                    assert(p2[k] == perm[k - 1]);
                    assert(out[k] == old_sorted[k - 1]);
                } else {
                    assert(out[k] == tv);
                }
            }
            assert forall|a: int, b: int|
                0 <= a < b < out.len() && version_precedence(
                    #[trigger] out[a].2,
                    #[trigger] out[b].2,
                ) == 0 implies p2[a] < p2[b] by {
                if a < j {
                    assert(p2[a] == perm[a]);
                    assert(out[a] == old_sorted[a]);
                } else if a > j {
                    assert(p2[a] == perm[a - 1]);
                    assert(out[a] == old_sorted[a - 1]);
                }
                if b < j {
                    assert(p2[b] == perm[b]);
                    assert(out[b] == old_sorted[b]);
                } else if b > j {
                    assert(p2[b] == perm[b - 1]);
                    assert(out[b] == old_sorted[b - 1]);
                }
                if a == j {
                    assert(out[a] == tv);
                    assert(version_precedence(tv.2, old_sorted[b - 1].2) > 0);
                }
            }
            perm = p2;
        }
        i = i + 1;
    }
    proof {
        assert(all.take(n as int) =~= all);
    }
    sorted
}

/// Filters the raw tags, keeping those whose name is `tag_prefix` followed by
/// a valid semantic version, and orders them from the highest version down.
/// Fails only when the pattern built from the prefix does not compile.
pub fn get_valid_tags(tags: Vec<RawTag>, tag_prefix: &str) -> (r: Result<Vec<ParsedTag>, TagError>)
    ensures
        r is Err <==> !regex_compiles(prefix_pattern(tag_prefix@)),
        r matches Ok(v) ==> tag_views(v@) == sort_descending(valid_tags(tag_prefix@, tags@)),
        r matches Ok(v) ==> descending(tag_views(v@)),
        r matches Ok(v) ==> exists|perm: Seq<int>|
            #[trigger] stable_arrangement(tag_views(v@), valid_tags(tag_prefix@, tags@), perm),
        r matches Ok(v) ==> forall|i: int|
            0 <= i < v@.len() ==> has_prefix(#[trigger] v@[i].raw_name@, tag_prefix@),
{
    let escaped = escape_regex(tag_prefix);
    let mut pattern = String::new();
    push_char(&mut pattern, '^');
    pattern.append(escaped.as_str());
    proof {
        assert(pattern@ =~= prefix_pattern(tag_prefix@));
    }
    let matcher = match compile_regex(pattern.as_str()) {
        Ok(m) => m,
        Err(e) => {
            return Err(TagError::InvalidPrefixPattern(e));
        },
    };
    let n = tags.len();
    let mut valid: Vec<ParsedTag> = Vec::new();
    let mut i: usize = 0;
    while i < n
        invariant
            i <= n,
            n == tags@.len(),
            matcher@ == prefix_pattern(tag_prefix@),
            tag_views(valid@) == valid_tags(tag_prefix@, tags@.take(i as int)),
        decreases n - i,
    {
        proof {
            assert(tags@.take(i + 1).drop_last() =~= tags@.take(i as int));
            assert(tags@.take(i + 1).last() == tags@[i as int]);
        }
        let name = tags[i].name.as_str();
        if regex_matches(&matcher, name) {
            let version_text = regex_remove_first(&matcher, name);
            match parse_version(version_text.as_str()) {
                Ok(version) => {
                    let tag = ParsedTag {
                        raw_name: tags[i].name.clone(),
                        sha: tags[i].sha.clone(),
                        version,
                    };
                    valid.push(tag);
                    proof {
                        assert(tag_views(valid@) =~= valid_tags(tag_prefix@, tags@.take(i + 1)));
                    }
                },
                Err(_) => {
                    proof {
                        assert(tag_views(valid@) =~= valid_tags(tag_prefix@, tags@.take(i + 1)));
                    }
                },
            }
        } else {
            proof {
                assert(tag_views(valid@) =~= valid_tags(tag_prefix@, tags@.take(i + 1)));
            }
        }
        i = i + 1;
    }
    proof {
        assert(tags@.take(n as int) =~= tags@);
    }
    let ghost vv = tag_views(valid@);
    let sorted = sort_tags_descending(valid);
    proof {
        let perm = choose|perm: Seq<int>| stable_arrangement(tag_views(sorted@), vv, perm);
        assert(stable_arrangement(tag_views(sorted@), valid_tags(tag_prefix@, tags@), perm));
    }
    proof {
        lemma_sorted_tags_have_prefix(tag_prefix@, tags@);
        assert forall|i: int| 0 <= i < sorted@.len() implies has_prefix(
            #[trigger] sorted@[i].raw_name@,
            tag_prefix@,
        ) by {
            assert(tag_views(sorted@)[i] == sorted@[i]@);
            assert(tag_views(sorted@) == sort_descending(valid_tags(tag_prefix@, tags@)));
            assert(has_prefix(sort_descending(valid_tags(tag_prefix@, tags@))[i].0, tag_prefix@));
        }
    }
    let r: Result<Vec<ParsedTag>, TagError> = Ok(sorted);
    proof {
        let v = r->Ok_0;
        assert(exists|p: Seq<int>| #[trigger] stable_arrangement(tag_views(v@), valid_tags(tag_prefix@, tags@), p));
    }
    r
}

/// Every tag that `valid_tags` keeps, in any order that `sort_descending`
/// gives them, starts with the prefix.
proof fn lemma_sorted_tags_have_prefix(prefix: Seq<char>, tags: Seq<RawTag>)
    ensures
        forall|i: int|
            0 <= i < sort_descending(valid_tags(prefix, tags)).len() ==> has_prefix(
                #[trigger] sort_descending(valid_tags(prefix, tags))[i].0,
                prefix,
            ),
{
    lemma_valid_tags_have_prefix(prefix, tags);
    lemma_sort_keeps_property(valid_tags(prefix, tags), prefix);
}

proof fn lemma_valid_tags_have_prefix(prefix: Seq<char>, tags: Seq<RawTag>)
    ensures
        forall|i: int|
            0 <= i < valid_tags(prefix, tags).len() ==> has_prefix(
                #[trigger] valid_tags(prefix, tags)[i].0,
                prefix,
            ),
    decreases tags.len(),
{
    if tags.len() > 0 {
        lemma_valid_tags_have_prefix(prefix, tags.drop_last());
        let rest = valid_tags(prefix, tags.drop_last());
        let r = valid_tags(prefix, tags);
        assert forall|i: int| 0 <= i < r.len() implies has_prefix(#[trigger] r[i].0, prefix) by {
            if i < rest.len() {
                assert(r[i] == rest[i]);
            }
        }
    }
}

proof fn lemma_insert_keeps_property(s: Seq<TagView>, x: TagView, prefix: Seq<char>)
    requires
        forall|i: int| 0 <= i < s.len() ==> has_prefix(#[trigger] s[i].0, prefix),
        has_prefix(x.0, prefix),
    ensures
        forall|i: int|
            0 <= i < insert_descending(s, x).len() ==> has_prefix(
                #[trigger] insert_descending(s, x)[i].0,
                prefix,
            ),
        insert_descending(s, x).len() == s.len() + 1,
    decreases s.len(),
{
    if s.len() > 0 && version_precedence(x.2, s[0].2) <= 0 {
        let t = s.drop_first();
        assert forall|i: int| 0 <= i < t.len() implies has_prefix(#[trigger] t[i].0, prefix) by {
            assert(t[i] == s[i + 1]);
        }
        lemma_insert_keeps_property(t, x, prefix);
        let r = insert_descending(s, x);
        assert forall|i: int| 0 <= i < r.len() implies has_prefix(#[trigger] r[i].0, prefix) by {
            if i > 0 {
                assert(r[i] == insert_descending(t, x)[i - 1]);
            }
        }
    } else if s.len() > 0 {
        let r = insert_descending(s, x);
        assert forall|i: int| 0 <= i < r.len() implies has_prefix(#[trigger] r[i].0, prefix) by {
            if i > 0 {
                assert(r[i] == s[i - 1]);
            }
        }
    }
}

proof fn lemma_sort_keeps_property(s: Seq<TagView>, prefix: Seq<char>)
    requires
        forall|i: int| 0 <= i < s.len() ==> has_prefix(#[trigger] s[i].0, prefix),
    ensures
        forall|i: int|
            0 <= i < sort_descending(s).len() ==> has_prefix(
                #[trigger] sort_descending(s)[i].0,
                prefix,
            ),
    decreases s.len(),
{
    if s.len() > 0 {
        let t = s.drop_last();
        assert forall|i: int| 0 <= i < t.len() implies has_prefix(#[trigger] t[i].0, prefix) by {
            assert(t[i] == s[i]);
        }
        lemma_sort_keeps_property(t, prefix);
        lemma_insert_keeps_property(sort_descending(t), s.last(), prefix);
    }
}

/// The first release (non-pre-release) tag, if any.
pub open spec fn first_stable(s: Seq<TagView>) -> Option<TagView>
    decreases s.len(),
{
    if s.len() == 0 {
        None
    } else if s[0].2.3.len() == 0 {
        Some(s[0])
    } else {
        first_stable(s.drop_first())
    }
}

/// The first stable tag is a release.
proof fn lemma_first_stable_is_stable(s: Seq<TagView>)
    ensures
        first_stable(s) matches Some(t) ==> t.2.3.len() == 0,
    decreases s.len(),
{
    if s.len() > 0 {
        lemma_first_stable_is_stable(s.drop_first());
    }
}

/// The latest tag is always a release: the first stable tag, or `0.0.0`.
pub proof fn law_latest_tag_is_stable(s: Seq<TagView>, prefix: Seq<char>)
    ensures
        latest_tag_spec(s, prefix).2.3.len() == 0,
{
    lemma_first_stable_is_stable(s);
}

/// The latest stable tag of tags ordered from the highest version down, or
/// `<prefix>0.0.0` at `HEAD` when there is none.
pub open spec fn latest_tag_spec(s: Seq<TagView>, prefix: Seq<char>) -> TagView {
    match first_stable(s) {
        Some(t) => t,
        None => (prefix + "0.0.0"@, "HEAD"@, (0, 0, 0, Seq::empty(), Seq::empty())),
    }
}

/// Finds the latest stable tag (ignoring prereleases like v1.0.0-beta): the
/// first one of tags ordered from the highest version down. Falls back to
/// `<prefix>0.0.0` at `HEAD` if no stable tag exists.
pub fn get_latest_tag(valid_tags: &[ParsedTag], tag_prefix: &str) -> (r: ParsedTag)
    ensures
        r@ == latest_tag_spec(valid_tags@.map_values(|t: ParsedTag| t@), tag_prefix@),
        r.version@.3.len() == 0,
{
    let ghost s = valid_tags@.map_values(|t: ParsedTag| t@);
    let n = valid_tags.len();
    let mut i: usize = 0;
    assert(s.skip(0) =~= s);
    while i < n
        invariant
            i <= n,
            n == valid_tags@.len(),
            s == valid_tags@.map_values(|t: ParsedTag| t@),
            first_stable(s) == first_stable(s.skip(i as int)),
        decreases n - i,
    {
        proof {
            assert(s.skip(i as int)[0] == s[i as int]);
        }
        if valid_tags[i].version.is_stable() {
            let t = valid_tags[i].duplicate();
            proof {
                lemma_first_stable_is_stable(s);
            }
            return t;
        }
        proof {
            assert(s.skip(i as int).drop_first() =~= s.skip(i + 1));
        }
        i = i + 1;
    }
    proof {
        assert(s.skip(n as int).len() == 0);
    }
    let mut raw_name = owned(tag_prefix);
    raw_name.append("0.0.0");
    ParsedTag { raw_name, sha: owned("HEAD"), version: new_version(0, 0, 0) }
}

/// The first stable tag is the first release of the list: a tag of the list
/// that is not a pre-release, with only pre-releases before it; `None` when
/// every tag is a pre-release.
proof fn lemma_first_stable_is_first_release(s: Seq<TagView>)
    ensures
        match first_stable(s) {
            Some(t) => exists|i: int|
                0 <= i < s.len() && s[i] == t && t.2.3.len() == 0 && forall|j: int|
                    0 <= j < i ==> (#[trigger] s[j]).2.3.len() != 0,
            None => forall|j: int| 0 <= j < s.len() ==> (#[trigger] s[j]).2.3.len() != 0,
        },
    decreases s.len(),
{
    if s.len() > 0 && s[0].2.3.len() != 0 {
        let r = s.drop_first();
        lemma_first_stable_is_first_release(r);
        match first_stable(r) {
            Some(t) => {
                let i = choose|i: int|
                    0 <= i < r.len() && r[i] == t && t.2.3.len() == 0 && forall|j: int|
                        0 <= j < i ==> (#[trigger] r[j]).2.3.len() != 0;
                assert(s[i + 1] == t);
                assert forall|j: int| 0 <= j < i + 1 implies (#[trigger] s[j]).2.3.len() != 0 by {
                    if j > 0 {
                        assert(s[j] == r[j - 1]);
                    }
                }
            },
            None => {
                assert forall|j: int| 0 <= j < s.len() implies (#[trigger] s[j]).2.3.len() != 0 by {
                    if j > 0 {
                        assert(s[j] == r[j - 1]);
                    }
                }
            },
        }
    }
}

/// The latest tag is the first release in the list (tags ordered from the
/// highest version down): a tag of the list that is not a pre-release and
/// has no release before it; in particular the first tag when it is a
/// release. Only when every tag is a pre-release is it `<prefix>0.0.0` at
/// `HEAD`.
pub proof fn law_latest_tag_is_first_release(s: Seq<TagView>, prefix: Seq<char>)
    ensures
        (exists|i: int| 0 <= i < s.len() && (#[trigger] s[i]).2.3.len() == 0) ==> exists|i: int|
            0 <= i < s.len() && latest_tag_spec(s, prefix) == s[i] && s[i].2.3.len() == 0
                && forall|j: int| 0 <= j < i ==> (#[trigger] s[j]).2.3.len() != 0,
        s.len() > 0 && s[0].2.3.len() == 0 ==> latest_tag_spec(s, prefix) == s[0],
        (forall|i: int| 0 <= i < s.len() ==> (#[trigger] s[i]).2.3.len() != 0) ==> latest_tag_spec(
            s,
            prefix,
        ) == (prefix + "0.0.0"@, "HEAD"@, (0u64, 0u64, 0u64, Seq::<char>::empty(), Seq::<char>::empty())),
{
    lemma_first_stable_is_first_release(s);
    if s.len() > 0 && s[0].2.3.len() == 0 {
        match first_stable(s) {
            Some(t) => {
                let i = choose|i: int|
                    0 <= i < s.len() && s[i] == t && t.2.3.len() == 0 && forall|j: int|
                        0 <= j < i ==> (#[trigger] s[j]).2.3.len() != 0;
                if i > 0 {
                    assert(s[0].2.3.len() != 0);
                }
            },
            None => {
                assert(s[0].2.3.len() != 0);
            },
        }
    }
    if exists|i: int| 0 <= i < s.len() && (#[trigger] s[i]).2.3.len() == 0 {
        let k = choose|i: int| 0 <= i < s.len() && (#[trigger] s[i]).2.3.len() == 0;
        if first_stable(s) is None {
            assert(s[k].2.3.len() != 0);
        }
    }
}

} // verus!
