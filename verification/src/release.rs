//! The decisions of a release run: the next version and tag, the release
//! name, the artifact patterns, the repository name and the step outputs.
use vstd::prelude::*;

use crate::analyzer::BumpType;
use crate::text::{
    chars_of, concat, has_prefix, lemma_split_pieces, lemma_trim_idempotent, lemma_trim_in_text,
    owned, split_on, split_spec, split_starts, strip_prefix, trim, trim_spec, trim_start_spec,
};
use crate::utils::{render_version, version_display, SemVersion, VersionView};

verus! {

/// The outcome of a release run: its type (`major`, `minor`, `patch` or
/// `custom`), the new version and the new tag.
pub struct ReleasePlan {
    pub release_type: String,
    pub new_version: String,
    pub new_tag: String,
}

/// A plan as plain values: (release type, new version, new tag).
pub type PlanView = (Seq<char>, Seq<char>, Seq<char>);

impl View for ReleasePlan {
    type V = PlanView;

    open spec fn view(&self) -> PlanView {
        (self.release_type@, self.new_version@, self.new_tag@)
    }
}

/// The version part of a custom tag: the tag without the prefix, or the whole
/// tag when it does not start with the prefix.
pub open spec fn custom_version_spec(custom: Seq<char>, prefix: Seq<char>) -> Seq<char> {
    if has_prefix(custom, prefix) {
        custom.subrange(prefix.len() as int, custom.len() as int)
    } else {
        custom
    }
}

/// The release for a custom tag, which overrides the commit analysis.
pub fn plan_custom_release(custom_tag: &str, tag_prefix: &str) -> (r: ReleasePlan)
    ensures
        r@ == ("custom"@, custom_version_spec(custom_tag@, tag_prefix@), tag_prefix@
            + custom_version_spec(custom_tag@, tag_prefix@)),
        has_prefix(r.new_tag@, tag_prefix@),
        r.new_tag@.subrange(tag_prefix@.len() as int, r.new_tag@.len() as int) == r.new_version@,
{
    let version_part = match strip_prefix(custom_tag, tag_prefix) {
        Some(rest) => rest,
        None => custom_tag,
    };
    let new_tag = concat(tag_prefix, version_part);
    proof {
        assert(new_tag@.subrange(0, tag_prefix@.len() as int) =~= tag_prefix@);
        assert(new_tag@.subrange(tag_prefix@.len() as int, new_tag@.len() as int)
            =~= version_part@);
    }
    ReleasePlan { release_type: owned("custom"), new_version: owned(version_part), new_tag }
}

/// The version after a bump: a major bump resets minor and patch, a minor
/// bump resets patch; pre-release and build metadata are kept.
pub open spec fn bumped_version(v: VersionView, bump: BumpType) -> VersionView {
    match bump {
        BumpType::Major => ((v.0 + 1) as u64, 0, 0, v.3, v.4),
        BumpType::Minor => (v.0, (v.1 + 1) as u64, 0, v.3, v.4),
        BumpType::Patch => (v.0, v.1, (v.2 + 1) as u64, v.3, v.4),
        BumpType::NoBump => v,
    }
}

/// The bump does not overflow the version number it raises.
pub open spec fn bump_fits(v: VersionView, bump: BumpType) -> bool {
    match bump {
        BumpType::Major => v.0 < u64::MAX,
        BumpType::Minor => v.1 < u64::MAX,
        BumpType::Patch => v.2 < u64::MAX,
        BumpType::NoBump => true,
    }
}

/// The release that a bump of the latest version calls for: none when no
/// bump is necessary; else the bumped version and `<prefix><version>`.
pub fn plan_bump_release(latest: &SemVersion, bump: BumpType, tag_prefix: &str) -> (r: Option<
    ReleasePlan,
>)
    requires
        bump_fits(latest@, bump),
    ensures
        bump == BumpType::NoBump <==> r is None,
        r matches Some(p) ==> p@ == (bump.name(), version_display(bumped_version(latest@, bump)),
            tag_prefix@ + version_display(bumped_version(latest@, bump))),
{
    let (major, minor, patch) = match bump {
        BumpType::NoBump => {
            return None;
        },
        BumpType::Major => (latest.major() + 1, 0, 0),
        BumpType::Minor => (latest.major(), latest.minor() + 1, 0),
        BumpType::Patch => (latest.major(), latest.minor(), latest.patch() + 1),
    };
    let new_version = render_version(major, minor, patch, latest.pre(), latest.build());
    let new_tag = concat(tag_prefix, new_version.as_str());
    Some(ReleasePlan { release_type: owned(bump.as_str()), new_version, new_tag })
}

/// `s` with every occurrence of `pat` replaced by `rep`, left to right
/// (`str::replace`); `pat` must not be empty.
pub open spec fn replace_spec(s: Seq<char>, pat: Seq<char>, rep: Seq<char>) -> Seq<char>
    decreases s.len(),
{
    if s.len() == 0 || pat.len() == 0 {
        s
    } else if has_prefix(s, pat) {
        rep + replace_spec(s.subrange(pat.len() as int, s.len() as int), pat, rep)
    } else {
        seq![s[0]] + replace_spec(s.drop_first(), pat, rep)
    }
}

/// The release name: the template with each `{tag}` replaced by the tag.
pub fn release_name(template: &str, tag: &str) -> (r: String)
    ensures
        r@ == replace_spec(template@, "{tag}"@, tag@),
{
    proof {
        reveal_strlit("{tag}");
    }
    let cs = chars_of(template);
    let pat = chars_of("{tag}");
    let n = cs.len();
    let mut out = String::new();
    let mut i: usize = 0;
    assert(template@.skip(0) =~= template@);
    while i < n
        invariant
            i <= n,
            n == cs@.len(),
            cs@ == template@,
            pat@ == "{tag}"@,
            pat@.len() == 5,
            replace_spec(template@, pat@, tag@) == out@ + replace_spec(
                template@.skip(i as int),
                pat@,
                tag@,
            ),
        decreases n - i,
    {
        let ghost rest = template@.skip(i as int);
        let mut is_match = n - i >= 5;
        let mut k: usize = 0;
        while is_match && k < 5
            invariant
                i <= n,
                n == cs@.len(),
                cs@ == template@,
                pat@.len() == 5,
                k <= 5,
                is_match ==> i + 5 <= n,
                is_match ==> forall|q: int| 0 <= q < k ==> cs@[i + q] == pat@[q],
                !is_match ==> !has_prefix(template@.skip(i as int), pat@),
            decreases 5 - k + (if is_match { 1int } else { 0int }),
        {
            if cs[i + k] != pat[k] {
                proof {
                    assert(template@.skip(i as int)[k as int] == cs@[i + k]);
                    if has_prefix(template@.skip(i as int), pat@) {
                        assert(template@.skip(i as int).subrange(0, 5)[k as int] == pat@[k as int]);
                    }
                }
                is_match = false;
            } else {
                k = k + 1;
            }
        }
        if is_match {
            proof {
                assert(rest.subrange(0, 5) =~= pat@);
                assert(rest.subrange(5, rest.len() as int) =~= template@.skip(i + 5));
            }
            out.append(tag);
            i = i + 5;
        } else {
            proof {
                assert(rest.drop_first() =~= template@.skip(i + 1));
                assert(rest[0] == cs@[i as int]);
            }
            let piece = template.substring_char(i, i + 1);
            proof {
                assert(piece@ =~= seq![cs@[i as int]]);
            }
            out.append(piece);
            i = i + 1;
        }
        proof {
            assert(replace_spec(template@, pat@, tag@) =~= out@ + replace_spec(
                template@.skip(i as int),
                pat@,
                tag@,
            ));
        }
    }
    proof {
        assert(template@.skip(n as int) =~= Seq::<char>::empty());
    }
    out
}

/// The trimmed, non-empty pieces of a comma or newline separated list.
pub open spec fn list_items(pieces: Seq<Seq<char>>) -> Seq<Seq<char>>
    decreases pieces.len(),
{
    if pieces.len() == 0 {
        Seq::empty()
    } else if trim_spec(pieces.last()).len() == 0 {
        list_items(pieces.drop_last())
    } else {
        list_items(pieces.drop_last()).push(trim_spec(pieces.last()))
    }
}

/// The glob patterns of the `artifacts` setting: its comma or newline
/// separated pieces, trimmed, blank ones left out.
pub fn artifact_patterns(artifacts: &str) -> (r: Vec<String>)
    ensures
        r@.map_values(|p: String| p@) == list_items(split_spec(artifacts@, seq!['\n', ','])),
{
    let seps = ['\n', ','];
    proof {
        assert(seps@ =~= seq!['\n', ',']);
    }
    let pieces = split_on(artifacts, &seps);
    let ghost all = split_spec(artifacts@, seq!['\n', ',']);
    let n = pieces.len();
    let mut out: Vec<String> = Vec::new();
    let mut i: usize = 0;
    while i < n
        invariant
            i <= n,
            n == pieces@.len(),
            n == all.len(),
            forall|k: int| 0 <= k < n ==> #[trigger] pieces@[k]@ == all[k],
            out@.map_values(|p: String| p@) == list_items(all.take(i as int)),
        decreases n - i,
    {
        proof {
            assert(all.take(i + 1).drop_last() =~= all.take(i as int));
            assert(all.take(i + 1).last() == all[i as int]);
        }
        let t = trim(pieces[i]);
        if !t.is_empty() {
            out.push(owned(t));
            proof {
                assert(out@.map_values(|p: String| p@) =~= list_items(all.take(i as int)).push(
                    t@,
                ));
            }
        }
        i = i + 1;
    }
    proof {
        assert(all.take(n as int) =~= all);
    }
    out
}

/// The owner and the name of a repository given as `owner/name`, when the
/// text holds a `/`.
pub fn split_repository(repository: &str) -> (r: Option<(String, String)>)
    ensures
        r is Some <==> split_spec(repository@, seq!['/']).len() >= 2,
        r matches Some(p) ==> p.0@ == split_spec(repository@, seq!['/'])[0] && p.1@ == split_spec(
            repository@,
            seq!['/'],
        )[1],
{
    let slash = ['/'];
    proof {
        assert(slash@ =~= seq!['/']);
    }
    let parts = split_on(repository, &slash);
    if parts.len() >= 2 {
        Some((owned(parts[0]), owned(parts[1])))
    } else {
        None
    }
}

/// The text that sets a step output: a `name=value` line for the file named
/// by `GITHUB_OUTPUT`, or a `::set-output` command otherwise.
pub fn output_text(name: &str, value: &str, to_file: bool) -> (r: String)
    ensures
        to_file ==> r@ == name@ + "="@ + value@,
        !to_file ==> r@ == "::set-output name="@ + name@ + "::"@ + value@,
{
    if to_file {
        let mut s = concat(name, "=");
        s.append(value);
        s
    } else {
        let mut s = concat("::set-output name=", name);
        s.append("::");
        s.append(value);
        s
    }
}

/// The text that sets a multi-line step output: a `name<<EOF` block for the
/// file named by `GITHUB_OUTPUT`, or a `::set-output` command otherwise.
pub fn multiline_output_text(name: &str, value: &str, to_file: bool) -> (r: String)
    ensures
        to_file ==> r@ == name@ + "<<EOF\n"@ + value@ + "\nEOF"@,
        !to_file ==> r@ == "::set-output name="@ + name@ + "::\n"@ + value@,
{
    if to_file {
        let mut s = concat(name, "<<EOF\n");
        s.append(value);
        s.append("\nEOF");
        s
    } else {
        let mut s = concat("::set-output name=", name);
        s.append("::\n");
        s.append(value);
        s
    }
}


/// The body of the release: the `release_body` setting, or the generated
/// changelog when the setting is empty.
pub fn release_body(input: &str, changelog: &str) -> (r: String)
    ensures
        input@.len() == 0 ==> r@ == changelog@,
        input@.len() > 0 ==> r@ == input@,
{
    if input.is_empty() {
        owned(changelog)
    } else {
        owned(input)
    }
}

/// A bump raises the version: the numbers (major, minor, patch) of the
/// bumped version come after the old ones in lexicographic order.
pub proof fn law_bump_raises_version(v: VersionView, bump: BumpType)
    requires
        bump != BumpType::NoBump,
        bump_fits(v, bump),
    ensures
        ({
            let w = bumped_version(v, bump);
            ||| w.0 > v.0
            ||| w.0 == v.0 && w.1 > v.1
            ||| w.0 == v.0 && w.1 == v.1 && w.2 > v.2
        }),
{
}

/// A template without `{tag}` is the release name as it stands.
pub proof fn law_release_name_without_placeholder(template: Seq<char>, tag: Seq<char>)
    requires
        forall|i: int| 0 <= i <= template.len() ==> !has_prefix(#[trigger] template.skip(i), "{tag}"@),
    ensures
        replace_spec(template, "{tag}"@, tag) == template,
    decreases template.len(),
{
    reveal_strlit("{tag}");
    if template.len() > 0 {
        let rest = template.drop_first();
        assert(template.skip(0) =~= template);
        assert forall|i: int| 0 <= i <= rest.len() implies !has_prefix(#[trigger] rest.skip(i), "{tag}"@) by {
            assert(rest.skip(i) =~= template.skip(i + 1));
        }
        law_release_name_without_placeholder(rest, tag);
        assert(seq![template[0]] + rest =~= template);
    }
}

/// Where each item of `list_items(pieces)` stands, as (start, end), when
/// piece `k` starts at `starts[k]`.
pub open spec fn item_spans(pieces: Seq<Seq<char>>, starts: Seq<int>) -> Seq<(int, int)>
    decreases pieces.len(),
{
    if pieces.len() == 0 {
        Seq::empty()
    } else if trim_spec(pieces.last()).len() == 0 {
        item_spans(pieces.drop_last(), starts.drop_last())
    } else {
        let p = pieces.last();
        let a = starts.last() + p.len() - trim_start_spec(p).len();
        item_spans(pieces.drop_last(), starts.drop_last()).push((a, a + trim_spec(p).len()))
    }
}

/// Piece `k` stands in `s` at `starts[k]` and holds no separator, and the
/// pieces come in order, apart from each other.
pub open spec fn pieces_in_text(
    s: Seq<char>,
    seps: Seq<char>,
    pieces: Seq<Seq<char>>,
    starts: Seq<int>,
) -> bool {
    &&& starts.len() == pieces.len()
    &&& forall|k: int|
        0 <= k < pieces.len() ==> {
            &&& 0 <= #[trigger] starts[k]
            &&& starts[k] + pieces[k].len() <= s.len()
            &&& pieces[k] == s.subrange(starts[k], starts[k] + pieces[k].len())
            &&& forall|j: int| 0 <= j < pieces[k].len() ==> !seps.contains(#[trigger] pieces[k][j])
        }
    &&& forall|k: int, l: int|
        #![trigger starts[k], starts[l]]
        0 <= k < l < pieces.len() ==> starts[k] + pieces[k].len() < starts[l]
}

/// Item `k` stands in `s` at `spans[k]`, ends by `bound`, is non-empty,
/// trimmed and holds no separator, and the items come in order, apart from
/// each other.
pub open spec fn items_in_text(
    s: Seq<char>,
    seps: Seq<char>,
    items: Seq<Seq<char>>,
    spans: Seq<(int, int)>,
    bound: int,
) -> bool {
    &&& spans.len() == items.len()
    &&& forall|k: int|
        0 <= k < items.len() ==> {
            &&& 0 <= (#[trigger] spans[k]).0 < spans[k].1 <= s.len()
            &&& spans[k].1 <= bound
            &&& items[k] == s.subrange(spans[k].0, spans[k].1)
            &&& items[k].len() > 0
            &&& trim_spec(items[k]) == items[k]
            &&& forall|j: int| 0 <= j < items[k].len() ==> !seps.contains(#[trigger] items[k][j])
        }
    &&& forall|k: int, l: int|
        #![trigger spans[k], spans[l]]
        0 <= k < l < items.len() ==> spans[k].1 < spans[l].0
}

/// Pieces that stand in `s` in order give items that stand in `s` in order:
/// each item is a non-empty, trimmed stretch of its piece.
proof fn lemma_items_in_text(s: Seq<char>, seps: Seq<char>, pieces: Seq<Seq<char>>, starts: Seq<int>)
    requires
        pieces_in_text(s, seps, pieces, starts),
    ensures
        items_in_text(
            s,
            seps,
            list_items(pieces),
            item_spans(pieces, starts),
            starts.last() + pieces.last().len(),
        ),
    decreases pieces.len(),
{
    if pieces.len() > 0 {
        let n = pieces.len();
        let ps = pieces.drop_last();
        let ss = starts.drop_last();
        assert forall|k: int| 0 <= k < ps.len() implies {
            &&& 0 <= #[trigger] ss[k]
            &&& ss[k] + ps[k].len() <= s.len()
            &&& ps[k] == s.subrange(ss[k], ss[k] + ps[k].len())
            &&& forall|j: int| 0 <= j < ps[k].len() ==> !seps.contains(#[trigger] ps[k][j])
        } by {
            assert(ps[k] == pieces[k]);
            assert(ss[k] == starts[k]);
        }
        assert forall|k: int, l: int|
            #![trigger ss[k], ss[l]]
            0 <= k < l < ps.len() implies ss[k] + ps[k].len() < ss[l] by {
            assert(ss[k] == starts[k]);
            assert(ss[l] == starts[l]);
            assert(ps[k] == pieces[k]);
        }
        assert(pieces_in_text(s, seps, ps, ss));
        lemma_items_in_text(s, seps, ps, ss);
        let items0 = list_items(ps);
        let spans0 = item_spans(ps, ss);
        let p = pieces.last();
        let st = starts.last();
        let bound = st + p.len();
        let _ = starts[n - 1];
        if n > 1 {
            let _ = starts[n - 2];
            assert(ps.last() == pieces[n - 2]);
            assert(ss.last() == starts[n - 2]);
            assert(ss.last() + ps.last().len() < st);
        }
        if trim_spec(p).len() == 0 {
            assert(list_items(pieces) == items0);
            assert(item_spans(pieces, starts) == spans0);
            assert forall|k: int| 0 <= k < items0.len() implies (#[trigger] spans0[k]).1 <= bound by {
            }
        } else {
            let t = trim_spec(p);
            lemma_trim_in_text(p);
            lemma_trim_idempotent(p);
            let off = p.len() - trim_start_spec(p).len();
            let a = st + off;
            let items = items0.push(t);
            let spans = spans0.push((a, a + t.len()));
            assert(list_items(pieces) == items);
            assert(item_spans(pieces, starts) == spans);
            assert(p == s.subrange(st, st + p.len()));
            assert(t == p.subrange(off, off + t.len()));
            assert forall|i: int| 0 <= i < t.len() implies t[i] == s[a + i] by {
                assert(t[i] == p[off + i]);
                assert(p[off + i] == s[st + off + i]);
            }
            assert(t =~= s.subrange(a, a + t.len()));
            assert forall|k: int| 0 <= k < items.len() implies {
                &&& 0 <= (#[trigger] spans[k]).0 < spans[k].1 <= s.len()
                &&& spans[k].1 <= bound
                &&& items[k] == s.subrange(spans[k].0, spans[k].1)
                &&& items[k].len() > 0
                &&& trim_spec(items[k]) == items[k]
                &&& forall|j: int| 0 <= j < items[k].len() ==> !seps.contains(#[trigger] items[k][j])
            } by {
                if k < items0.len() {
                    assert(spans[k] == spans0[k]);
                    assert(items[k] == items0[k]);
                } else {
                    assert forall|j: int| 0 <= j < t.len() implies !seps.contains(#[trigger] t[j]) by {
                        assert(t[j] == p[off + j]);
                    }
                }
            }
            assert forall|k: int, l: int|
                #![trigger spans[k], spans[l]]
                0 <= k < l < items.len() implies spans[k].1 < spans[l].0 by {
                assert(spans[k] == spans0[k]);
                if l < items0.len() {
                    assert(spans[l] == spans0[l]);
                }
            }
        }
    }
}

/// The artifact patterns of a setting, as `artifact_patterns` gives them.
pub open spec fn artifact_items(artifacts: Seq<char>) -> Seq<Seq<char>> {
    list_items(split_spec(artifacts, seq!['\n', ',']))
}

/// Each artifact pattern is a stretch of the `artifacts` setting exactly as
/// written (characters and case unchanged): a non-empty, trimmed piece between
/// commas and newlines, holding neither; the patterns come in the order of
/// the setting.
pub proof fn law_artifact_patterns_are_pieces_of_the_setting(artifacts: Seq<char>)
    ensures
        forall|k: int|
            0 <= k < artifact_items(artifacts).len() ==> {
                &&& (#[trigger] artifact_items(artifacts)[k]).len() > 0
                &&& trim_spec(artifact_items(artifacts)[k]) == artifact_items(artifacts)[k]
                &&& !artifact_items(artifacts)[k].contains('\n')
                &&& !artifact_items(artifacts)[k].contains(',')
            },
        exists|spans: Seq<(int, int)>|
            {
                &&& #[trigger] spans.len() == artifact_items(artifacts).len()
                &&& forall|k: int|
                    0 <= k < spans.len() ==> 0 <= (#[trigger] spans[k]).0 < spans[k].1
                        <= artifacts.len() && artifact_items(artifacts)[k] == artifacts.subrange(
                        spans[k].0,
                        spans[k].1,
                    )
                &&& forall|k: int, l: int|
                    #![trigger spans[k], spans[l]]
                    0 <= k < l < spans.len() ==> spans[k].1 < spans[l].0
            },
{
    let seps = seq!['\n', ','];
    lemma_split_pieces(artifacts, seps);
    let pieces = split_spec(artifacts, seps);
    let starts = split_starts(artifacts, seps);
    assert forall|k: int| 0 <= k < pieces.len() implies {
        &&& 0 <= #[trigger] starts[k]
        &&& starts[k] + pieces[k].len() <= artifacts.len()
        &&& pieces[k] == artifacts.subrange(starts[k], starts[k] + pieces[k].len())
        &&& forall|j: int| 0 <= j < pieces[k].len() ==> !seps.contains(#[trigger] pieces[k][j])
    } by {
        let _ = split_spec(artifacts, seps)[k];
    }
    assert(pieces_in_text(artifacts, seps, pieces, starts));
    lemma_items_in_text(artifacts, seps, pieces, starts);
    let items = list_items(pieces);
    let spans = item_spans(pieces, starts);
    assert(items == artifact_items(artifacts));
    assert(items_in_text(artifacts, seps, items, spans, starts.last() + pieces.last().len()));
    assert forall|k: int| 0 <= k < items.len() implies {
        &&& (#[trigger] items[k]).len() > 0
        &&& trim_spec(items[k]) == items[k]
        &&& !items[k].contains('\n')
        &&& !items[k].contains(',')
    } by {
        let _ = spans[k];
        if items[k].contains('\n') {
            let j = choose|j: int| 0 <= j < items[k].len() && items[k][j] == '\n';
            assert(seps.contains(items[k][j]));
        }
        if items[k].contains(',') {
            let j = choose|j: int| 0 <= j < items[k].len() && items[k][j] == ',';
            assert(seps[1] == ',');
            assert(seps.contains(items[k][j]));
        }
    }
    assert(spans.len() == artifact_items(artifacts).len());
}

} // verus!
