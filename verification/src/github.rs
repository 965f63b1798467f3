//! The data that the GitHub API answers with, and the request details that
//! the release run derives from it.
use vstd::prelude::*;

use crate::text::{chars_of, concat};

verus! {

/// The answer of the compare endpoint: the commits between two refs.
pub struct CompareResult {
    pub commits: Vec<CommitItem>,
}

/// One commit of a comparison.
pub struct CommitItem {
    pub sha: String,
    pub commit: CommitDetails,
}

/// The details of a commit.
pub struct CommitDetails {
    pub message: String,
}

/// The (sha, message) pairs of the commits, in order.
pub fn commit_entries(commits: &[CommitItem]) -> (r: Vec<(String, String)>)
    ensures
        r@.len() == commits@.len(),
        forall|i: int|
            0 <= i < r@.len() ==> (#[trigger] r@[i]).0@ == commits@[i].sha@ && r@[i].1@
                == commits@[i].commit.message@,
{
    let n = commits.len();
    let mut out: Vec<(String, String)> = Vec::new();
    let mut i: usize = 0;
    while i < n
        invariant
            i <= n,
            n == commits@.len(),
            out@.len() == i,
            forall|k: int|
                0 <= k < i ==> (#[trigger] out@[k]).0@ == commits@[k].sha@ && out@[k].1@
                    == commits@[k].commit.message@,
        decreases n - i,
    {
        out.push((commits[i].sha.clone(), commits[i].commit.message.clone()));
        i = i + 1;
    }
    out
}

/// The characters of `s` before the first `c`, or all of `s` without one.
pub open spec fn before_char(s: Seq<char>, c: char) -> Seq<char>
    decreases s.len(),
{
    if s.len() == 0 || s[0] == c {
        Seq::empty()
    } else {
        seq![s[0]] + before_char(s.drop_first(), c)
    }
}

/// The address to upload a release asset to: the release's upload URL
/// without its `{?name,label}` template, with `?name=<file name>`.
pub fn asset_upload_url(upload_url: &str, file_name: &str) -> (r: String)
    ensures
        r@ == before_char(upload_url@, '{') + "?name="@ + file_name@,
{
    let cs = chars_of(upload_url);
    let n = cs.len();
    let mut i: usize = 0;
    let mut found = false;
    assert(upload_url@.skip(0) =~= upload_url@);
    while i < n && !found
        invariant
            i <= n,
            n == cs@.len(),
            cs@ == upload_url@,
            before_char(upload_url@, '{') == upload_url@.take(i as int) + before_char(
                upload_url@.skip(i as int),
                '{',
            ),
            found ==> i < n && cs@[i as int] == '{',
        decreases n - i + (if found { 0int } else { 1int }),
    {
        if cs[i] == '{' {
            found = true;
        } else {
            proof {
                let rest = upload_url@.skip(i as int);
                assert(rest[0] == cs@[i as int]);
                assert(rest.drop_first() =~= upload_url@.skip(i + 1));
                assert(upload_url@.take(i + 1) =~= upload_url@.take(i as int).push(cs@[i as int]));
                assert(upload_url@.take(i as int) + before_char(rest, '{') =~= upload_url@.take(
                    i + 1,
                ) + before_char(upload_url@.skip(i + 1), '{'));
            }
            i = i + 1;
        }
    }
    proof {
        let rest = upload_url@.skip(i as int);
        if found {
            assert(rest[0] == cs@[i as int]);
        } else {
            assert(rest.len() == 0);
        }
        assert(before_char(upload_url@, '{') =~= upload_url@.take(i as int));
    }
    let base = upload_url.substring_char(0, i);
    let mut url = concat(base, "?name=");
    url.append(file_name);
    url
}


/// What `mime_guess::from_path(name).first_or_octet_stream()` gives for a
/// file name, as text.
pub uninterp spec fn guessed_content_type(file_name: Seq<char>) -> Seq<char>;

/// `mime_guess::from_path(..).first_or_octet_stream()`: the content type that
/// the file name's extension suggests (no disk access), named
/// `guessed_content_type`. A name without a `.` has no extension, and then
/// the guess is empty and `application/octet-stream` comes back.
#[verifier::external_body]
pub fn asset_content_type(file_name: &str) -> (r: String)
    ensures
        r@ == guessed_content_type(file_name@),
        !file_name@.contains('.') ==> r@ == "application/octet-stream"@,
{
    mime_guess::from_path(file_name).first_or_octet_stream().to_string()
}

/// Where and as what to upload a release asset: the upload address and the
/// content type guessed from the file name.
pub fn asset_upload_request(upload_url: &str, file_name: &str) -> (r: (String, String))
    ensures
        r.0@ == before_char(upload_url@, '{') + "?name="@ + file_name@,
        r.1@ == guessed_content_type(file_name@),
{
    let url = asset_upload_url(upload_url, file_name);
    let content_type = asset_content_type(file_name);
    (url, content_type)
}

/// Whether to fetch further pages of tags: only when all tags are wanted and
/// the first page was full (100 tags).
pub fn fetch_more_tag_pages(fetch_all_tags: bool, first_page_len: usize) -> (r: bool)
    ensures
        r == (fetch_all_tags && first_page_len == 100),
{
    fetch_all_tags && first_page_len == 100
}

} // verus!
