//! Character-level text operations on `str` and `String`, each stated over
//! the `Seq<char>` view of its arguments.
use vstd::prelude::*;
use vstd::string::*;

verus! {

broadcast use vstd::string::group_string_axioms;

// ---------------------------------------------------------------------------
// Specifications
// ---------------------------------------------------------------------------

/// The Unicode `White_Space` property (PropList.txt), which `char::is_whitespace` tests.
pub open spec fn is_white_space(c: char) -> bool {
    ||| ('\t' <= c && c <= '\r')
    ||| c == ' '
    ||| c == '\u{85}'
    ||| c == '\u{a0}'
    ||| c == '\u{1680}'
    ||| ('\u{2000}' <= c && c <= '\u{200a}')
    ||| c == '\u{2028}'
    ||| c == '\u{2029}'
    ||| c == '\u{202f}'
    ||| c == '\u{205f}'
    ||| c == '\u{3000}'
}

/// `s` without its leading white space.
pub open spec fn trim_start_spec(s: Seq<char>) -> Seq<char>
    decreases s.len(),
{
    if s.len() > 0 && is_white_space(s[0]) {
        trim_start_spec(s.drop_first())
    } else {
        s
    }
}

/// `s` without its trailing white space.
pub open spec fn trim_end_spec(s: Seq<char>) -> Seq<char>
    decreases s.len(),
{
    if s.len() > 0 && is_white_space(s.last()) {
        trim_end_spec(s.drop_last())
    } else {
        s
    }
}

/// `s` without leading and trailing white space, as `str::trim` gives it.
pub open spec fn trim_spec(s: Seq<char>) -> Seq<char> {
    trim_end_spec(trim_start_spec(s))
}

/// The pieces of `s` between occurrences of the separators `seps`, as
/// `str::split` with a `char` (or an array of them) yields them: one more
/// piece than there are separators.
pub open spec fn split_spec(s: Seq<char>, seps: Seq<char>) -> Seq<Seq<char>>
    decreases s.len(),
{
    if s.len() == 0 {
        seq![Seq::<char>::empty()]
    } else {
        let pieces = split_spec(s.drop_last(), seps);
        if seps.contains(s.last()) {
            pieces.push(Seq::<char>::empty())
        } else {
            pieces.update(pieces.len() - 1, pieces.last().push(s.last()))
        }
    }
}

/// `p` is a prefix of `s`.
pub open spec fn has_prefix(s: Seq<char>, p: Seq<char>) -> bool {
    p.len() <= s.len() && s.subrange(0, p.len() as int) == p
}

/// The first `n` characters of `s`, or all of `s` when it is shorter.
pub open spec fn take_chars(s: Seq<char>, n: nat) -> Seq<char> {
    if s.len() <= n {
        s
    } else {
        s.take(n as int)
    }
}

/// ASCII case folding of one character: `A`..`Z` become `a`..`z`.
pub open spec fn ascii_lower_char(c: char) -> char {
    if 'A' <= c && c <= 'Z' {
        ((c as u32) + 32) as char
    } else {
        c
    }
}

/// Every character of `s` is ASCII.
pub open spec fn all_ascii(s: Seq<char>) -> bool {
    forall|i: int| 0 <= i < s.len() ==> (s[i] as u32) < 128
}

/// The decimal digit character for `d < 10`.
pub open spec fn digit_char(d: nat) -> char {
    ((d + 48) as u32) as char
}

/// The decimal rendering of `n`, without leading zeros, as `Display` for
/// unsigned integers prints it.
pub open spec fn decimal(n: nat) -> Seq<char>
    decreases n,
{
    if n < 10 {
        seq![digit_char(n)]
    } else {
        decimal(n / 10).push(digit_char(n % 10))
    }
}

/// What `str::to_lowercase` returns for `s` (the Unicode lower-case mapping).
pub uninterp spec fn lowercase_of(s: Seq<char>) -> Seq<char>;

/// The lower-case form of `s`: ASCII case folding on ASCII text, the Unicode
/// lower-case mapping (`lowercase_of`) otherwise.
pub open spec fn lower_text(s: Seq<char>) -> Seq<char> {
    if all_ascii(s) {
        s.map_values(|c: char| ascii_lower_char(c))
    } else {
        lowercase_of(s)
    }
}

// ---------------------------------------------------------------------------
// Calls into std without a specification in vstd
// ---------------------------------------------------------------------------

/// Whether `c` has the Unicode `White_Space` property (`char::is_whitespace`).
pub fn char_is_whitespace(c: char) -> (r: bool)
    ensures
        r == is_white_space(c),
{
    ('\t' <= c && c <= '\r') || c == ' ' || c == '\u{85}' || c == '\u{a0}' || c == '\u{1680}'
        || ('\u{2000}' <= c && c <= '\u{200a}') || c == '\u{2028}' || c == '\u{2029}'
        || c == '\u{202f}' || c == '\u{205f}' || c == '\u{3000}'
}

/// `str::to_lowercase`. Its result is named `lowercase_of`; on text made of
/// ASCII characters only, std documents the mapping as `A`..`Z` to `a`..`z`
/// with every other ASCII character kept, which the second clause states.
#[verifier::external_body]
pub(crate) fn to_lowercase(s: &str) -> (r: String)
    ensures
        r@ == lowercase_of(s@),
        all_ascii(s@) ==> r@ == s@.map_values(|c: char| ascii_lower_char(c)),
{
    s.to_lowercase()
}

/// `String::push`: appends one character.
#[verifier::external_body]
pub(crate) fn push_char(s: &mut String, c: char)
    ensures
        final(s)@ == old(s)@.push(c),
{
    s.push(c)
}

// ---------------------------------------------------------------------------
// Verified operations
// ---------------------------------------------------------------------------

/// The lower-case form of `s` (`str::to_lowercase`).
pub fn lowercase(s: &str) -> (r: String)
    ensures
        r@ == lower_text(s@),
{
    to_lowercase(s)
}

/// The characters of `s`, in order.
pub fn chars_of(s: &str) -> (v: Vec<char>)
    ensures
        v@ == s@,
{
    let mut v: Vec<char> = Vec::new();
    for c in it: s.chars()
        invariant
            v@ == it.seq().take(it.index() as int),
    {
        v.push(c);
    }
    v
}

/// Whether `a` and `b` hold the same characters.
pub fn same_text(a: &str, b: &str) -> (r: bool)
    ensures
        r == (a@ == b@),
{
    let x = String::from_str(a);
    let y = String::from_str(b);
    x == y
}

/// A new `String` holding `s`.
pub fn owned(s: &str) -> (r: String)
    ensures
        r@ == s@,
{
    String::from_str(s)
}

/// Number of leading white-space characters of `cs`.
fn leading_white_space(cs: &Vec<char>) -> (k: usize)
    ensures
        k <= cs@.len(),
        trim_start_spec(cs@) == cs@.subrange(k as int, cs@.len() as int),
{
    let n = cs.len();
    let mut i: usize = 0;
    let mut done = false;
    assert(cs@.subrange(0, n as int) =~= cs@);
    while i < n && !done
        invariant
            i <= n,
            n == cs@.len(),
            trim_start_spec(cs@) == trim_start_spec(cs@.subrange(i as int, n as int)),
            done ==> i < n && !is_white_space(cs@[i as int]),
        decreases n - i + (if done { 0int } else { 1int }),
    {
        if char_is_whitespace(cs[i]) {
            proof {
                assert(cs@.subrange(i as int, n as int).drop_first() =~= cs@.subrange(
                    i + 1,
                    n as int,
                ));
            }
            i = i + 1;
        } else {
            done = true;
        }
    }
    proof {
        if i == n {
            assert(cs@.subrange(i as int, n as int).len() == 0);
        } else {
            assert(cs@.subrange(i as int, n as int)[0] == cs@[i as int]);
        }
    }
    i
}

/// End of `cs@.subrange(from, len)` once its trailing white space is dropped.
fn trailing_white_space_end(cs: &Vec<char>, from: usize) -> (j: usize)
    requires
        from <= cs@.len(),
    ensures
        from <= j <= cs@.len(),
        trim_end_spec(cs@.subrange(from as int, cs@.len() as int)) == cs@.subrange(
            from as int,
            j as int,
        ),
{
    let n = cs.len();
    let mut j: usize = n;
    let mut done = false;
    while j > from && !done
        invariant
            from <= j <= n,
            n == cs@.len(),
            trim_end_spec(cs@.subrange(from as int, n as int)) == trim_end_spec(
                cs@.subrange(from as int, j as int),
            ),
            done ==> j > from && !is_white_space(cs@[j - 1]),
        decreases j - from + (if done { 0int } else { 1int }),
    {
        if char_is_whitespace(cs[j - 1]) {
            proof {
                assert(cs@.subrange(from as int, j as int).drop_last() =~= cs@.subrange(
                    from as int,
                    j - 1,
                ));
            }
            j = j - 1;
        } else {
            done = true;
        }
    }
    proof {
        if j == from {
            assert(cs@.subrange(from as int, j as int).len() == 0);
        } else {
            assert(cs@.subrange(from as int, j as int).last() == cs@[j - 1]);
        }
    }
    j
}

/// `s` without leading and trailing white space (`str::trim`).
pub fn trim(s: &str) -> (r: &str)
    ensures
        r@ == trim_spec(s@),
{
    let cs = chars_of(s);
    let k = leading_white_space(&cs);
    let j = trailing_white_space_end(&cs, k);
    s.substring_char(k, j)
}

/// Whether `c` is one of `seps`.
fn is_one_of(c: char, seps: &[char]) -> (r: bool)
    ensures
        r == seps@.contains(c),
{
    let n = seps.len();
    let mut i: usize = 0;
    while i < n
        invariant
            i <= n,
            n == seps@.len(),
            forall|k: int| 0 <= k < i ==> seps@[k] != c,
        decreases n - i,
    {
        if seps[i] == c {
            return true;
        }
        i = i + 1;
    }
    false
}

/// The pieces of `s` between occurrences of any of `seps` (`str::split`).
pub fn split_on<'a>(s: &'a str, seps: &[char]) -> (parts: Vec<&'a str>)
    ensures
        parts@.len() == split_spec(s@, seps@).len(),
        forall|i: int| 0 <= i < parts@.len() ==> #[trigger] parts@[i]@ == split_spec(s@, seps@)[i],
{
    let ghost sep = seps@;
    let cs = chars_of(s);
    let n = cs.len();
    let mut parts: Vec<&'a str> = Vec::new();
    let mut start: usize = 0;
    let mut i: usize = 0;
    while i < n
        invariant
            start <= i <= n,
            n == cs@.len(),
            cs@ == s@,
            sep == seps@,
            parts@.len() + 1 == split_spec(s@.take(i as int), sep).len(),
            forall|k: int|
                0 <= k < parts@.len() ==> #[trigger] parts@[k]@ == split_spec(
                    s@.take(i as int),
                    sep,
                )[k],
            split_spec(s@.take(i as int), sep).last() == s@.subrange(start as int, i as int),
        decreases n - i,
    {
        proof {
            assert(s@.take(i + 1).drop_last() =~= s@.take(i as int));
            assert(s@.take(i + 1).last() == s@[i as int]);
        }
        if is_one_of(cs[i], seps) {
            let piece = s.substring_char(start, i);
            parts.push(piece);
            start = i + 1;
            proof {
                assert(s@.subrange(start as int, i + 1) =~= Seq::<char>::empty());
            }
        } else {
            proof {
                assert(s@.subrange(start as int, i + 1) =~= s@.subrange(
                    start as int,
                    i as int,
                ).push(s@[i as int]));
            }
        }
        i = i + 1;
    }
    let last = s.substring_char(start, n);
    parts.push(last);
    proof {
        assert(s@.take(n as int) =~= s@);
    }
    parts
}

/// Whether `p` is a prefix of `s` (`str::starts_with`).
pub fn starts_with(s: &str, p: &str) -> (r: bool)
    ensures
        r == has_prefix(s@, p@),
{
    let n = s.unicode_len();
    let m = p.unicode_len();
    if m > n {
        return false;
    }
    let head = s.substring_char(0, m);
    same_text(head, p)
}

/// `s` without the prefix `p`, when `s` starts with it (`str::strip_prefix`).
pub fn strip_prefix<'a>(s: &'a str, p: &str) -> (r: Option<&'a str>)
    ensures
        match r {
            Some(rest) => has_prefix(s@, p@) && rest@ == s@.subrange(p@.len() as int, s@.len() as int),
            None => !has_prefix(s@, p@),
        },
{
    if starts_with(s, p) {
        let n = s.unicode_len();
        let m = p.unicode_len();
        Some(s.substring_char(m, n))
    } else {
        None
    }
}

/// The first `n` characters of `s`, or all of it (`s.chars().take(n)`).
pub fn first_chars(s: &str, n: usize) -> (r: String)
    ensures
        r@ == take_chars(s@, n as nat),
{
    let len = s.unicode_len();
    if len <= n {
        owned(s)
    } else {
        owned(s.substring_char(0, n))
    }
}

/// The digit character for `d`.
fn digit(d: u64) -> (c: char)
    requires
        d < 10,
    ensures
        c == digit_char(d as nat),
{
    let b: u8 = (d as u8) + 48;
    b as char
}

/// The decimal rendering of `n` (`u64::to_string`).
pub fn decimal_string(n: u64) -> (r: String)
    ensures
        r@ == decimal(n as nat),
    decreases n,
{
    if n < 10 {
        let mut s = String::new();
        push_char(&mut s, digit(n));
        s
    } else {
        let mut s = decimal_string(n / 10);
        push_char(&mut s, digit(n % 10));
        s
    }
}

/// `a` followed by `b`.
pub fn concat(a: &str, b: &str) -> (r: String)
    ensures
        r@ == a@ + b@,
{
    let mut s = String::from_str(a);
    s.append(b);
    s
}


// ---------------------------------------------------------------------------
// Lexicographic order
// ---------------------------------------------------------------------------

/// `a` comes strictly before `b` in lexicographic order of code points, the
/// order that `Ord` for `String` uses (UTF-8 bytes compare as code points do).
pub open spec fn lex_lt(a: Seq<char>, b: Seq<char>) -> bool
    decreases a.len(),
{
    if a.len() == 0 {
        b.len() > 0
    } else if b.len() == 0 {
        false
    } else if a[0] != b[0] {
        a[0] < b[0]
    } else {
        lex_lt(a.drop_first(), b.drop_first())
    }
}

/// No text comes before itself.
pub proof fn lemma_lex_irreflexive(a: Seq<char>)
    ensures
        !lex_lt(a, a),
    decreases a.len(),
{
    if a.len() > 0 {
        lemma_lex_irreflexive(a.drop_first());
    }
}

/// Lexicographic order is transitive.
pub proof fn lemma_lex_transitive(a: Seq<char>, b: Seq<char>, c: Seq<char>)
    requires
        lex_lt(a, b),
        lex_lt(b, c),
    ensures
        lex_lt(a, c),
    decreases a.len(),
{
    if a.len() > 0 && b.len() > 0 && c.len() > 0 {
        if a[0] == b[0] && b[0] == c[0] {
            lemma_lex_transitive(a.drop_first(), b.drop_first(), c.drop_first());
        }
    }
}

/// Of two different texts, one comes before the other, and not both ways.
pub proof fn lemma_lex_total(a: Seq<char>, b: Seq<char>)
    ensures
        a != b ==> (lex_lt(a, b) || lex_lt(b, a)),
        !(lex_lt(a, b) && lex_lt(b, a)),
    decreases a.len(),
{
    if a.len() > 0 && b.len() > 0 {
        if a[0] == b[0] {
            lemma_lex_total(a.drop_first(), b.drop_first());
            if a != b {
                assert(a =~= seq![a[0]] + a.drop_first());
                assert(b =~= seq![b[0]] + b.drop_first());
            }
        }
    } else if a.len() == 0 && b.len() == 0 {
        assert(a =~= b);
    }
}

/// Whether `a` comes strictly before `b` in lexicographic order.
pub fn text_less(a: &str, b: &str) -> (r: bool)
    ensures
        r == lex_lt(a@, b@),
{
    let x = chars_of(a);
    let y = chars_of(b);
    let n = x.len();
    let m = y.len();
    let mut i: usize = 0;
    assert(a@.skip(0) =~= a@);
    assert(b@.skip(0) =~= b@);
    while i < n && i < m && x[i] == y[i]
        invariant
            i <= n,
            i <= m,
            n == a@.len(),
            m == b@.len(),
            x@ == a@,
            y@ == b@,
            lex_lt(a@, b@) == lex_lt(a@.skip(i as int), b@.skip(i as int)),
        decreases n - i,
    {
        proof {
            assert(a@.skip(i as int).drop_first() =~= a@.skip(i + 1));
            assert(b@.skip(i as int).drop_first() =~= b@.skip(i + 1));
        }
        i = i + 1;
    }
    proof {
        if i < n {
            assert(a@.skip(i as int)[0] == x@[i as int]);
        }
        if i < m {
            assert(b@.skip(i as int)[0] == y@[i as int]);
        }
    }
    if i == n {
        i < m
    } else if i == m {
        false
    } else {
        x[i] < y[i]
    }
}


// ---------------------------------------------------------------------------
// Facts about trimming and splitting
// ---------------------------------------------------------------------------

proof fn lemma_trim_start_starts_clean(s: Seq<char>)
    ensures
        trim_start_spec(s).len() == 0 || !is_white_space(trim_start_spec(s)[0]),
    decreases s.len(),
{
    if s.len() > 0 && is_white_space(s[0]) {
        lemma_trim_start_starts_clean(s.drop_first());
    }
}

proof fn lemma_trim_end_is_prefix(s: Seq<char>)
    ensures
        trim_end_spec(s).len() <= s.len(),
        trim_end_spec(s) == s.take(trim_end_spec(s).len() as int),
        trim_end_spec(s).len() == 0 || !is_white_space(trim_end_spec(s).last()),
    decreases s.len(),
{
    if s.len() > 0 && is_white_space(s.last()) {
        lemma_trim_end_is_prefix(s.drop_last());
        let t = trim_end_spec(s.drop_last());
        assert(s.drop_last().take(t.len() as int) =~= s.take(t.len() as int));
    } else {
        assert(s.take(s.len() as int) =~= s);
    }
}

/// Trimming text that is already trimmed changes nothing.
pub proof fn lemma_trim_idempotent(s: Seq<char>)
    ensures
        trim_spec(trim_spec(s)) == trim_spec(s),
{
    let y = trim_start_spec(s);
    lemma_trim_start_starts_clean(s);
    lemma_trim_end_is_prefix(y);
    let z = trim_end_spec(y);
    if z.len() > 0 {
        assert(z[0] == y[0]);
    }
    assert(trim_start_spec(z) == z);
    if z.len() > 0 {
        assert(!is_white_space(z.last()));
    }
    assert(trim_end_spec(z) == z);
}

/// `split_spec` always gives at least one piece.
pub proof fn lemma_split_nonempty(s: Seq<char>, seps: Seq<char>)
    ensures
        split_spec(s, seps).len() >= 1,
    decreases s.len(),
{
    if s.len() > 0 {
        lemma_split_nonempty(s.drop_last(), seps);
    }
}

/// Splitting at a separator between two texts splits each of them.
pub proof fn lemma_split_concat(a: Seq<char>, sep: char, b: Seq<char>, seps: Seq<char>)
    requires
        seps.contains(sep),
    ensures
        split_spec(a + seq![sep] + b, seps) == split_spec(a, seps) + split_spec(b, seps),
    decreases b.len(),
{
    let t = a + seq![sep] + b;
    if b.len() == 0 {
        assert(t.drop_last() =~= a);
        assert(t.last() == sep);
        assert(split_spec(b, seps) =~= seq![Seq::<char>::empty()]);
        assert(split_spec(t, seps) =~= split_spec(a, seps) + split_spec(b, seps));
    } else {
        let b1 = b.drop_last();
        lemma_split_concat(a, sep, b1, seps);
        lemma_split_nonempty(b1, seps);
        lemma_split_nonempty(a, seps);
        assert(t.drop_last() =~= a + seq![sep] + b1);
        assert(t.last() == b.last());
        assert(split_spec(t, seps) =~= split_spec(a, seps) + split_spec(b, seps));
    }
}

/// Where each piece of `split_spec(s, seps)` starts in `s`.
pub open spec fn split_starts(s: Seq<char>, seps: Seq<char>) -> Seq<int>
    decreases s.len(),
{
    if s.len() == 0 {
        seq![0int]
    } else {
        let st = split_starts(s.drop_last(), seps);
        if seps.contains(s.last()) {
            st.push(s.len() as int)
        } else {
            st
        }
    }
}

/// The pieces of a split are the stretches of `s` between separators: each
/// stands in `s` at its start and holds no separator, they come in the order
/// of `s` with a separator between two of them, and the last one ends `s`.
pub proof fn lemma_split_pieces(s: Seq<char>, seps: Seq<char>)
    ensures
        split_starts(s, seps).len() == split_spec(s, seps).len(),
        split_spec(s, seps).len() >= 1,
        forall|k: int|
            0 <= k < split_spec(s, seps).len() ==> {
                let p = #[trigger] split_spec(s, seps)[k];
                let a = split_starts(s, seps)[k];
                &&& 0 <= a
                &&& a + p.len() <= s.len()
                &&& p == s.subrange(a, a + p.len())
                &&& forall|j: int| 0 <= j < p.len() ==> !seps.contains(#[trigger] p[j])
            },
        forall|k: int, l: int|
            #![trigger split_starts(s, seps)[k], split_starts(s, seps)[l]]
            0 <= k < l < split_spec(s, seps).len() ==> split_starts(s, seps)[k] + split_spec(
                s,
                seps,
            )[k].len() < split_starts(s, seps)[l],
        split_starts(s, seps).last() + split_spec(s, seps).last().len() == s.len(),
    decreases s.len(),
{
    let p = split_spec(s, seps);
    let st = split_starts(s, seps);
    if s.len() == 0 {
        assert(s.subrange(0, 0) =~= Seq::<char>::empty());
    } else {
        let s0 = s.drop_last();
        lemma_split_pieces(s0, seps);
        let p0 = split_spec(s0, seps);
        let st0 = split_starts(s0, seps);
        let n0 = p0.len();
        if seps.contains(s.last()) {
            assert(p == p0.push(Seq::<char>::empty()));
            assert(st == st0.push(s.len() as int));
            assert forall|k: int| 0 <= k < p.len() implies {
                let q = #[trigger] p[k];
                let a = st[k];
                &&& 0 <= a
                &&& a + q.len() <= s.len()
                &&& q == s.subrange(a, a + q.len())
                &&& forall|j: int| 0 <= j < q.len() ==> !seps.contains(#[trigger] q[j])
            } by {
                if k < n0 {
                    assert(p[k] == p0[k]);
                    assert(st[k] == st0[k]);
                    let a = st0[k];
                    let _ = split_spec(s0, seps)[k];
                    assert(s0.subrange(a, a + p0[k].len()) =~= s.subrange(a, a + p0[k].len()));
                } else {
                    assert(s.subrange(s.len() as int, s.len() as int) =~= Seq::<char>::empty());
                }
            }
            assert forall|k: int, l: int|
                #![trigger st[k], st[l]]
                0 <= k < l < p.len() implies st[k] + p[k].len() < st[l] by {
                assert(st[k] == st0[k]);
                assert(p[k] == p0[k]);
                let _ = split_spec(s0, seps)[k];
                if l < n0 {
                    assert(st[l] == st0[l]);
                    let _ = split_starts(s0, seps)[k];
                    let _ = split_starts(s0, seps)[l];
                }
            }
        } else {
            let c = s.last();
            assert(p == p0.update(n0 - 1, p0.last().push(c)));
            assert(st == st0);
            assert forall|k: int| 0 <= k < p.len() implies {
                let q = #[trigger] p[k];
                let a = st[k];
                &&& 0 <= a
                &&& a + q.len() <= s.len()
                &&& q == s.subrange(a, a + q.len())
                &&& forall|j: int| 0 <= j < q.len() ==> !seps.contains(#[trigger] q[j])
            } by {
                let a = st0[k];
                let _ = split_spec(s0, seps)[k];
                if k < n0 - 1 {
                    assert(p[k] == p0[k]);
                    assert(s0.subrange(a, a + p0[k].len()) =~= s.subrange(a, a + p0[k].len()));
                } else {
                    assert(p[k] == p0[k].push(c));
                    assert(s0.subrange(a, a + p0[k].len()) =~= s.subrange(a, a + p0[k].len()));
                    assert(s.subrange(a, a + p[k].len()) =~= s.subrange(a, a + p0[k].len()).push(c));
                    assert forall|j: int| 0 <= j < p[k].len() implies !seps.contains(
                        #[trigger] p[k][j],
                    ) by {
                        if j < p0[k].len() {
                            assert(p[k][j] == p0[k][j]);
                        }
                    }
                }
            }
            assert forall|k: int, l: int|
                #![trigger st[k], st[l]]
                0 <= k < l < p.len() implies st[k] + p[k].len() < st[l] by {
                assert(p[k] == p0[k]);
                let _ = split_spec(s0, seps)[k];
                let _ = split_starts(s0, seps)[k];
                let _ = split_starts(s0, seps)[l];
            }
        }
    }
}

/// Trimming the start of a text leaves one of its suffixes.
proof fn lemma_trim_start_is_suffix(s: Seq<char>)
    ensures
        trim_start_spec(s).len() <= s.len(),
        trim_start_spec(s) == s.skip(s.len() - trim_start_spec(s).len()),
    decreases s.len(),
{
    if s.len() > 0 && is_white_space(s[0]) {
        lemma_trim_start_is_suffix(s.drop_first());
        let t = trim_start_spec(s.drop_first());
        assert(s.drop_first().skip(s.len() - 1 - t.len()) =~= s.skip(s.len() - t.len()));
    } else {
        assert(s.skip(0) =~= s);
    }
}

/// A trimmed text is the stretch of the text that starts where the leading
/// white space ends.
pub proof fn lemma_trim_in_text(s: Seq<char>)
    ensures
        trim_start_spec(s).len() <= s.len(),
        s.len() - trim_start_spec(s).len() + trim_spec(s).len() <= s.len(),
        trim_spec(s) == s.subrange(
            s.len() - trim_start_spec(s).len(),
            s.len() - trim_start_spec(s).len() + trim_spec(s).len(),
        ),
{
    lemma_trim_start_is_suffix(s);
    let y = trim_start_spec(s);
    lemma_trim_end_is_prefix(y);
    let off = s.len() - y.len();
    assert(trim_spec(s) =~= s.subrange(off, off + trim_spec(s).len()));
}

} // verus!
