//! Character-level primitives shared by the scanner, the parser and the
//! transpiler: the whitespace predicate, delimiter search, trimming, and a
//! few executable helpers for building and comparing strings.

use vstd::prelude::*;
use vstd::string::StrSliceExecFns;
use vstd::string::StringExecFns;

verus! {

/// The Unicode `White_Space` code points, the set that `skip_white_space`
/// and end-trimming treat as blank.
pub open spec fn is_space(c: char) -> bool {
    let u = c as u32;
    ||| u == 0x20
    ||| (0x9 <= u && u <= 0xd)
    ||| u == 0x85
    ||| u == 0xa0
    ||| u == 0x1680
    ||| (0x2000 <= u && u <= 0x200a)
    ||| u == 0x2028
    ||| u == 0x2029
    ||| u == 0x202f
    ||| u == 0x205f
    ||| u == 0x3000
}

/// Executable form of [`is_space`].
pub fn is_space_char(c: char) -> (r: bool)
    ensures
        r == is_space(c),
{
    let u = c as u32;
    u == 0x20 || (0x9 <= u && u <= 0xd) || u == 0x85 || u == 0xa0 || u == 0x1680
        || (0x2000 <= u && u <= 0x200a) || u == 0x2028 || u == 0x2029 || u == 0x202f
        || u == 0x205f || u == 0x3000
}

/// The suffix of `s` that remains after removing every leading space.
pub open spec fn skip_spaces(s: Seq<char>) -> Seq<char>
    decreases s.len(),
{
    if s.len() > 0 && is_space(s[0]) {
        skip_spaces(s.drop_first())
    } else {
        s
    }
}

pub proof fn lemma_skip_spaces_len(s: Seq<char>)
    ensures
        skip_spaces(s).len() <= s.len(),
    decreases s.len(),
{
    if s.len() > 0 && is_space(s[0]) {
        lemma_skip_spaces_len(s.drop_first());
    }
}

pub proof fn lemma_skip_spaces_idem(s: Seq<char>)
    ensures
        skip_spaces(skip_spaces(s)) == skip_spaces(s),
    decreases s.len(),
{
    if s.len() > 0 && is_space(s[0]) {
        lemma_skip_spaces_idem(s.drop_first());
    }
}

/// `s` without its trailing spaces.
pub open spec fn trim_end_spec(s: Seq<char>) -> Seq<char>
    decreases s.len(),
{
    if s.len() > 0 && is_space(s.last()) {
        trim_end_spec(s.drop_last())
    } else {
        s
    }
}

pub proof fn lemma_trim_end_chars(s: Seq<char>, n: int)
    requires
        0 <= n <= s.len(),
        forall|j: int| n <= j < s.len() ==> is_space(s[j]),
        n > 0 ==> !is_space(s[n - 1]),
    ensures
        trim_end_spec(s) == s.subrange(0, n),
    decreases s.len(),
{
    if s.len() == n {
        assert(s.subrange(0, n) =~= s);
    } else {
        assert(is_space(s.last()));
        lemma_trim_end_chars(s.drop_last(), n);
        assert(s.drop_last().subrange(0, n) =~= s.subrange(0, n));
    }
}

/// The position of the first character of `s`, at or after `i`, that occurs
/// in `delims`.
pub open spec fn find_delim(s: Seq<char>, delims: Seq<char>, i: int) -> Option<int>
    decreases s.len() - i,
{
    if i < 0 || i >= s.len() {
        None
    } else if delims.contains(s[i]) {
        Some(i)
    } else {
        find_delim(s, delims, i + 1)
    }
}

pub proof fn lemma_find_delim_bounds(s: Seq<char>, delims: Seq<char>, i: int)
    requires
        0 <= i <= s.len(),
    ensures
        find_delim(s, delims, i) matches Some(j) ==> i <= j < s.len() && delims.contains(s[j]),
    decreases s.len() - i,
{
    if i < s.len() && !delims.contains(s[i]) {
        lemma_find_delim_bounds(s, delims, i + 1);
    }
}

/// The position of the first space character of `s` at or after `i`.
pub open spec fn find_space(s: Seq<char>, i: int) -> Option<int>
    decreases s.len() - i,
{
    if i < 0 || i >= s.len() {
        None
    } else if is_space(s[i]) {
        Some(i)
    } else {
        find_space(s, i + 1)
    }
}

pub proof fn lemma_find_space_bounds(s: Seq<char>, i: int)
    requires
        0 <= i <= s.len(),
    ensures
        find_space(s, i) matches Some(j) ==> i <= j < s.len() && is_space(s[j]),
    decreases s.len() - i,
{
    if i < s.len() && !is_space(s[i]) {
        lemma_find_space_bounds(s, i + 1);
    }
}

/// The elements of `parts` concatenated with `sep` between neighbours.
pub open spec fn join_with(parts: Seq<Seq<char>>, sep: Seq<char>) -> Seq<char>
    decreases parts.len(),
{
    if parts.len() == 0 {
        Seq::empty()
    } else if parts.len() == 1 {
        parts[0]
    } else {
        parts[0] + sep + join_with(parts.drop_first(), sep)
    }
}

pub proof fn lemma_join_push(parts: Seq<Seq<char>>, x: Seq<char>, sep: Seq<char>)
    ensures
        join_with(parts.push(x), sep) == if parts.len() == 0 {
            x
        } else {
            join_with(parts, sep) + sep + x
        },
    decreases parts.len(),
{
    if parts.len() == 0 {
        assert(parts.push(x)[0] == x);
    } else {
        lemma_join_push(parts.drop_first(), x, sep);
        assert(parts.push(x).drop_first() =~= parts.drop_first().push(x));
        if parts.len() == 1 {
            assert(parts.drop_first().len() == 0);
        }
    }
}

/// The views of a sequence of strings.
pub open spec fn seq_views(ss: Seq<String>) -> Seq<Seq<char>> {
    ss.map_values(|s: String| s@)
}

/// Relies on `String::push`: appends the given character to the end of the
/// string.
#[verifier::external_body]
pub fn push_char(s: &mut String, c: char)
    ensures
        final(s)@ == old(s)@ + seq![c],
{
    s.push(c);
}

/// The characters of `s` as a vector.
pub fn str_to_chars(s: &str) -> (v: Vec<char>)
    ensures
        v@ == s@,
{
    let n = s.unicode_len();
    let mut v: Vec<char> = Vec::new();
    let mut i: usize = 0;
    while i < n
        invariant
            i <= n,
            n == s@.len(),
            v@ == s@.subrange(0, i as int),
        decreases n - i,
    {
        let c = s.get_char(i);
        v.push(c);
        assert(v@ =~= s@.subrange(0, i as int + 1));
        i = i + 1;
    }
    assert(v@ =~= s@);
    v
}

/// `s` with its trailing spaces removed, as a fresh string.
pub fn trim_end_str(s: &str) -> (r: String)
    ensures
        r@ == trim_end_spec(s@),
{
    let n = s.unicode_len();
    let mut i: usize = n;
    while i > 0 && is_space_char(s.get_char(i - 1))
        invariant
            i <= n,
            n == s@.len(),
            forall|j: int| i <= j < n ==> is_space(s@[j]),
        decreases i,
    {
        i = i - 1;
    }
    let r = s.substring_char(0, i);
    proof {
        lemma_trim_end_chars(s@, i as int);
    }
    r.to_owned()
}

/// Whether the two string slices hold the same characters.
pub fn str_eq(a: &str, b: &str) -> (r: bool)
    ensures
        r == (a@ == b@),
{
    let an = a.unicode_len();
    let bn = b.unicode_len();
    if an != bn {
        return false;
    }
    let mut i: usize = 0;
    while i < an
        invariant
            i <= an,
            an == a@.len(),
            an == b@.len(),
            forall|j: int| 0 <= j < i ==> a@[j] == b@[j],
        decreases an - i,
    {
        if a.get_char(i) != b.get_char(i) {
            return false;
        }
        i = i + 1;
    }
    proof {
        assert(a@ =~= b@);
    }
    true
}

/// Whether `c` occurs in `delims`.
pub fn contains_char(delims: &[char], c: char) -> (r: bool)
    ensures
        r == delims@.contains(c),
{
    let n = delims.len();
    let mut i: usize = 0;
    while i < n
        invariant
            i <= n,
            n == delims@.len(),
            forall|j: int| 0 <= j < i ==> delims@[j] != c,
        decreases n - i,
    {
        if delims[i] == c {
            return true;
        }
        i = i + 1;
    }
    false
}

/// The elements of `parts` concatenated with `sep` between neighbours, as a
/// fresh string.
pub fn join_strings(parts: &Vec<String>, sep: &str) -> (r: String)
    ensures
        r@ == join_with(seq_views(parts@), sep@),
{
    let mut r = String::new();
    let mut i: usize = 0;
    while i < parts.len()
        invariant
            i <= parts@.len(),
            r@ == join_with(seq_views(parts@).subrange(0, i as int), sep@),
        decreases parts@.len() - i,
    {
        if i > 0 {
            r.append(sep);
        }
        r.append(parts[i].as_str());
        proof {
            let views = seq_views(parts@);
            assert(views.subrange(0, i as int).push(views[i as int]) =~= views.subrange(
                0,
                i as int + 1,
            ));
            lemma_join_push(views.subrange(0, i as int), views[i as int], sep@);
        }
        i = i + 1;
    }
    proof {
        assert(seq_views(parts@).subrange(0, parts@.len() as int) =~= seq_views(parts@));
    }
    r
}

} // verus!
