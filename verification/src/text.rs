//! Character-sequence helpers shared by the comparison, parsing and report
//! modules: whitespace trimming, substring search, entity decoding and the
//! few calls into `std` whose results are only named here.

use vstd::prelude::*;

verus! {

// ---------------------------------------------------------------------------
// Specifications
// ---------------------------------------------------------------------------

/// A character with the Unicode `White_Space` property.
pub open spec fn is_ws(c: char) -> bool {
    let u = c as u32;
    ||| (0x9 <= u && u <= 0xd)
    ||| u == 0x20
    ||| u == 0x85
    ||| u == 0xa0
    ||| u == 0x1680
    ||| (0x2000 <= u && u <= 0x200a)
    ||| u == 0x2028
    ||| u == 0x2029
    ||| u == 0x202f
    ||| u == 0x205f
    ||| u == 0x3000
}

/// An ASCII decimal digit.
pub open spec fn is_digit(c: char) -> bool {
    '0' <= c && c <= '9'
}

/// `s` without its leading whitespace.
pub open spec fn trim_start(s: Seq<char>) -> Seq<char>
    decreases s.len(),
{
    if s.len() > 0 && is_ws(s[0]) {
        trim_start(s.drop_first())
    } else {
        s
    }
}

/// `s` without its trailing whitespace.
pub open spec fn trim_end(s: Seq<char>) -> Seq<char>
    decreases s.len(),
{
    if s.len() > 0 && is_ws(s.last()) {
        trim_end(s.drop_last())
    } else {
        s
    }
}

/// `s` without leading and trailing whitespace.
pub open spec fn trim(s: Seq<char>) -> Seq<char> {
    trim_end(trim_start(s))
}

/// `p` occurs in `s` starting at position `i`.
pub open spec fn occurs_at(s: Seq<char>, p: Seq<char>, i: int) -> bool {
    &&& 0 <= i
    &&& i + p.len() <= s.len()
    &&& s.subrange(i, i + p.len()) == p
}

/// `p` is a contiguous part of `s`.
pub open spec fn seq_contains(s: Seq<char>, p: Seq<char>) -> bool {
    exists|i: int| occurs_at(s, p, i)
}

/// `s` begins with `p`.
pub open spec fn starts_with(s: Seq<char>, p: Seq<char>) -> bool {
    occurs_at(s, p, 0)
}

/// `c` occurs in `s`.
pub open spec fn has_char(s: Seq<char>, c: char) -> bool {
    exists|i: int| 0 <= i < s.len() && s[i] == c
}

/// First position at or after `from` that holds `c`.
pub open spec fn first_index_from(s: Seq<char>, c: char, from: int) -> Option<int>
    decreases s.len() - from,
{
    if from < 0 || from >= s.len() {
        None
    } else if s[from] == c {
        Some(from)
    } else {
        first_index_from(s, c, from + 1)
    }
}

/// Every non-overlapping occurrence of `pat` in `s`, scanned left to right,
/// replaced by `rep`.
pub open spec fn replace_all(s: Seq<char>, pat: Seq<char>, rep: Seq<char>) -> Seq<char>
    decreases s.len(),
{
    if pat.len() == 0 || s.len() < pat.len() {
        s
    } else if s.subrange(0, pat.len() as int) == pat {
        rep + replace_all(s.subrange(pat.len() as int, s.len() as int), pat, rep)
    } else {
        seq![s[0]] + replace_all(s.drop_first(), pat, rep)
    }
}

pub open spec fn amp_entity() -> Seq<char> {
    seq!['&', 'a', 'm', 'p', ';']
}

pub open spec fn lt_entity() -> Seq<char> {
    seq!['&', 'l', 't', ';']
}

pub open spec fn gt_entity() -> Seq<char> {
    seq!['&', 'g', 't', ';']
}

pub open spec fn quot_entity() -> Seq<char> {
    seq!['&', 'q', 'u', 'o', 't', ';']
}

pub open spec fn apos_entity() -> Seq<char> {
    seq!['&', 'a', 'p', 'o', 's', ';']
}

/// The five XML entities replaced in turn: `&amp;` first, then `&lt;`,
/// `&gt;`, `&quot;` and `&apos;`.
pub open spec fn decoded(s: Seq<char>) -> Seq<char> {
    let a = replace_all(s, amp_entity(), seq!['&']);
    let b = replace_all(a, lt_entity(), seq!['<']);
    let c = replace_all(b, gt_entity(), seq!['>']);
    let d = replace_all(c, quot_entity(), seq!['"']);
    replace_all(d, apos_entity(), seq!['\''])
}

/// Length in bytes of the UTF-8 encoding of `s`.
pub open spec fn utf8_len(s: Seq<char>) -> nat {
    vstd::utf8::encode_utf8(s).len()
}

/// Lowercase form of `s` under Unicode case mapping, as `str::to_lowercase`
/// computes it.
pub uninterp spec fn unicode_lowercase(s: Seq<char>) -> Seq<char>;

/// Uppercase form of `s` under Unicode case mapping, as `str::to_uppercase`
/// computes it.
pub uninterp spec fn unicode_uppercase(s: Seq<char>) -> Seq<char>;

/// Unicode `Alphabetic` property of a character, as `char::is_alphabetic`
/// reports it.
pub uninterp spec fn unicode_alphabetic(c: char) -> bool;

// ---------------------------------------------------------------------------
// Calls into std
// ---------------------------------------------------------------------------

/// `String::push`: appends one character to the string.
#[verifier::external_body]
pub(crate) fn push_char(s: &mut String, c: char)
    ensures
        final(s)@ == old(s)@.push(c),
{
    s.push(c);
}

/// `str::to_lowercase`: the result is the Unicode lowercase mapping of the
/// argument, named `unicode_lowercase`; nothing more is claimed of it.
#[verifier::external_body]
pub(crate) fn to_lowercase(s: &str) -> (r: String)
    ensures
        r@ == unicode_lowercase(s@),
{
    s.to_lowercase()
}

/// `str::to_uppercase`: the result is the Unicode uppercase mapping of the
/// argument, named `unicode_uppercase`; nothing more is claimed of it.
#[verifier::external_body]
pub(crate) fn to_uppercase(s: &str) -> (r: String)
    ensures
        r@ == unicode_uppercase(s@),
{
    s.to_uppercase()
}

/// `char::is_alphabetic`: the result is the Unicode `Alphabetic` property,
/// named `unicode_alphabetic`; nothing more is claimed of it.
#[verifier::external_body]
pub(crate) fn is_alphabetic(c: char) -> (r: bool)
    ensures
        r == unicode_alphabetic(c),
{
    c.is_alphabetic()
}

// ---------------------------------------------------------------------------
// Lemmas
// ---------------------------------------------------------------------------

pub proof fn lemma_trim_start(s: Seq<char>, i: int)
    requires
        0 <= i <= s.len(),
        forall|k: int| 0 <= k < i ==> is_ws(#[trigger] s[k]),
        i == s.len() || !is_ws(s[i]),
    ensures
        trim_start(s) == s.subrange(i, s.len() as int),
    decreases i,
{
    if i == 0 {
        assert(s.subrange(0, s.len() as int) =~= s);
    } else {
        let t = s.drop_first();
        assert forall|k: int| 0 <= k < i - 1 implies is_ws(#[trigger] t[k]) by {
            assert(t[k] == s[k + 1]);
        }
        lemma_trim_start(t, i - 1);
        assert(t.subrange(i - 1, t.len() as int) =~= s.subrange(i, s.len() as int));
    }
}

pub proof fn lemma_trim_end(s: Seq<char>, j: int)
    requires
        0 <= j <= s.len(),
        forall|k: int| j <= k < s.len() ==> is_ws(#[trigger] s[k]),
        j == 0 || !is_ws(s[j - 1]),
    ensures
        trim_end(s) == s.subrange(0, j),
    decreases s.len() - j,
{
    if j == s.len() {
        assert(s.subrange(0, j) =~= s);
    } else {
        let t = s.drop_last();
        assert(is_ws(s.last()));
        assert forall|k: int| j <= k < t.len() implies is_ws(#[trigger] t[k]) by {
            assert(t[k] == s[k]);
        }
        lemma_trim_end(t, j);
        assert(t.subrange(0, j) =~= s.subrange(0, j));
    }
}

/// Trimming never lengthens a sequence and keeps a contiguous part of it.
pub proof fn lemma_trim_start_is_suffix(s: Seq<char>)
    ensures
        trim_start(s).len() <= s.len(),
        trim_start(s) == s.subrange(s.len() - trim_start(s).len(), s.len() as int),
    decreases s.len(),
{
    if s.len() > 0 && is_ws(s[0]) {
        lemma_trim_start_is_suffix(s.drop_first());
        let t = trim_start(s.drop_first());
        assert(s.drop_first().subrange(s.len() - 1 - t.len(), s.len() - 1) =~= s.subrange(
            s.len() - t.len(),
            s.len() as int,
        ));
    } else {
        assert(s.subrange(0, s.len() as int) =~= s);
    }
}

pub proof fn lemma_trim_end_is_prefix(s: Seq<char>)
    ensures
        trim_end(s).len() <= s.len(),
        trim_end(s) == s.subrange(0, trim_end(s).len() as int),
    decreases s.len(),
{
    if s.len() > 0 && is_ws(s.last()) {
        lemma_trim_end_is_prefix(s.drop_last());
        let t = trim_end(s.drop_last());
        assert(s.drop_last().subrange(0, t.len() as int) =~= s.subrange(0, t.len() as int));
    } else {
        assert(s.subrange(0, s.len() as int) =~= s);
    }
}

proof fn lemma_first_index_from(s: Seq<char>, c: char, from: int, i: int)
    requires
        0 <= from <= i <= s.len(),
        forall|k: int| from <= k < i ==> s[k] != c,
        i == s.len() || s[i] == c,
    ensures
        first_index_from(s, c, from) == (if i == s.len() { None } else { Some(i) }),
    decreases i - from,
{
    if from < i {
        lemma_first_index_from(s, c, from + 1, i);
    }
}

pub proof fn lemma_first_index_from_props(s: Seq<char>, c: char, from: int)
    requires
        0 <= from,
    ensures
        first_index_from(s, c, from) matches Some(i) ==> from <= i < s.len() && s[i] == c
            && forall|k: int| from <= k < i ==> s[k] != c,
        first_index_from(s, c, from) is None ==> forall|k: int| from <= k < s.len() ==> s[k] != c,
    decreases s.len() - from,
{
    if from < s.len() && s[from] != c {
        lemma_first_index_from_props(s, c, from + 1);
    }
}

// ---------------------------------------------------------------------------
// Executable helpers
// ---------------------------------------------------------------------------

/// The characters of `s`, in order.
pub fn chars_of(s: &str) -> (r: Vec<char>)
    ensures
        r@ == s@,
{
    let mut v: Vec<char> = Vec::new();
    for c in it: s.chars()
        invariant
            v@ == it.seq().take(it.index() as int),
    {
        v.push(c);
    }
    v
}

/// A `String` holding exactly the characters of `v`.
pub fn string_of(v: &Vec<char>) -> (r: String)
    ensures
        r@ == v@,
{
    let mut s = String::new();
    let mut i: usize = 0;
    while i < v.len()
        invariant
            i <= v.len(),
            s@ == v@.take(i as int),
        decreases v.len() - i,
    {
        push_char(&mut s, v[i]);
        i = i + 1;
        assert(s@ =~= v@.take(i as int));
    }
    assert(v@.take(v.len() as int) =~= v@);
    s
}

/// Appends the characters of `src` to `dst`.
pub fn append_chars(dst: &mut Vec<char>, src: &Vec<char>)
    ensures
        final(dst)@ == old(dst)@ + src@,
{
    let ghost start = dst@;
    let mut i: usize = 0;
    while i < src.len()
        invariant
            i <= src.len(),
            dst@ == start + src@.take(i as int),
        decreases src.len() - i,
    {
        dst.push(src[i]);
        i = i + 1;
        assert(dst@ =~= start + src@.take(i as int));
    }
    assert(src@.take(src.len() as int) =~= src@);
}

/// Appends the characters of `src` to `dst`.
pub fn append_str(dst: &mut Vec<char>, src: &str)
    ensures
        final(dst)@ == old(dst)@ + src@,
{
    let v = chars_of(src);
    append_chars(dst, &v);
}

/// `v[lo..hi]` as a new vector.
pub fn subvec(v: &Vec<char>, lo: usize, hi: usize) -> (r: Vec<char>)
    requires
        lo <= hi <= v.len(),
    ensures
        r@ == v@.subrange(lo as int, hi as int),
{
    let mut r: Vec<char> = Vec::new();
    let mut i = lo;
    while i < hi
        invariant
            lo <= i <= hi,
            hi <= v.len(),
            r@ == v@.subrange(lo as int, i as int),
        decreases hi - i,
    {
        r.push(v[i]);
        i = i + 1;
        assert(r@ =~= v@.subrange(lo as int, i as int));
    }
    r
}

/// Whether `c` has the Unicode `White_Space` property.
pub fn is_whitespace(c: char) -> (r: bool)
    ensures
        r == is_ws(c),
{
    let u = c as u32;
    (0x9 <= u && u <= 0xd) || u == 0x20 || u == 0x85 || u == 0xa0 || u == 0x1680 || (0x2000 <= u
        && u <= 0x200a) || u == 0x2028 || u == 0x2029 || u == 0x202f || u == 0x205f || u == 0x3000
}

/// Whether `c` is an ASCII decimal digit.
pub fn is_ascii_digit(c: char) -> (r: bool)
    ensures
        r == is_digit(c),
{
    '0' <= c && c <= '9'
}

/// `v` without leading whitespace.
pub fn trim_start_chars(v: &Vec<char>) -> (r: Vec<char>)
    ensures
        r@ == trim_start(v@),
{
    let mut i: usize = 0;
    while i < v.len() && is_whitespace(v[i])
        invariant
            i <= v.len(),
            forall|k: int| 0 <= k < i ==> is_ws(#[trigger] v@[k]),
        decreases v.len() - i,
    {
        i = i + 1;
    }
    proof {
        lemma_trim_start(v@, i as int);
    }
    subvec(v, i, v.len())
}

/// `v` without trailing whitespace.
pub fn trim_end_chars(v: &Vec<char>) -> (r: Vec<char>)
    ensures
        r@ == trim_end(v@),
{
    let mut j: usize = v.len();
    while j > 0 && is_whitespace(v[j - 1])
        invariant
            j <= v.len(),
            forall|k: int| j <= k < v.len() ==> is_ws(#[trigger] v@[k]),
        decreases j,
    {
        j = j - 1;
    }
    proof {
        lemma_trim_end(v@, j as int);
    }
    subvec(v, 0, j)
}

/// `v` without leading and trailing whitespace.
pub fn trim_chars(v: &Vec<char>) -> (r: Vec<char>)
    ensures
        r@ == trim(v@),
{
    let a = trim_start_chars(v);
    trim_end_chars(&a)
}

/// Whether `p` occurs in `s` at position `i`.
pub fn matches_at(s: &Vec<char>, p: &Vec<char>, i: usize) -> (r: bool)
    ensures
        r == occurs_at(s@, p@, i as int),
{
    if i > s.len() || p.len() > s.len() - i {
        return false;
    }
    let mut k: usize = 0;
    while k < p.len()
        invariant
            k <= p.len(),
            i + p.len() <= s.len(),
            forall|m: int| 0 <= m < k ==> s@[i + m] == p@[m],
        decreases p.len() - k,
    {
        if s[i + k] != p[k] {
            assert(s@.subrange(i as int, i + p.len())[k as int] != p@[k as int]);
            return false;
        }
        k = k + 1;
    }
    assert(s@.subrange(i as int, i + p.len()) =~= p@);
    true
}

/// Whether `s` begins with `p`.
pub fn has_prefix(s: &Vec<char>, p: &Vec<char>) -> (r: bool)
    ensures
        r == starts_with(s@, p@),
{
    matches_at(s, p, 0)
}

/// Whether `p` occurs anywhere in `s`.
pub fn contains(s: &Vec<char>, p: &Vec<char>) -> (r: bool)
    ensures
        r == seq_contains(s@, p@),
{
    if p.len() > s.len() {
        assert forall|i: int| !occurs_at(s@, p@, i) by {}
        return false;
    }
    if p.len() == 0 {
        assert(s@.subrange(0, 0) =~= p@);
        assert(occurs_at(s@, p@, 0));
        return true;
    }
    let last = s.len() - p.len();
    let mut i: usize = 0;
    while i <= last
        invariant
            last == s.len() - p.len(),
            1 <= p.len() <= s.len(),
            forall|k: int| 0 <= k < i ==> !occurs_at(s@, p@, k),
        decreases last + 1 - i,
    {
        if matches_at(s, p, i) {
            return true;
        }
        i = i + 1;
    }
    assert forall|k: int| !occurs_at(s@, p@, k) by {
        if 0 <= k < i {
        }
    }
    false
}

/// Whether `c` occurs in `v`.
pub fn contains_char(v: &Vec<char>, c: char) -> (r: bool)
    ensures
        r == has_char(v@, c),
{
    let mut i: usize = 0;
    while i < v.len()
        invariant
            i <= v.len(),
            forall|k: int| 0 <= k < i ==> v@[k] != c,
        decreases v.len() - i,
    {
        if v[i] == c {
            return true;
        }
        i = i + 1;
    }
    false
}

/// First position at or after `from` holding `c`.
pub fn find_char_from(v: &Vec<char>, c: char, from: usize) -> (r: Option<usize>)
    ensures
        r matches Some(i) ==> first_index_from(v@, c, from as int) == Some(i as int),
        r is None ==> first_index_from(v@, c, from as int) is None,
{
    if from >= v.len() {
        return None;
    }
    let mut i = from;
    while i < v.len()
        invariant
            from <= i <= v.len(),
            forall|k: int| from <= k < i ==> v@[k] != c,
        decreases v.len() - i,
    {
        if v[i] == c {
            proof {
                lemma_first_index_from(v@, c, from as int, i as int);
            }
            return Some(i);
        }
        i = i + 1;
    }
    proof {
        lemma_first_index_from(v@, c, from as int, i as int);
    }
    None
}

/// Equality of two character vectors.
pub fn chars_eq(a: &Vec<char>, b: &Vec<char>) -> (r: bool)
    ensures
        r == (a@ == b@),
{
    if a.len() != b.len() {
        return false;
    }
    let mut i: usize = 0;
    while i < a.len()
        invariant
            i <= a.len(),
            a.len() == b.len(),
            forall|k: int| 0 <= k < i ==> a@[k] == b@[k],
        decreases a.len() - i,
    {
        if a[i] != b[i] {
            return false;
        }
        i = i + 1;
    }
    assert(a@ =~= b@);
    true
}

/// Equality of two strings, character by character.
pub fn str_eq(a: &str, b: &str) -> (r: bool)
    ensures
        r == (a@ == b@),
{
    let x = chars_of(a);
    let y = chars_of(b);
    chars_eq(&x, &y)
}

/// Every non-overlapping occurrence of `pat` replaced by `rep`.
pub fn replace_chars(s: &Vec<char>, pat: &Vec<char>, rep: &Vec<char>) -> (r: Vec<char>)
    requires
        pat.len() > 0,
    ensures
        r@ == replace_all(s@, pat@, rep@),
{
    let mut out: Vec<char> = Vec::new();
    let mut i: usize = 0;
    assert(s@.subrange(0, s.len() as int) =~= s@);
    assert(out@ + s@ =~= s@);
    while i < s.len()
        invariant
            i <= s.len(),
            pat.len() > 0,
            out@ + replace_all(s@.subrange(i as int, s.len() as int), pat@, rep@) == replace_all(
                s@,
                pat@,
                rep@,
            ),
        decreases s.len() - i,
    {
        let ghost rest = s@.subrange(i as int, s.len() as int);
        if matches_at(s, pat, i) {
            proof {
                assert(rest.subrange(0, pat.len() as int) =~= s@.subrange(
                    i as int,
                    i + pat.len(),
                ));
                assert(rest.subrange(pat.len() as int, rest.len() as int) =~= s@.subrange(
                    i + pat.len(),
                    s.len() as int,
                ));
            }
            let ghost old_out = out@;
            append_chars(&mut out, rep);
            i = i + pat.len();
            proof {
                assert(out@ + replace_all(s@.subrange(i as int, s.len() as int), pat@, rep@)
                    =~= old_out + (rep@ + replace_all(
                    s@.subrange(i as int, s.len() as int),
                    pat@,
                    rep@,
                )));
            }
        } else {
            proof {
                if rest.len() >= pat.len() {
                    assert(rest.subrange(0, pat.len() as int) != pat@) by {
                        assert(rest.subrange(0, pat.len() as int) =~= s@.subrange(
                            i as int,
                            i + pat.len(),
                        ));
                    }
                }
                assert(rest.drop_first() =~= s@.subrange(i + 1, s.len() as int));
            }
            let c = s[i];
            out.push(c);
            i = i + 1;
        }
    }
    assert(s@.subrange(s.len() as int, s.len() as int) =~= Seq::<char>::empty());
    assert(out@ + Seq::<char>::empty() =~= out@);
    out
}


/// Replaces the XML entities `&amp;`, `&lt;`, `&gt;`, `&quot;` and `&apos;`
/// (in that order) by the characters they stand for.
pub fn decode_chars(v: &Vec<char>) -> (r: Vec<char>)
    ensures
        r@ == decoded(v@),
{
    let amp = vec!['&', 'a', 'm', 'p', ';'];
    let lt = vec!['&', 'l', 't', ';'];
    let gt = vec!['&', 'g', 't', ';'];
    let quot = vec!['&', 'q', 'u', 'o', 't', ';'];
    let apos = vec!['&', 'a', 'p', 'o', 's', ';'];
    assert(amp@ =~= amp_entity());
    assert(lt@ =~= lt_entity());
    assert(gt@ =~= gt_entity());
    assert(quot@ =~= quot_entity());
    assert(apos@ =~= apos_entity());
    let r1 = vec!['&'];
    let r2 = vec!['<'];
    let r3 = vec!['>'];
    let r4 = vec!['"'];
    let r5 = vec!['\''];
    assert(r1@ =~= seq!['&']);
    assert(r2@ =~= seq!['<']);
    assert(r3@ =~= seq!['>']);
    assert(r4@ =~= seq!['"']);
    assert(r5@ =~= seq!['\'']);
    let a = replace_chars(v, &amp, &r1);
    let b = replace_chars(&a, &lt, &r2);
    let c = replace_chars(&b, &gt, &r3);
    let d = replace_chars(&c, &quot, &r4);
    replace_chars(&d, &apos, &r5)
}

/// First position at or after `from` where `p` occurs in `s`.
pub open spec fn find_from(s: Seq<char>, p: Seq<char>, from: int) -> Option<int>
    decreases s.len() - from,
{
    if from < 0 || from + p.len() > s.len() {
        None
    } else if occurs_at(s, p, from) {
        Some(from)
    } else if from >= s.len() {
        None
    } else {
        find_from(s, p, from + 1)
    }
}

pub proof fn lemma_find_from_props(s: Seq<char>, p: Seq<char>, from: int)
    requires
        0 <= from,
    ensures
        find_from(s, p, from) matches Some(i) ==> from <= i && i + p.len() <= s.len() && occurs_at(s, p, i)
            && forall|k: int| from <= k < i ==> !occurs_at(s, p, k),
        find_from(s, p, from) is None ==> forall|k: int| from <= k ==> !occurs_at(s, p, k),
    decreases s.len() - from,
{
    if from + p.len() <= s.len() && !occurs_at(s, p, from) && from < s.len() {
        lemma_find_from_props(s, p, from + 1);
    }
}

/// First position at or after `from` where `p` occurs in `s`.
pub fn find_seq_from(s: &Vec<char>, p: &Vec<char>, from: usize) -> (r: Option<usize>)
    ensures
        r matches Some(i) ==> find_from(s@, p@, from as int) == Some(i as int),
        r is None ==> find_from(s@, p@, from as int) is None,
{
    if from > s.len() || p.len() > s.len() - from {
        return None;
    }
    if p.len() == 0 {
        assert(s@.subrange(from as int, from as int) =~= p@);
        return Some(from);
    }
    let last = s.len() - p.len();
    let mut i = from;
    while i <= last
        invariant
            from <= i,
            last == s.len() - p.len(),
            1 <= p.len() <= s.len(),
            from <= last + 1,
            find_from(s@, p@, from as int) == find_from(s@, p@, i as int),
        decreases last + 1 - i,
    {
        if matches_at(s, p, i) {
            return Some(i);
        }
        i = i + 1;
    }
    None
}

proof fn lemma_replace_absent(s: Seq<char>, pat: Seq<char>, rep: Seq<char>)
    requires
        pat.len() > 0,
        !has_char(s, pat[0]),
    ensures
        replace_all(s, pat, rep) == s,
    decreases s.len(),
{
    if s.len() >= pat.len() {
        assert(s.subrange(0, pat.len() as int)[0] == s[0]);
        assert(s.subrange(0, pat.len() as int) != pat);
        assert(!has_char(s.drop_first(), pat[0])) by {
            if has_char(s.drop_first(), pat[0]) {
                let i = choose|i: int| 0 <= i < s.drop_first().len() && s.drop_first()[i] == pat[0];
                assert(s[i + 1] == pat[0]);
            }
        }
        lemma_replace_absent(s.drop_first(), pat, rep);
        assert(seq![s[0]] + s.drop_first() =~= s);
    }
}

proof fn lemma_replace_shorter(s: Seq<char>, pat: Seq<char>, rep: Seq<char>)
    requires
        rep.len() <= pat.len(),
    ensures
        replace_all(s, pat, rep).len() <= s.len(),
    decreases s.len(),
{
    if pat.len() > 0 && s.len() >= pat.len() {
        if s.subrange(0, pat.len() as int) == pat {
            lemma_replace_shorter(s.subrange(pat.len() as int, s.len() as int), pat, rep);
        } else {
            lemma_replace_shorter(s.drop_first(), pat, rep);
        }
    }
}

proof fn lemma_utf8_concat(a: Seq<char>, b: Seq<char>)
    ensures
        vstd::utf8::encode_utf8(a + b) == vstd::utf8::encode_utf8(a) + vstd::utf8::encode_utf8(b),
    decreases a.len(),
{
    if a.len() == 0 {
        assert(a + b =~= b);
        assert(vstd::utf8::encode_utf8(a) =~= Seq::<u8>::empty());
        assert(Seq::<u8>::empty() + vstd::utf8::encode_utf8(b) =~= vstd::utf8::encode_utf8(b));
    } else {
        assert((a + b).drop_first() =~= a.drop_first() + b);
        assert((a + b)[0] == a[0]);
        lemma_utf8_concat(a.drop_first(), b);
        let x = vstd::utf8::encode_scalar(a[0] as u32);
        assert(x + (vstd::utf8::encode_utf8(a.drop_first()) + vstd::utf8::encode_utf8(b)) =~= (x
            + vstd::utf8::encode_utf8(a.drop_first())) + vstd::utf8::encode_utf8(b));
    }
}

proof fn lemma_utf8_at_least(s: Seq<char>)
    ensures
        utf8_len(s) >= s.len(),
    decreases s.len(),
{
    if s.len() > 0 {
        lemma_utf8_at_least(s.drop_first());
    }
}

proof fn lemma_utf8_ascii_char(c: char)
    requires
        (c as u32) < 0x80,
    ensures
        utf8_len(seq![c]) == 1,
{
    let e = Seq::<char>::empty();
    assert(seq![c].drop_first() =~= e);
    assert(vstd::utf8::encode_utf8(e).len() == 0);
    assert(seq![c][0] == c);
    assert(vstd::utf8::encode_scalar(c as u32).len() == 1);
    assert(vstd::utf8::encode_utf8(seq![c]) == vstd::utf8::encode_scalar(c as u32) + vstd::utf8::encode_utf8(e));
}

proof fn lemma_replace_bytes(s: Seq<char>, pat: Seq<char>, rep: Seq<char>)
    requires
        utf8_len(rep) <= utf8_len(pat),
    ensures
        utf8_len(replace_all(s, pat, rep)) <= utf8_len(s),
    decreases s.len(),
{
    if pat.len() > 0 && s.len() >= pat.len() {
        if s.subrange(0, pat.len() as int) == pat {
            let rest = s.subrange(pat.len() as int, s.len() as int);
            lemma_replace_bytes(rest, pat, rep);
            lemma_utf8_concat(rep, replace_all(rest, pat, rep));
            assert(s =~= pat + rest);
            lemma_utf8_concat(pat, rest);
        } else {
            lemma_replace_bytes(s.drop_first(), pat, rep);
            lemma_utf8_concat(seq![s[0]], replace_all(s.drop_first(), pat, rep));
            assert(s =~= seq![s[0]] + s.drop_first());
            lemma_utf8_concat(seq![s[0]], s.drop_first());
        }
    }
}

/// Entity decoding leaves text without `&` as it is, and never makes text
/// longer, in characters or in UTF-8 bytes.
pub proof fn law_decoding(s: Seq<char>)
    ensures
        !has_char(s, '&') ==> decoded(s) == s,
        decoded(s).len() <= s.len(),
        utf8_len(decoded(s)) <= utf8_len(s),
{
    let a = replace_all(s, amp_entity(), seq!['&']);
    let b = replace_all(a, lt_entity(), seq!['<']);
    let c = replace_all(b, gt_entity(), seq!['>']);
    let d = replace_all(c, quot_entity(), seq!['"']);
    if !has_char(s, '&') {
        lemma_replace_absent(s, amp_entity(), seq!['&']);
        lemma_replace_absent(a, lt_entity(), seq!['<']);
        lemma_replace_absent(b, gt_entity(), seq!['>']);
        lemma_replace_absent(c, quot_entity(), seq!['"']);
        lemma_replace_absent(d, apos_entity(), seq!['\'']);
    }
    lemma_replace_shorter(s, amp_entity(), seq!['&']);
    lemma_replace_shorter(a, lt_entity(), seq!['<']);
    lemma_replace_shorter(b, gt_entity(), seq!['>']);
    lemma_replace_shorter(c, quot_entity(), seq!['"']);
    lemma_replace_shorter(d, apos_entity(), seq!['\'']);
    lemma_utf8_at_least(amp_entity());
    lemma_utf8_at_least(lt_entity());
    lemma_utf8_at_least(gt_entity());
    lemma_utf8_at_least(quot_entity());
    lemma_utf8_at_least(apos_entity());
    lemma_utf8_ascii_char('&');
    lemma_utf8_ascii_char('<');
    lemma_utf8_ascii_char('>');
    lemma_utf8_ascii_char('"');
    lemma_utf8_ascii_char('\'');
    lemma_replace_bytes(s, amp_entity(), seq!['&']);
    lemma_replace_bytes(a, lt_entity(), seq!['<']);
    lemma_replace_bytes(b, gt_entity(), seq!['>']);
    lemma_replace_bytes(c, quot_entity(), seq!['"']);
    lemma_replace_bytes(d, apos_entity(), seq!['\'']);
}

proof fn lemma_no_char_drop_first(s: Seq<char>, c: char)
    requires
        s.len() > 0,
        !has_char(s, c),
    ensures
        !has_char(s.drop_first(), c),
        s[0] != c,
{
    if has_char(s.drop_first(), c) {
        let i = choose|i: int| 0 <= i < s.drop_first().len() && s.drop_first()[i] == c;
        assert(s[i + 1] == c);
    }
}

/// Scanning past a stretch that cannot start the pattern.
proof fn lemma_replace_skip(a: Seq<char>, b: Seq<char>, pat: Seq<char>, rep: Seq<char>)
    requires
        pat.len() > 0,
        !has_char(a, pat[0]),
    ensures
        replace_all(a + b, pat, rep) == a + replace_all(b, pat, rep),
    decreases a.len(),
{
    if a.len() == 0 {
        assert(a + b =~= b);
        assert(a + replace_all(b, pat, rep) =~= replace_all(b, pat, rep));
    } else {
        let s = a + b;
        lemma_no_char_drop_first(a, pat[0]);
        assert(s[0] == a[0]);
        if s.len() >= pat.len() {
            assert(s.subrange(0, pat.len() as int)[0] == s[0]);
            assert(s.subrange(0, pat.len() as int) != pat);
            assert(s.drop_first() =~= a.drop_first() + b);
            lemma_replace_skip(a.drop_first(), b, pat, rep);
            assert(seq![s[0]] + (a.drop_first() + replace_all(b, pat, rep)) =~= a + replace_all(b, pat, rep));
        } else {
            assert(b.len() < pat.len());
            assert(replace_all(b, pat, rep) == b);
        }
    }
}

/// An occurrence of the pattern is replaced.
proof fn lemma_replace_hit(t: Seq<char>, u: Seq<char>, pat: Seq<char>, rep: Seq<char>)
    requires
        pat.len() > 0,
        !has_char(t, pat[0]),
        !has_char(u, pat[0]),
    ensures
        replace_all(t + pat + u, pat, rep) == t + rep + u,
{
    assert(t + pat + u =~= t + (pat + u));
    lemma_replace_skip(t, pat + u, pat, rep);
    let s = pat + u;
    assert(s.subrange(0, pat.len() as int) =~= pat);
    assert(s.subrange(pat.len() as int, s.len() as int) =~= u);
    lemma_replace_absent(u, pat, rep);
    assert(t + (rep + u) =~= t + rep + u);
}

/// An `&` that does not start the pattern is kept.
proof fn lemma_replace_miss(t: Seq<char>, v: Seq<char>, pat: Seq<char>, rep: Seq<char>)
    requires
        pat.len() > 0,
        pat[0] == '&',
        !has_char(t, '&'),
        !has_char(v, '&'),
        (seq!['&'] + v).len() < pat.len() || (seq!['&'] + v).subrange(0, pat.len() as int) != pat,
    ensures
        replace_all(t + seq!['&'] + v, pat, rep) == t + seq!['&'] + v,
{
    assert(t + seq!['&'] + v =~= t + (seq!['&'] + v));
    lemma_replace_skip(t, seq!['&'] + v, pat, rep);
    let s = seq!['&'] + v;
    if s.len() >= pat.len() {
        assert(s.drop_first() =~= v);
        lemma_replace_absent(v, pat, rep);
        assert(seq![s[0]] + v =~= s);
    }
}

proof fn lemma_semicolon_miss(u: Seq<char>, pat: Seq<char>)
    requires
        pat.len() >= 2,
        pat[pat.len() - 1] == ';',
        !has_char(u, ';'),
    ensures
        (seq!['&'] + u).len() < pat.len() || (seq!['&'] + u).subrange(0, pat.len() as int) != pat,
{
    let s = seq!['&'] + u;
    if s.len() >= pat.len() {
        assert(s[pat.len() - 1] == u[pat.len() - 2]);
        assert(s.subrange(0, pat.len() as int)[pat.len() - 1] == s[pat.len() - 1]);
    }
}

proof fn lemma_no_amp_concat(t: Seq<char>, c: char, u: Seq<char>)
    requires
        !has_char(t, '&'),
        !has_char(u, '&'),
        c != '&',
    ensures
        !has_char(t + seq![c] + u, '&'),
{
    let s = t + seq![c] + u;
    if has_char(s, '&') {
        let i = choose|i: int| 0 <= i < s.len() && s[i] == '&';
        if i < t.len() {
            assert(s[i] == t[i]);
        } else if i == t.len() {
        } else {
            assert(s[i] == u[i - t.len() - 1]);
        }
    }
}

proof fn lemma_entity_decoded(t: Seq<char>, u: Seq<char>, which: int)
    requires
        0 <= which < 5,
        !has_char(t, '&'),
        !has_char(u, '&'),
        !has_char(u, ';'),
    ensures
        ({
            let ents = seq![amp_entity(), lt_entity(), gt_entity(), quot_entity(), apos_entity()];
            let chs = seq!['&', '<', '>', '"', '\''];
            decoded(t + ents[which] + u) == t + seq![chs[which]] + u
        }),
{
    let ents = seq![amp_entity(), lt_entity(), gt_entity(), quot_entity(), apos_entity()];
    let chs = seq!['&', '<', '>', '"', '\''];
    let e = ents[which];
    let r = seq![chs[which]];
    let pats = ents;
    let reps = seq![seq!['&'], seq!['<'], seq!['>'], seq!['"'], seq!['\'']];
    assert(decoded(t + e + u) == replace_all(
        replace_all(
            replace_all(replace_all(replace_all(t + e + u, pats[0], reps[0]), pats[1], reps[1]), pats[2], reps[2]),
            pats[3],
            reps[3],
        ),
        pats[4],
        reps[4],
    ));
    let v = e.drop_first() + u;
    assert(t + e + u =~= t + seq!['&'] + v);
    assert(!has_char(u, e[0]));
    assert(!has_char(e.drop_first(), '&'));
    assert(!has_char(v, '&')) by {
        if has_char(v, '&') {
            let i = choose|i: int| 0 <= i < v.len() && v[i] == '&';
            if i < e.drop_first().len() {
                assert(v[i] == e.drop_first()[i]);
            } else {
                assert(v[i] == u[i - e.drop_first().len()]);
            }
        }
    }
    // passes before the entity's own pass keep the text
    assert forall|j: int| 0 <= j < which implies replace_all(t + seq!['&'] + v, #[trigger] pats[j], reps[j])
        == t + seq!['&'] + v by {
        let d: int = if pats[j][1] != e[1] { 1 } else { 2 };
        assert(pats[j][d] != e[d]);
        assert((seq!['&'] + v)[d] == e[d]);
        if (seq!['&'] + v).len() >= pats[j].len() {
            assert((seq!['&'] + v).subrange(0, pats[j].len() as int)[d] == e[d]);
        }
        lemma_replace_miss(t, v, pats[j], reps[j]);
    }
    // the entity's own pass
    lemma_replace_hit(t, u, e, reps[which]);
    assert(reps[which] == r);
    // passes after it keep the text
    if which == 0 {
        assert forall|j: int| 1 <= j < 5 implies replace_all(t + seq!['&'] + u, #[trigger] pats[j], reps[j]) == t
            + seq!['&'] + u by {
            lemma_semicolon_miss(u, pats[j]);
            lemma_replace_miss(t, u, pats[j], reps[j]);
        }
    } else {
        lemma_no_amp_concat(t, chs[which], u);
        assert forall|j: int| which < j < 5 implies replace_all(t + r + u, #[trigger] pats[j], reps[j]) == t + r + u by {
            lemma_replace_absent(t + r + u, pats[j], reps[j]);
        }
    }
    if which == 0 {
        assert(decoded(t + e + u) == t + r + u);
    } else if which == 1 {
        assert(decoded(t + e + u) == t + r + u);
    } else if which == 2 {
        assert(decoded(t + e + u) == t + r + u);
    } else if which == 3 {
        assert(decoded(t + e + u) == t + r + u);
    } else {
        assert(decoded(t + e + u) == t + r + u);
    }
}

/// Each of the five XML entities, standing between text without `&` and
/// text without `&` or `;`, decodes to its character, and a bare `&` there
/// is kept.
pub proof fn law_entities_decoded(t: Seq<char>, u: Seq<char>)
    requires
        !has_char(t, '&'),
        !has_char(u, '&'),
        !has_char(u, ';'),
    ensures
        decoded(t + seq!['&', 'a', 'm', 'p', ';'] + u) == t + seq!['&'] + u,
        decoded(t + seq!['&', 'l', 't', ';'] + u) == t + seq!['<'] + u,
        decoded(t + seq!['&', 'g', 't', ';'] + u) == t + seq!['>'] + u,
        decoded(t + seq!['&', 'q', 'u', 'o', 't', ';'] + u) == t + seq!['"'] + u,
        decoded(t + seq!['&', 'a', 'p', 'o', 's', ';'] + u) == t + seq!['\''] + u,
        decoded(t + seq!['&'] + u) == t + seq!['&'] + u,
{
    let x = t + seq!['&'] + u;
    let ents = seq![amp_entity(), lt_entity(), gt_entity(), quot_entity(), apos_entity()];
    let reps = seq![seq!['&'], seq!['<'], seq!['>'], seq!['"'], seq!['\'']];
    assert forall|j: int| 0 <= j < 5 implies replace_all(x, #[trigger] ents[j], reps[j]) == x by {
        lemma_semicolon_miss(u, ents[j]);
        lemma_replace_miss(t, u, ents[j], reps[j]);
    }
    assert(ents[0] == amp_entity() && reps[0] == seq!['&']);
    assert(ents[1] == lt_entity() && reps[1] == seq!['<']);
    assert(ents[2] == gt_entity() && reps[2] == seq!['>']);
    assert(ents[3] == quot_entity() && reps[3] == seq!['"']);
    assert(ents[4] == apos_entity() && reps[4] == seq!['\'']);
    lemma_entity_decoded(t, u, 0);
    lemma_entity_decoded(t, u, 1);
    lemma_entity_decoded(t, u, 2);
    lemma_entity_decoded(t, u, 3);
    lemma_entity_decoded(t, u, 4);
}

} // verus!
