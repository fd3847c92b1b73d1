//! Name lists of the catalogue: comma-separated filters, which platform and
//! screen directories count, and sorted sets of names.

use vstd::prelude::*;

use crate::text::{chars_of, str_eq, string_of, trim, trim_chars, starts_with};

verus! {

// ---------------------------------------------------------------------------
// Splitting
// ---------------------------------------------------------------------------

/// The fields of `s` between occurrences of `c` (one empty field for an
/// empty text).
pub open spec fn split_on(s: Seq<char>, c: char) -> Seq<Seq<char>>
    decreases s.len(),
{
    if s.len() == 0 {
        seq![Seq::empty()]
    } else if s.last() == c {
        split_on(s.drop_last(), c).push(Seq::empty())
    } else {
        let p = split_on(s.drop_last(), c);
        p.update(p.len() - 1, p.last().push(s.last()))
    }
}

pub proof fn lemma_split_nonempty(s: Seq<char>, c: char)
    ensures
        split_on(s, c).len() >= 1,
    decreases s.len(),
{
    if s.len() > 0 {
        lemma_split_nonempty(s.drop_last(), c);
    }
}

pub open spec fn char_views(v: Seq<Vec<char>>) -> Seq<Seq<char>> {
    v.map_values(|x: Vec<char>| x@)
}

/// The fields of `v` between occurrences of `c`.
pub fn split_chars(v: &Vec<char>, c: char) -> (r: Vec<Vec<char>>)
    ensures
        char_views(r@) == split_on(v@, c),
{
    let mut out: Vec<Vec<char>> = Vec::new();
    let mut cur: Vec<char> = Vec::new();
    let mut i: usize = 0;
    proof {
        assert(v@.subrange(0, 0) =~= Seq::<char>::empty());
    }
    while i < v.len()
        invariant
            i <= v.len(),
            char_views(out@).push(cur@) == split_on(v@.subrange(0, i as int), c),
        decreases v.len() - i,
    {
        let ghost before = char_views(out@).push(cur@);
        proof {
            let p = v@.subrange(0, i + 1);
            assert(p.drop_last() =~= v@.subrange(0, i as int));
            assert(p.last() == v@[i as int]);
            lemma_split_nonempty(v@.subrange(0, i as int), c);
        }
        if v[i] == c {
            let done = cur;
            out.push(done);
            cur = Vec::new();
            assert(char_views(out@).push(cur@) =~= before.push(Seq::empty()));
        } else {
            cur.push(v[i]);
            assert(char_views(out@).push(cur@) =~= before.update(before.len() - 1, before.last().push(v@[i as int])));
        }
        i = i + 1;
    }
    assert(v@.subrange(0, i as int) =~= v@);
    let ghost before = char_views(out@);
    out.push(cur);
    assert(char_views(out@) =~= before.push(cur@));
    out
}

/// The names of a comma-separated filter, each trimmed.
pub open spec fn filter_names(s: Seq<char>) -> Seq<Seq<char>> {
    split_on(s, ',').map_values(|f: Seq<char>| trim(f))
}

/// Parses a comma-separated filter such as `"discover, site-detail"` into
/// its trimmed names.
pub fn parse_name_filter(s: &str) -> (r: Vec<String>)
    ensures
        r.deep_view() == filter_names(s@),
{
    let v = chars_of(s);
    let fields = split_chars(&v, ',');
    let ghost fs = char_views(fields@);
    let mut out: Vec<String> = Vec::new();
    let mut i: usize = 0;
    while i < fields.len()
        invariant
            i <= fields@.len(),
            fs == char_views(fields@),
            out@.len() == i,
            forall|k: int| 0 <= k < i ==> (#[trigger] out@[k])@ == trim(fs[k]),
        decreases fields@.len() - i,
    {
        let t = trim_chars(&fields[i]);
        out.push(string_of(&t));
        i = i + 1;
    }
    assert(out.deep_view() =~= filter_names(s@));
    out
}

// ---------------------------------------------------------------------------
// Which directories count
// ---------------------------------------------------------------------------

pub open spec fn names_contain(names: Seq<Seq<char>>, n: Seq<char>) -> bool {
    exists|k: int| 0 <= k < names.len() && names[k] == n
}

/// A name passes a filter when there is no filter or the filter lists it.
pub open spec fn passes_filter(filter: Option<Seq<Seq<char>>>, n: Seq<char>) -> bool {
    match filter {
        None => true,
        Some(f) => names_contain(f, n),
    }
}

pub open spec fn filter_view(filter: Option<Vec<String>>) -> Option<Seq<Seq<char>>> {
    match filter {
        None => None,
        Some(f) => Some(f.deep_view()),
    }
}

/// Whether `n` is one of `names`.
pub fn contains_name(names: &Vec<String>, n: &str) -> (r: bool)
    ensures
        r == names_contain(names.deep_view(), n@),
{
    let mut i: usize = 0;
    while i < names.len()
        invariant
            i <= names@.len(),
            forall|k: int| 0 <= k < i ==> (#[trigger] names@[k])@ != n@,
        decreases names@.len() - i,
    {
        if str_eq(names[i].as_str(), n) {
            assert(names.deep_view()[i as int] == n@);
            return true;
        }
        i = i + 1;
    }
    assert forall|k: int| 0 <= k < names.deep_view().len() implies names.deep_view()[k] != n@ by {
        assert(names@[k]@ != n@);
    }
    false
}

/// Whether a name passes an optional filter.
pub fn name_passes(filter: &Option<Vec<String>>, n: &str) -> (r: bool)
    ensures
        r == passes_filter(filter_view(*filter), n@),
{
    match filter {
        None => true,
        Some(f) => contains_name(f, n),
    }
}

/// A platform directory counts unless it is hidden or one of the
/// catalogue's `tests` and `docs` directories, and when it passes the
/// platform filter.
pub open spec fn platform_dir_counts(filter: Option<Seq<Seq<char>>>, n: Seq<char>) -> bool {
    &&& !starts_with(n, "."@)
    &&& n != "tests"@
    &&& n != "docs"@
    &&& passes_filter(filter, n)
}

/// Whether a directory of the catalogue root names a platform to compare.
pub fn platform_dir_wanted(name: &str, filter: &Option<Vec<String>>) -> (r: bool)
    ensures
        r == platform_dir_counts(filter_view(*filter), name@),
{
    let v = chars_of(name);
    let dot = chars_of(".");
    if crate::text::has_prefix(&v, &dot) {
        return false;
    }
    if str_eq(name, "tests") || str_eq(name, "docs") {
        return false;
    }
    name_passes(filter, name)
}

// ---------------------------------------------------------------------------
// Sorted name sets
// ---------------------------------------------------------------------------

/// Byte order of UTF-8 text, which is the order of its code points.
pub open spec fn name_lt(a: Seq<char>, b: Seq<char>) -> bool
    decreases a.len(),
{
    if a.len() == 0 {
        b.len() > 0
    } else if b.len() == 0 {
        false
    } else if a[0] != b[0] {
        a[0] < b[0]
    } else {
        name_lt(a.drop_first(), b.drop_first())
    }
}

pub proof fn lemma_name_lt_irreflexive(a: Seq<char>)
    ensures
        !name_lt(a, a),
    decreases a.len(),
{
    if a.len() > 0 {
        lemma_name_lt_irreflexive(a.drop_first());
    }
}

pub proof fn lemma_name_lt_transitive(a: Seq<char>, b: Seq<char>, c: Seq<char>)
    requires
        name_lt(a, b),
        name_lt(b, c),
    ensures
        name_lt(a, c),
    decreases a.len(),
{
    if a.len() > 0 && b.len() > 0 && c.len() > 0 {
        if a[0] == b[0] && b[0] == c[0] {
            lemma_name_lt_transitive(a.drop_first(), b.drop_first(), c.drop_first());
        }
    }
}

pub proof fn lemma_name_lt_total(a: Seq<char>, b: Seq<char>)
    ensures
        a == b || name_lt(a, b) || name_lt(b, a),
    decreases a.len(),
{
    if a.len() > 0 && b.len() > 0 {
        if a[0] == b[0] {
            lemma_name_lt_total(a.drop_first(), b.drop_first());
            if a.drop_first() == b.drop_first() {
                assert(a =~= seq![a[0]] + a.drop_first());
                assert(b =~= seq![b[0]] + b.drop_first());
            }
        }
    } else if a.len() == 0 && b.len() == 0 {
        assert(a =~= b);
    }
}

/// Compares two names in byte order.
pub fn name_less(a: &str, b: &str) -> (r: bool)
    ensures
        r == name_lt(a@, b@),
{
    let x = chars_of(a);
    let y = chars_of(b);
    let mut i: usize = 0;
    assert(x@.subrange(0, x@.len() as int) =~= x@);
    assert(y@.subrange(0, y@.len() as int) =~= y@);
    while i < x.len() && i < y.len()
        invariant
            x@ == a@,
            y@ == b@,
            i <= x@.len(),
            i <= y@.len(),
            x@.subrange(0, i as int) == y@.subrange(0, i as int),
            name_lt(x@, y@) == name_lt(x@.subrange(i as int, x@.len() as int), y@.subrange(i as int, y@.len() as int)),
        decreases x@.len() - i,
    {
        let ghost xs = x@.subrange(i as int, x@.len() as int);
        let ghost ys = y@.subrange(i as int, y@.len() as int);
        assert(xs[0] == x@[i as int]);
        assert(ys[0] == y@[i as int]);
        let xc = x[i];
        let yc = y[i];
        if xc != yc {
            assert(name_lt(xs, ys) == (xc < yc));
            return xc < yc;
        }
        assert(xs.drop_first() =~= x@.subrange(i + 1, x@.len() as int));
        assert(ys.drop_first() =~= y@.subrange(i + 1, y@.len() as int));
        assert(x@.subrange(0, i + 1) =~= x@.subrange(0, i as int).push(x@[i as int]));
        assert(y@.subrange(0, i + 1) =~= y@.subrange(0, i as int).push(y@[i as int]));
        i = i + 1;
    }
    i < y.len()
}

/// Names in strictly increasing byte order, so without repetition.
pub open spec fn strictly_sorted(names: Seq<Seq<char>>) -> bool {
    forall|i: int, j: int| 0 <= i < j < names.len() ==> name_lt(#[trigger] names[i], #[trigger] names[j])
}

/// Adds a name to a sorted set of names: the set afterwards holds the old
/// names and the new one, each once, in byte order.
pub fn insert_name(names: &mut Vec<String>, name: String)
    requires
        strictly_sorted(old(names).deep_view()),
    ensures
        strictly_sorted(final(names).deep_view()),
        final(names).deep_view().to_set() == old(names).deep_view().to_set().insert(name@),
{
    let ghost before = names.deep_view();
    let mut p: usize = 0;
    while p < names.len()
        invariant
            p <= names@.len(),
            before == names.deep_view(),
            strictly_sorted(before),
            forall|k: int| 0 <= k < p ==> name_lt(#[trigger] before[k], name@),
        ensures
            p <= names@.len(),
            before == names.deep_view(),
            forall|k: int| 0 <= k < p ==> name_lt(#[trigger] before[k], name@),
            p < names@.len() ==> !name_lt(before[p as int], name@),
        decreases names@.len() - p,
    {
        if !name_less(names[p].as_str(), name.as_str()) {
            break;
        }
        p = p + 1;
    }
    if p < names.len() && str_eq(names[p].as_str(), name.as_str()) {
        assert(before.to_set().insert(name@) =~= before.to_set()) by {
            assert(before[p as int] == name@);
        }
        return;
    }
    proof {
        if p < before.len() {
            lemma_name_lt_total(before[p as int], name@);
        }
    }
    names.insert(p, name);
    let ghost after = names.deep_view();
    assert(after =~= before.insert(p as int, name@)) by {
        assert forall|k: int| 0 <= k < after.len() implies after[k] == before.insert(p as int, name@)[k] by {
            if k < p {
                assert(after[k] == before[k]);
            } else if k > p {
                assert(after[k] == before[k - 1]);
            }
        }
    }
    assert forall|k: int| p <= k < before.len() implies name_lt(name@, #[trigger] before[k]) by {
        if k > p {
            lemma_name_lt_transitive(name@, before[p as int], before[k]);
        }
    }
    assert forall|i: int, j: int| 0 <= i < j < after.len() implies name_lt(#[trigger] after[i], #[trigger] after[j]) by {
        if j < p {
        } else if j == p {
        } else if i == p {
            assert(name_lt(name@, before[j - 1]));
        } else if i < p {
            assert(name_lt(name@, before[j - 1]));
            lemma_name_lt_transitive(before[i], name@, before[j - 1]);
        }
    }
    assert(after.to_set() =~= before.to_set().insert(name@)) by {
        assert forall|x: Seq<char>| after.to_set().contains(x) <==> before.to_set().insert(name@).contains(x) by {
            if after.to_set().contains(x) {
                let k = choose|k: int| 0 <= k < after.len() && after[k] == x;
                if k < p {
                    assert(before[k] == x);
                } else if k > p {
                    assert(before[k - 1] == x);
                }
            }
            if before.to_set().contains(x) {
                let k = choose|k: int| 0 <= k < before.len() && before[k] == x;
                if k < p {
                    assert(after[k] == x);
                } else {
                    assert(after[k + 1] == x);
                }
            }
            if x == name@ {
                assert(after[p as int] == x);
            }
        }
    }
}

} // verus!
