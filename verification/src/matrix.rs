//! `vdb matrix`: the pass/fail matrix of test-case runs per platform, read
//! from run log YAMLs, keeping the latest run of each test case on each
//! platform.

use vstd::prelude::*;

use crate::names::{char_views, name_less, name_lt, split_chars, split_on};
use crate::text::{
    chars_eq, chars_of, contains, has_prefix, seq_contains, starts_with, str_eq, string_of, subvec,
    trim, trim_chars,
};
use crate::tolerance::{all_digits, digits_value};

verus! {

/// Arguments of `vdb matrix`.
pub struct MatrixArgs {
    /// Results directory containing run log YAMLs.
    pub results: String,
    /// Output as JSON.
    pub json: bool,
}

// ---------------------------------------------------------------------------
// Lines and fields
// ---------------------------------------------------------------------------

/// `s` without leading copies of `c`.
pub open spec fn strip_start(s: Seq<char>, c: char) -> Seq<char>
    decreases s.len(),
{
    if s.len() > 0 && s[0] == c {
        strip_start(s.drop_first(), c)
    } else {
        s
    }
}

/// `s` without trailing copies of `c`.
pub open spec fn strip_end(s: Seq<char>, c: char) -> Seq<char>
    decreases s.len(),
{
    if s.len() > 0 && s.last() == c {
        strip_end(s.drop_last(), c)
    } else {
        s
    }
}

/// `s` without leading and trailing copies of `c`, as `str::trim_matches`.
pub open spec fn strip(s: Seq<char>, c: char) -> Seq<char> {
    strip_end(strip_start(s, c), c)
}

proof fn lemma_strip_start(s: Seq<char>, c: char, i: int)
    requires
        0 <= i <= s.len(),
        forall|k: int| 0 <= k < i ==> #[trigger] s[k] == c,
        i == s.len() || s[i] != c,
    ensures
        strip_start(s, c) == s.subrange(i, s.len() as int),
    decreases i,
{
    if i == 0 {
        assert(s.subrange(0, s.len() as int) =~= s);
    } else {
        let t = s.drop_first();
        assert forall|k: int| 0 <= k < i - 1 implies #[trigger] t[k] == c by {
            assert(t[k] == s[k + 1]);
        }
        lemma_strip_start(t, c, i - 1);
        assert(t.subrange(i - 1, t.len() as int) =~= s.subrange(i, s.len() as int));
    }
}

proof fn lemma_strip_end(s: Seq<char>, c: char, j: int)
    requires
        0 <= j <= s.len(),
        forall|k: int| j <= k < s.len() ==> #[trigger] s[k] == c,
        j == 0 || s[j - 1] != c,
    ensures
        strip_end(s, c) == s.subrange(0, j),
    decreases s.len() - j,
{
    if j == s.len() {
        assert(s.subrange(0, j) =~= s);
    } else {
        let t = s.drop_last();
        assert forall|k: int| j <= k < t.len() implies #[trigger] t[k] == c by {
            assert(t[k] == s[k]);
        }
        lemma_strip_end(t, c, j);
        assert(t.subrange(0, j) =~= s.subrange(0, j));
    }
}

/// `v` without leading and trailing copies of `c`.
pub fn strip_chars(v: &Vec<char>, c: char) -> (r: Vec<char>)
    ensures
        r@ == strip(v@, c),
{
    let mut i: usize = 0;
    while i < v.len() && v[i] == c
        invariant
            i <= v.len(),
            forall|k: int| 0 <= k < i ==> #[trigger] v@[k] == c,
        decreases v.len() - i,
    {
        i = i + 1;
    }
    proof {
        lemma_strip_start(v@, c, i as int);
    }
    let a = subvec(v, i, v.len());
    let mut j: usize = a.len();
    while j > 0 && a[j - 1] == c
        invariant
            j <= a.len(),
            forall|k: int| j <= k < a@.len() ==> #[trigger] a@[k] == c,
        decreases j,
    {
        j = j - 1;
    }
    proof {
        lemma_strip_end(a@, c, j as int);
    }
    subvec(&a, 0, j)
}

/// The lines of a text: its fields between newlines. (A trailing empty
/// field, which `str::lines` leaves out, is blank and so matches no key;
/// a `\r` before the newline goes with the trimming.)
pub open spec fn lines(s: Seq<char>) -> Seq<Seq<char>> {
    split_on(s, '\n')
}

/// A line's value for `key`: the trimmed line starts with `key`, and what
/// follows, trimmed and stripped of `"` then of `'`.
pub open spec fn line_value(line: Seq<char>, key: Seq<char>) -> Option<Seq<char>> {
    let t = trim(line);
    if starts_with(t, key) {
        Some(strip(strip(trim(t.subrange(key.len() as int, t.len() as int)), '"'), '\''))
    } else {
        None
    }
}

/// The first non-empty value of `key` among `ls[from..]`.
pub open spec fn field_from(ls: Seq<Seq<char>>, key: Seq<char>, from: int) -> Option<Seq<char>>
    decreases ls.len() - from,
{
    if from < 0 || from >= ls.len() {
        None
    } else {
        match line_value(ls[from], key) {
            Some(v) => if v.len() > 0 {
                Some(v)
            } else {
                field_from(ls, key, from + 1)
            },
            None => field_from(ls, key, from + 1),
        }
    }
}

/// The first non-empty value of `key` in a run log.
pub open spec fn field_value(content: Seq<char>, key: Seq<char>) -> Option<Seq<char>> {
    field_from(lines(content), key, 0)
}

fn value_after(t: &Vec<char>, key_len: usize) -> (r: Vec<char>)
    requires
        key_len <= t.len(),
    ensures
        r@ == strip(strip(trim(t@.subrange(key_len as int, t@.len() as int)), '"'), '\''),
{
    let rest = subvec(t, key_len, t.len());
    let a = trim_chars(&rest);
    let b = strip_chars(&a, '"');
    strip_chars(&b, '\'')
}

/// The first non-empty value of `key` among the lines of a run log.
pub fn extract_field(content: &str, key: &str) -> (r: Option<String>)
    ensures
        match r {
            Some(v) => field_value(content@, key@) == Some(v@),
            None => field_value(content@, key@) is None,
        },
{
    let c = chars_of(content);
    let k = chars_of(key);
    let ls = split_chars(&c, '\n');
    let ghost lv = char_views(ls@);
    let mut i: usize = 0;
    while i < ls.len()
        invariant
            i <= ls@.len(),
            lv == char_views(ls@),
            lv == lines(content@),
            k@ == key@,
            field_value(content@, key@) == field_from(lv, key@, i as int),
        decreases ls@.len() - i,
    {
        let t = trim_chars(&ls[i]);
        assert(lv[i as int] == ls@[i as int]@);
        if has_prefix(&t, &k) {
            let v = value_after(&t, k.len());
            if v.len() > 0 {
                return Some(string_of(&v));
            }
        }
        i = i + 1;
    }
    None
}

// ---------------------------------------------------------------------------
// Failures
// ---------------------------------------------------------------------------

/// A `usize` as `str::parse::<usize>` reads it: an optional `+` and at
/// least one decimal digit, within range.
pub open spec fn usize_text(s: Seq<char>) -> Option<int> {
    let body = if s.len() > 0 && s[0] == '+' {
        s.drop_first()
    } else {
        s
    };
    if body.len() > 0 && all_digits(body) && digits_value(body) <= usize::MAX {
        Some(digits_value(body) as int)
    } else {
        None
    }
}

/// Reads a `usize` the way `str::parse::<usize>` does.
pub fn parse_usize(s: &Vec<char>) -> (r: Option<usize>)
    ensures
        r matches Some(v) ==> usize_text(s@) == Some(v as int),
        r is None ==> usize_text(s@) is None,
{
    let plus = s.len() > 0 && s[0] == '+';
    let start: usize = if plus {
        1
    } else {
        0
    };
    let ghost body = if plus {
        s@.drop_first()
    } else {
        s@
    };
    if start >= s.len() {
        assert(body.len() == 0);
        return None;
    }
    let mut acc: u128 = 0;
    let cap: u128 = usize::MAX as u128 + 1;
    let mut i = start;
    assert(s@.subrange(start as int, start as int) =~= Seq::<char>::empty());
    while i < s.len()
        invariant
            start <= i <= s.len(),
            start == (if plus { 1int } else { 0int }),
            body == s@.subrange(start as int, s.len() as int),
            body == (if plus { s@.drop_first() } else { s@ }),
            plus == (s@.len() > 0 && s@[0] == '+'),
            all_digits(s@.subrange(start as int, i as int)),
            cap == usize::MAX + 1,
            acc == (if digits_value(s@.subrange(start as int, i as int)) >= cap {
                cap as int
            } else {
                digits_value(s@.subrange(start as int, i as int)) as int
            }),
        decreases s.len() - i,
    {
        let c = s[i];
        let ghost pre = s@.subrange(start as int, i as int);
        assert(s@.subrange(start as int, i + 1) =~= pre.push(c));
        if !crate::text::is_ascii_digit(c) {
            assert(body[i - start] == c);
            assert(!crate::text::is_digit(body[i - start]));
            assert(!all_digits(body));
            return None;
        }
        assert(pre.push(c).drop_last() =~= pre);
        let d = (c as u32 - '0' as u32) as u128;
        if acc >= cap {
            acc = cap;
        } else {
            let next = acc * 10 + d;
            acc = if next >= cap {
                cap
            } else {
                next
            };
        }
        i = i + 1;
    }
    assert(s@.subrange(start as int, i as int) =~= body);
    if acc >= cap {
        None
    } else {
        Some(acc as usize)
    }
}

/// What follows the last `c` of `s` (all of `s` when it has none).
pub open spec fn after_last(s: Seq<char>, c: char) -> Seq<char>
    decreases s.len(),
{
    if s.len() == 0 {
        s
    } else if s.last() == c {
        Seq::empty()
    } else {
        after_last(s.drop_last(), c).push(s.last())
    }
}

fn after_last_chars(v: &Vec<char>, c: char) -> (r: Vec<char>)
    ensures
        r@ == after_last(v@, c),
{
    let mut j: usize = v.len();
    assert(v@.subrange(0, v.len() as int) =~= v@);
    assert(v@.subrange(v.len() as int, v.len() as int) =~= Seq::<char>::empty());
    while j > 0 && v[j - 1] != c
        invariant
            j <= v.len(),
            after_last(v@, c) == after_last(v@.subrange(0, j as int), c) + v@.subrange(j as int, v.len() as int),
        decreases j,
    {
        let ghost pre = v@.subrange(0, j as int);
        assert(pre.drop_last() =~= v@.subrange(0, j - 1));
        assert(pre.last() == v@[j - 1]);
        assert(v@.subrange(j - 1, v.len() as int) =~= seq![v@[j - 1]] + v@.subrange(j as int, v.len() as int));
        assert(after_last(pre.drop_last(), c).push(pre.last()) + v@.subrange(j as int, v.len() as int)
            =~= after_last(pre.drop_last(), c) + v@.subrange(j - 1, v.len() as int));
        j = j - 1;
    }
    proof {
        let pre = v@.subrange(0, j as int);
        if j > 0 {
            assert(pre.last() == v@[j - 1]);
        }
        assert(after_last(pre, c) =~= Seq::<char>::empty());
        assert(Seq::<char>::empty() + v@.subrange(j as int, v.len() as int) =~= v@.subrange(
            j as int,
            v.len() as int,
        ));
    }
    subvec(v, j, v.len())
}

/// The state of a failure scan: the current step, the step of the last
/// failure, the last error.
pub type FailureState = (int, Option<int>, Option<Seq<char>>);

pub open spec fn step_line(t: Seq<char>) -> bool {
    starts_with(t, "step:"@) || starts_with(t, "- step:"@)
}

pub open spec fn error_value(t: Seq<char>) -> Seq<char> {
    strip(strip(trim(t.subrange(6, t.len() as int)), '"'), '\'')
}

/// One line of the scan: a `step:` line with a number sets the current
/// step; a `result: FAIL` line records it as failing; an `error:` line
/// with a value records the error.
pub open spec fn failure_step(st: FailureState, line: Seq<char>) -> FailureState {
    let t = trim(line);
    let cur = if step_line(t) && usize_text(trim(after_last(t, ':'))) is Some {
        usize_text(trim(after_last(t, ':')))->0
    } else {
        st.0
    };
    let fail = if t == "result: FAIL"@ {
        Some(cur)
    } else {
        st.1
    };
    let err = if starts_with(t, "error:"@) && error_value(t).len() > 0 {
        Some(error_value(t))
    } else {
        st.2
    };
    (cur, fail, err)
}

pub open spec fn failure_scan(ls: Seq<Seq<char>>) -> FailureState
    decreases ls.len(),
{
    if ls.len() == 0 {
        (0, None, None)
    } else {
        failure_step(failure_scan(ls.drop_last()), ls.last())
    }
}

/// The step of the last failure and the last error of a run log.
pub open spec fn failure_of(content: Seq<char>) -> (Option<int>, Option<Seq<char>>) {
    let st = failure_scan(lines(content));
    (st.1, st.2)
}

/// Finds the step of the last failure and the last error of a run log.
pub fn extract_failure(content: &str) -> (r: (Option<usize>, Option<String>))
    ensures
        (match r.0 {
            Some(n) => Some(n as int),
            None => None,
        }, match r.1 {
            Some(e) => Some(e@),
            None => None,
        }) == failure_of(content@),
{
    let c = chars_of(content);
    let ls = split_chars(&c, '\n');
    let ghost lv = char_views(ls@);
    let step1 = chars_of("step:");
    let step2 = chars_of("- step:");
    let fail = chars_of("result: FAIL");
    let err = chars_of("error:");
    let mut current: usize = 0;
    let mut last_step: Option<usize> = None;
    let mut last_error: Option<String> = None;
    let mut i: usize = 0;
    assert(lv.subrange(0, 0) =~= Seq::<Seq<char>>::empty());
    while i < ls.len()
        invariant
            i <= ls@.len(),
            lv == char_views(ls@),
            lv == lines(content@),
            step1@ == "step:"@,
            step2@ == "- step:"@,
            fail@ == "result: FAIL"@,
            err@ == "error:"@,
            ({
                let st = failure_scan(lv.subrange(0, i as int));
                &&& st.0 == current as int
                &&& st.1 == match last_step {
                    Some(n) => Some(n as int),
                    None => None,
                }
                &&& st.2 == match last_error {
                    Some(e) => Some(e@),
                    None => None,
                }
            }),
        decreases ls@.len() - i,
    {
        proof {
            let p = lv.subrange(0, i + 1);
            assert(p.drop_last() =~= lv.subrange(0, i as int));
            assert(p.last() == ls@[i as int]@);
            reveal_strlit("error:");
        }
        let t = trim_chars(&ls[i]);
        if has_prefix(&t, &step1) || has_prefix(&t, &step2) {
            let tail = after_last_chars(&t, ':');
            let num = trim_chars(&tail);
            match parse_usize(&num) {
                Some(n) => {
                    current = n;
                },
                None => {},
            }
        }
        if chars_eq(&t, &fail) {
            last_step = Some(current);
        }
        if has_prefix(&t, &err) {
            let v = value_after(&t, 6);
            if v.len() > 0 {
                last_error = Some(string_of(&v));
            }
        }
        i = i + 1;
    }
    assert(lv.subrange(0, i as int) =~= lv);
    (last_step, last_error)
}

// ---------------------------------------------------------------------------
// Run results
// ---------------------------------------------------------------------------

/// One run of a test case on a device.
#[derive(Debug)]
pub struct RunResult {
    pub tc_id: String,
    pub tc_name: String,
    pub platform: String,
    pub device: String,
    pub result: String,
    pub failure_step: Option<usize>,
    pub failure_reason: Option<String>,
    pub timestamp: String,
}

pub struct RunSpec {
    pub tc_id: Seq<char>,
    pub tc_name: Seq<char>,
    pub platform: Seq<char>,
    pub device: Seq<char>,
    pub result: Seq<char>,
    pub failure_step: Option<int>,
    pub failure_reason: Option<Seq<char>>,
    pub timestamp: Seq<char>,
}

impl View for RunResult {
    type V = RunSpec;

    open spec fn view(&self) -> RunSpec {
        RunSpec {
            tc_id: self.tc_id@,
            tc_name: self.tc_name@,
            platform: self.platform@,
            device: self.device@,
            result: self.result@,
            failure_step: match self.failure_step {
                Some(n) => Some(n as int),
                None => None,
            },
            failure_reason: match self.failure_reason {
                Some(e) => Some(e@),
                None => None,
            },
            timestamp: self.timestamp@,
        }
    }
}

pub open spec fn runs_view(rs: Seq<RunResult>) -> Seq<RunSpec> {
    rs.map_values(|r: RunResult| r@)
}

pub open spec fn or_else(a: Option<Seq<char>>, b: Seq<char>) -> Seq<char> {
    match a {
        Some(v) => v,
        None => b,
    }
}

/// The platform a log names, else the one its file name shows
/// (`-android-` or `-ios-`), else none.
pub open spec fn platform_of(content: Seq<char>, filename: Seq<char>) -> Seq<char> {
    match field_value(content, "platform:"@) {
        Some(p) => p,
        None => if seq_contains(filename, "-android-"@) {
            "android"@
        } else if seq_contains(filename, "-ios-"@) {
            "ios"@
        } else {
            Seq::empty()
        },
    }
}

/// The result a log states, else `FAIL` when a step failed, else `PASS`.
pub open spec fn result_of(content: Seq<char>) -> Seq<char> {
    match field_value(content, "result:"@) {
        Some(r) => r,
        None => if seq_contains(content, "result: FAIL"@) {
            "FAIL"@
        } else {
            "PASS"@
        },
    }
}

/// The run a log describes (Android logs use `tc_id`/`tc_name`, iOS logs
/// `id`/`name`); its time is the file's modification time when known,
/// else the log's `started`; a log without a test-case ID describes none.
pub open spec fn run_of(content: Seq<char>, filename: Seq<char>, modified: Option<Seq<char>>) -> Option<RunSpec> {
    let tc_id = match field_value(content, "tc_id:"@) {
        Some(v) => v,
        None => or_else(field_value(content, "id:"@), Seq::empty()),
    };
    let tc_name = match field_value(content, "tc_name:"@) {
        Some(v) => v,
        None => or_else(field_value(content, "name:"@), Seq::empty()),
    };
    let result = result_of(content);
    let failure = if result == "FAIL"@ {
        failure_of(content)
    } else {
        (None, None)
    };
    let started = or_else(field_value(content, "started:"@), Seq::empty());
    if tc_id.len() == 0 {
        None
    } else {
        Some(
            RunSpec {
                tc_id,
                tc_name,
                platform: platform_of(content, filename),
                device: or_else(field_value(content, "device:"@), Seq::empty()),
                result,
                failure_step: failure.0,
                failure_reason: failure.1,
                timestamp: or_else(modified, started),
            },
        )
    }
}

fn field_or(content: &str, key: &str, alt: &str) -> (r: String)
    ensures
        r@ == match field_value(content@, key@) {
            Some(v) => v,
            None => or_else(field_value(content@, alt@), Seq::empty()),
        },
{
    match extract_field(content, key) {
        Some(v) => v,
        None => match extract_field(content, alt) {
            Some(v) => v,
            None => String::new(),
        },
    }
}

fn field_or_empty(content: &str, key: &str) -> (r: String)
    ensures
        r@ == or_else(field_value(content@, key@), Seq::empty()),
{
    match extract_field(content, key) {
        Some(v) => v,
        None => String::new(),
    }
}

fn str_contains(s: &str, p: &str) -> (r: bool)
    ensures
        r == seq_contains(s@, p@),
{
    contains(&chars_of(s), &chars_of(p))
}

/// Reads the run a log describes. `modified` is the log file's
/// modification time, when it could be read.
pub fn parse_run_result(content: &str, filename: &str, modified: Option<String>) -> (r: Option<RunResult>)
    ensures
        match r {
            Some(x) => run_of(content@, filename@, opt_str(modified)) == Some(x@),
            None => run_of(content@, filename@, opt_str(modified)) is None,
        },
{
    let tc_id = field_or(content, "tc_id:", "id:");
    let tc_name = field_or(content, "tc_name:", "name:");
    let platform = match extract_field(content, "platform:") {
        Some(p) => p,
        None => if str_contains(filename, "-android-") {
            "android".to_owned()
        } else if str_contains(filename, "-ios-") {
            "ios".to_owned()
        } else {
            String::new()
        },
    };
    let device = field_or_empty(content, "device:");
    let result = match extract_field(content, "result:") {
        Some(r) => r,
        None => if str_contains(content, "result: FAIL") {
            "FAIL".to_owned()
        } else {
            "PASS".to_owned()
        },
    };
    let started = field_or_empty(content, "started:");
    let (failure_step, failure_reason) = if str_eq(result.as_str(), "FAIL") {
        extract_failure(content)
    } else {
        (None, None)
    };
    let timestamp = match modified {
        Some(t) => t,
        None => started,
    };
    if tc_id.as_str().is_empty() {
        return None;
    }
    Some(RunResult { tc_id, tc_name, platform, device, result, failure_step, failure_reason, timestamp })
}

pub open spec fn opt_str(o: Option<String>) -> Option<Seq<char>> {
    match o {
        Some(s) => Some(s@),
        None => None,
    }
}

// ---------------------------------------------------------------------------
// The latest run per test case and platform
// ---------------------------------------------------------------------------

/// Order of (test case, platform) keys: by test case, then by platform,
/// each in byte order.
pub open spec fn key_lt(a: RunSpec, b: RunSpec) -> bool {
    name_lt(a.tc_id, b.tc_id) || (a.tc_id == b.tc_id && name_lt(a.platform, b.platform))
}

pub open spec fn same_key(a: RunSpec, b: RunSpec) -> bool {
    a.tc_id == b.tc_id && a.platform == b.platform
}

/// The run of `tc` on `p` that counts: the first of those with the latest
/// time (times compare as text).
pub open spec fn newest(rs: Seq<RunSpec>, tc: Seq<char>, p: Seq<char>) -> Option<RunSpec>
    decreases rs.len(),
{
    if rs.len() == 0 {
        None
    } else {
        let prev = newest(rs.drop_last(), tc, p);
        let r = rs.last();
        if r.tc_id == tc && r.platform == p && (prev is None || name_lt(prev->0.timestamp, r.timestamp)) {
            Some(r)
        } else {
            prev
        }
    }
}

proof fn lemma_newest_key(rs: Seq<RunSpec>, tc: Seq<char>, p: Seq<char>)
    ensures
        newest(rs, tc, p) matches Some(r) ==> r.tc_id == tc && r.platform == p,
        newest(rs, tc, p) is None <==> !(exists|j: int| 0 <= j < rs.len() && rs[j].tc_id == tc && rs[j].platform == p),
    decreases rs.len(),
{
    if rs.len() > 0 {
        lemma_newest_key(rs.drop_last(), tc, p);
        if exists|j: int| 0 <= j < rs.len() && rs[j].tc_id == tc && rs[j].platform == p {
            let j = choose|j: int| 0 <= j < rs.len() && rs[j].tc_id == tc && rs[j].platform == p;
            if j < rs.len() - 1 {
                assert(rs.drop_last()[j] == rs[j]);
            }
        }
        if exists|j: int| 0 <= j < rs.len() - 1 && rs.drop_last()[j].tc_id == tc && rs.drop_last()[j].platform == p {
            let j = choose|j: int| 0 <= j < rs.len() - 1 && rs.drop_last()[j].tc_id == tc && rs.drop_last()[j].platform == p;
            assert(rs[j] == rs.drop_last()[j]);
        }
    }
}

/// Keys in strictly increasing order.
pub open spec fn keys_sorted(rs: Seq<RunSpec>) -> bool {
    forall|i: int, j: int| 0 <= i < j < rs.len() ==> key_lt(#[trigger] rs[i], #[trigger] rs[j])
}

/// What the latest runs of a list of runs are: one per (test case,
/// platform) key that occurs, in key order, each the run of its key that
/// counts.
pub open spec fn latest_of(rs: Seq<RunSpec>, out: Seq<RunSpec>) -> bool {
    &&& keys_sorted(out)
    &&& forall|k: int| 0 <= k < out.len() ==> newest(rs, (#[trigger] out[k]).tc_id, out[k].platform) == Some(out[k])
    &&& forall|j: int| 0 <= j < rs.len() ==> exists|k: int| 0 <= k < out.len() && same_key(#[trigger] rs[j], #[trigger] out[k])
}

proof fn lemma_key_lt_total(a: RunSpec, b: RunSpec)
    ensures
        same_key(a, b) || key_lt(a, b) || key_lt(b, a),
{
    crate::names::lemma_name_lt_total(a.tc_id, b.tc_id);
    crate::names::lemma_name_lt_total(a.platform, b.platform);
}

proof fn lemma_key_lt_transitive(a: RunSpec, b: RunSpec, c: RunSpec)
    requires
        key_lt(a, b),
        key_lt(b, c),
    ensures
        key_lt(a, c),
{
    if name_lt(a.tc_id, b.tc_id) && name_lt(b.tc_id, c.tc_id) {
        crate::names::lemma_name_lt_transitive(a.tc_id, b.tc_id, c.tc_id);
    } else if name_lt(a.platform, b.platform) && name_lt(b.platform, c.platform) {
        crate::names::lemma_name_lt_transitive(a.platform, b.platform, c.platform);
    }
}

proof fn lemma_key_lt_irreflexive(a: RunSpec, b: RunSpec)
    requires
        same_key(a, b),
    ensures
        !key_lt(a, b),
{
    crate::names::lemma_name_lt_irreflexive(a.tc_id);
    crate::names::lemma_name_lt_irreflexive(a.platform);
}

fn copy_run(r: &RunResult) -> (c: RunResult)
    ensures
        c@ == r@,
{
    RunResult {
        tc_id: r.tc_id.clone(),
        tc_name: r.tc_name.clone(),
        platform: r.platform.clone(),
        device: r.device.clone(),
        result: r.result.clone(),
        failure_step: r.failure_step,
        failure_reason: match &r.failure_reason {
            Some(e) => Some(e.clone()),
            None => None,
        },
        timestamp: r.timestamp.clone(),
    }
}

fn run_key_less(a: &RunResult, b: &RunResult) -> (r: bool)
    ensures
        r == key_lt(a@, b@),
{
    name_less(a.tc_id.as_str(), b.tc_id.as_str()) || (str_eq(a.tc_id.as_str(), b.tc_id.as_str())
        && name_less(a.platform.as_str(), b.platform.as_str()))
}

fn run_same_key(a: &RunResult, b: &RunResult) -> (r: bool)
    ensures
        r == same_key(a@, b@),
{
    str_eq(a.tc_id.as_str(), b.tc_id.as_str()) && str_eq(a.platform.as_str(), b.platform.as_str())
}

/// The latest run of each test case on each platform, in (test case,
/// platform) order.
pub fn latest_runs(results: &Vec<RunResult>) -> (r: Vec<RunResult>)
    ensures
        latest_of(runs_view(results@), runs_view(r@)),
{
    let ghost all = runs_view(results@);
    let mut out: Vec<RunResult> = Vec::new();
    let mut i: usize = 0;
    while i < results.len()
        invariant
            i <= results@.len(),
            all == runs_view(results@),
            latest_of(all.subrange(0, i as int), runs_view(out@)),
        decreases results@.len() - i,
    {
        let r = &results[i];
        let ghost pre = all.subrange(0, i as int);
        let ghost next = all.subrange(0, i + 1);
        let ghost ov = runs_view(out@);
        proof {
            assert(next.drop_last() =~= pre);
            assert(next.last() == r@);
        }
        let mut p: usize = 0;
        while p < out.len() && run_key_less(&out[p], r)
            invariant
                p <= out@.len(),
                ov == runs_view(out@),
                forall|k: int| 0 <= k < p ==> key_lt(#[trigger] ov[k], r@),
            decreases out@.len() - p,
        {
            p = p + 1;
        }
        proof {
            // everything from p on is not below r's key
            if p < out@.len() {
                assert(!key_lt(ov[p as int], r@));
            }
        }
        if p < out.len() && run_same_key(&out[p], r) {
            let newer = name_less(out[p].timestamp.as_str(), r.timestamp.as_str());
            if newer {
                let c = copy_run(r);
                out[p] = c;
            }
            proof {
                let nv = runs_view(out@);
                assert(newest(pre, r@.tc_id, r@.platform) == Some(ov[p as int]));
                assert forall|k: int| 0 <= k < nv.len() implies newest(next, (#[trigger] nv[k]).tc_id, nv[k].platform) == Some(nv[k]) by {
                    if k != p {
                        assert(nv[k] == ov[k]);
                        if same_key(ov[k], r@) {
                            if k < p {
                                lemma_key_lt_transitive(ov[k], ov[p as int], ov[k]);
                                lemma_key_lt_irreflexive(ov[k], ov[k]);
                            } else {
                                lemma_key_lt_irreflexive(ov[p as int], ov[k]);
                            }
                        }
                    }
                }
                assert forall|i1: int, j1: int| 0 <= i1 < j1 < nv.len() implies key_lt(#[trigger] nv[i1], #[trigger] nv[j1]) by {
                    assert(key_lt(ov[i1], ov[j1]));
                }
                assert forall|j: int| 0 <= j < next.len() implies exists|k: int| 0 <= k < nv.len() && same_key(#[trigger] next[j], #[trigger] nv[k]) by {
                    if j < pre.len() {
                        assert(next[j] == pre[j]);
                        let k = choose|k: int| 0 <= k < ov.len() && same_key(pre[j], ov[k]);
                        assert(same_key(next[j], nv[k]));
                    } else {
                        assert(same_key(next[j], nv[p as int]));
                    }
                }
            }
        } else {
            let c = copy_run(r);
            out.insert(p, c);
            proof {
                let nv = runs_view(out@);
                assert(nv =~= ov.insert(p as int, r@));
                lemma_newest_key(pre, r@.tc_id, r@.platform);
                assert forall|j: int| 0 <= j < pre.len() implies !(#[trigger] pre[j].tc_id == r@.tc_id && pre[j].platform == r@.platform) by {
                    if pre[j].tc_id == r@.tc_id && pre[j].platform == r@.platform {
                        let k = choose|k: int| 0 <= k < ov.len() && same_key(pre[j], ov[k]);
                        if k < p {
                            assert(key_lt(ov[k], r@));
                            lemma_key_lt_irreflexive(ov[k], r@);
                        } else if k == p {
                        } else {
                            assert(key_lt(ov[p as int], ov[k]));
                            lemma_key_lt_total(ov[p as int], r@);
                            lemma_key_lt_irreflexive(ov[k], r@);
                            if key_lt(r@, ov[p as int]) {
                                lemma_key_lt_transitive(r@, ov[p as int], ov[k]);
                            }
                        }
                    }
                }
                assert(newest(pre, r@.tc_id, r@.platform) is None);
                if p < ov.len() {
                    lemma_key_lt_total(ov[p as int], r@);
                }
                assert forall|k: int| 0 <= k < nv.len() implies newest(next, (#[trigger] nv[k]).tc_id, nv[k].platform) == Some(nv[k]) by {
                    if k < p {
                        assert(nv[k] == ov[k]);
                        assert(key_lt(ov[k], r@));
                        if same_key(ov[k], r@) {
                            lemma_key_lt_irreflexive(ov[k], r@);
                        }
                    } else if k > p {
                        assert(nv[k] == ov[k - 1]);
                        if same_key(ov[k - 1], r@) {
                            if k - 1 == p {
                            } else {
                                assert(key_lt(ov[p as int], ov[k - 1]));
                                lemma_key_lt_irreflexive(ov[k - 1], r@);
                                lemma_key_lt_transitive(r@, ov[p as int], ov[k - 1]);
                            }
                        }
                    }
                }
                assert forall|k: int| p <= k < ov.len() implies key_lt(r@, #[trigger] ov[k]) by {
                    if k > p {
                        lemma_key_lt_transitive(r@, ov[p as int], ov[k]);
                    }
                }
                assert forall|i1: int, j1: int| 0 <= i1 < j1 < nv.len() implies key_lt(#[trigger] nv[i1], #[trigger] nv[j1]) by {
                    if j1 < p {
                        assert(key_lt(ov[i1], ov[j1]));
                    } else if j1 == p {
                        assert(key_lt(ov[i1], r@));
                    } else if i1 == p {
                        assert(key_lt(r@, ov[j1 - 1]));
                    } else if i1 < p {
                        assert(key_lt(ov[i1], r@));
                        assert(key_lt(r@, ov[j1 - 1]));
                        lemma_key_lt_transitive(ov[i1], r@, ov[j1 - 1]);
                    } else {
                        assert(key_lt(ov[i1 - 1], ov[j1 - 1]));
                    }
                }
                assert forall|j: int| 0 <= j < next.len() implies exists|k: int| 0 <= k < nv.len() && same_key(#[trigger] next[j], #[trigger] nv[k]) by {
                    if j < pre.len() {
                        assert(next[j] == pre[j]);
                        let k = choose|k: int| 0 <= k < ov.len() && same_key(pre[j], ov[k]);
                        if k < p {
                            assert(same_key(next[j], nv[k]));
                        } else {
                            assert(same_key(next[j], nv[k + 1]));
                        }
                    } else {
                        assert(same_key(next[j], nv[p as int]));
                    }
                }
            }
        }
        i = i + 1;
    }
    assert(all.subrange(0, i as int) =~= all);
    out
}

// ---------------------------------------------------------------------------
// The matrix table
// ---------------------------------------------------------------------------

/// Position of the run with key (`tc`, `p`) at or after `from`.
pub open spec fn run_index(rs: Seq<RunSpec>, tc: Seq<char>, p: Seq<char>, from: int) -> Option<int>
    decreases rs.len() - from,
{
    if from < 0 || from >= rs.len() {
        None
    } else if rs[from].tc_id == tc && rs[from].platform == p {
        Some(from)
    } else {
        run_index(rs, tc, p, from + 1)
    }
}

pub proof fn lemma_run_index(rs: Seq<RunSpec>, tc: Seq<char>, p: Seq<char>, from: int)
    requires
        0 <= from,
    ensures
        run_index(rs, tc, p, from) matches Some(k) ==> from <= k < rs.len() && rs[k].tc_id == tc && rs[k].platform == p,
    decreases rs.len() - from,
{
    if from < rs.len() && !(rs[from].tc_id == tc && rs[from].platform == p) {
        lemma_run_index(rs, tc, p, from + 1);
    }
}

/// The run of test case `tc` on platform `p`.
pub fn lookup_run(runs: &Vec<RunResult>, tc: &str, p: &str) -> (r: Option<usize>)
    ensures
        r matches Some(k) ==> run_index(runs_view(runs@), tc@, p@, 0) == Some(k as int),
        r is None ==> run_index(runs_view(runs@), tc@, p@, 0) is None,
{
    let ghost v = runs_view(runs@);
    let mut i: usize = 0;
    while i < runs.len()
        invariant
            i <= runs@.len(),
            v == runs_view(runs@),
            run_index(v, tc@, p@, 0) == run_index(v, tc@, p@, i as int),
        decreases runs@.len() - i,
    {
        assert(v[i as int] == runs@[i as int]@);
        if str_eq(runs[i].tc_id.as_str(), tc) && str_eq(runs[i].platform.as_str(), p) {
            return Some(i);
        }
        i = i + 1;
    }
    None
}

/// How one cell of the table counts: `(pass, fail, missing)`.
pub open spec fn cell_count(rs: Seq<RunSpec>, tc: Seq<char>, p: Seq<char>) -> (nat, nat, nat) {
    match run_index(rs, tc, p, 0) {
        Some(k) => if rs[k].result == "PASS"@ {
            (1, 0, 0)
        } else {
            (0, 1, 0)
        },
        None => (0, 0, 1),
    }
}

pub open spec fn add3(a: (nat, nat, nat), b: (nat, nat, nat)) -> (nat, nat, nat) {
    (a.0 + b.0, a.1 + b.1, a.2 + b.2)
}

/// The counts of the cells of one row, over the first `n` platforms.
pub open spec fn row_count(rs: Seq<RunSpec>, tc: Seq<char>, ps: Seq<Seq<char>>, n: int) -> (nat, nat, nat)
    decreases n,
{
    if n <= 0 {
        (0, 0, 0)
    } else {
        add3(row_count(rs, tc, ps, n - 1), cell_count(rs, tc, ps[n - 1]))
    }
}

/// The counts of the cells of the first `n` rows.
pub open spec fn table_count(rs: Seq<RunSpec>, tcs: Seq<Seq<char>>, ps: Seq<Seq<char>>, n: int) -> (nat, nat, nat)
    decreases n,
{
    if n <= 0 {
        (0, 0, 0)
    } else {
        add3(table_count(rs, tcs, ps, n - 1), row_count(rs, tcs[n - 1], ps, ps.len() as int))
    }
}

proof fn lemma_row_count_bound(rs: Seq<RunSpec>, tc: Seq<char>, ps: Seq<Seq<char>>, n: int)
    requires
        0 <= n,
    ensures
        ({
            let c = row_count(rs, tc, ps, n);
            c.0 + c.1 + c.2 == n
        }),
    decreases n,
{
    if n > 0 {
        lemma_row_count_bound(rs, tc, ps, n - 1);
    }
}

pub open spec fn tc_ids(rs: Seq<RunSpec>) -> Seq<Seq<char>> {
    rs.map_values(|r: RunSpec| r.tc_id)
}

pub open spec fn platform_ids(rs: Seq<RunSpec>) -> Seq<Seq<char>> {
    rs.map_values(|r: RunSpec| r.platform)
}

/// The rows, columns and counts of the matrix table.
pub struct MatrixSummary {
    /// Test cases, each once, in byte order.
    pub tcs: Vec<String>,
    /// Platforms, each once, in byte order.
    pub platforms: Vec<String>,
    pub pass: u128,
    pub fail: u128,
    pub missing: u128,
}

fn sorted_names(runs: &Vec<RunResult>, platforms: bool) -> (r: Vec<String>)
    ensures
        crate::names::strictly_sorted(r.deep_view()),
        r.deep_view().to_set() == (if platforms {
            platform_ids(runs_view(runs@))
        } else {
            tc_ids(runs_view(runs@))
        }).to_set(),
{
    let ghost ids = if platforms {
        platform_ids(runs_view(runs@))
    } else {
        tc_ids(runs_view(runs@))
    };
    let mut out: Vec<String> = Vec::new();
    let mut i: usize = 0;
    assert(out.deep_view().to_set() =~= ids.subrange(0, 0).to_set());
    while i < runs.len()
        invariant
            i <= runs@.len(),
            ids == (if platforms { platform_ids(runs_view(runs@)) } else { tc_ids(runs_view(runs@)) }),
            crate::names::strictly_sorted(out.deep_view()),
            out.deep_view().to_set() == ids.subrange(0, i as int).to_set(),
        decreases runs@.len() - i,
    {
        let name = if platforms {
            runs[i].platform.clone()
        } else {
            runs[i].tc_id.clone()
        };
        assert(name@ == ids[i as int]);
        crate::names::insert_name(&mut out, name);
        proof {
            assert(ids.subrange(0, i + 1) =~= ids.subrange(0, i as int).push(ids[i as int]));
            ids.subrange(0, i as int).lemma_push_to_set_commute(ids[i as int]);
        }
        i = i + 1;
    }
    assert(ids.subrange(0, i as int) =~= ids);
    out
}

/// The matrix table of the latest runs: its test cases and platforms, and
/// how many of its cells pass, fail, or have no run.
pub fn matrix_summary(latest: &Vec<RunResult>) -> (r: MatrixSummary)
    ensures
        crate::names::strictly_sorted(r.tcs.deep_view()),
        crate::names::strictly_sorted(r.platforms.deep_view()),
        r.tcs.deep_view().to_set() == tc_ids(runs_view(latest@)).to_set(),
        r.platforms.deep_view().to_set() == platform_ids(runs_view(latest@)).to_set(),
        (r.pass as nat, r.fail as nat, r.missing as nat) == table_count(
            runs_view(latest@),
            r.tcs.deep_view(),
            r.platforms.deep_view(),
            r.tcs@.len() as int,
        ),
{
    let tcs = sorted_names(latest, false);
    let platforms = sorted_names(latest, true);
    let ghost rv = runs_view(latest@);
    let ghost tv = tcs.deep_view();
    let ghost pv = platforms.deep_view();
    let mut pass: u128 = 0;
    let mut fail: u128 = 0;
    let mut missing: u128 = 0;
    let mut t: usize = 0;
    while t < tcs.len()
        invariant
            t <= tcs@.len(),
            rv == runs_view(latest@),
            tv == tcs.deep_view(),
            pv == platforms.deep_view(),
            (pass as nat, fail as nat, missing as nat) == table_count(rv, tv, pv, t as int),
            pass + fail + missing == t * platforms@.len(),
        decreases tcs@.len() - t,
    {
        let mut k: usize = 0;
        let ghost base = (pass as nat, fail as nat, missing as nat);
        assert(tv[t as int] == tcs@[t as int]@);
        while k < platforms.len()
            invariant
                t < tcs@.len(),
                k <= platforms@.len(),
                rv == runs_view(latest@),
                tv == tcs.deep_view(),
                pv == platforms.deep_view(),
                tv[t as int] == tcs@[t as int]@,
                base == table_count(rv, tv, pv, t as int),
                base.0 + base.1 + base.2 == t * platforms@.len(),
                (pass as nat, fail as nat, missing as nat) == add3(base, row_count(rv, tv[t as int], pv, k as int)),
                pass + fail + missing == t * platforms@.len() + k,
            decreases platforms@.len() - k,
        {
            assert(pv[k as int] == platforms@[k as int]@);
            assert(t * platforms@.len() + k + 1 < 0x1_0000_0000_0000_0000_0000_0000_0000_0000) by (nonlinear_arith)
                requires
                    t < 0x1_0000_0000_0000_0000,
                    k < 0x1_0000_0000_0000_0000,
                    platforms@.len() < 0x1_0000_0000_0000_0000,
            ;
            proof {
                lemma_run_index(rv, tv[t as int], pv[k as int], 0);
            }
            match lookup_run(latest, tcs[t].as_str(), platforms[k].as_str()) {
                Some(j) => {
                    assert(rv[j as int] == latest@[j as int]@);
                    if str_eq(latest[j].result.as_str(), "PASS") {
                        pass = pass + 1;
                    } else {
                        fail = fail + 1;
                    }
                },
                None => {
                    missing = missing + 1;
                },
            }
            k = k + 1;
        }
        proof {
            assert(t * platforms@.len() + platforms@.len() == (t + 1) * platforms@.len()) by (nonlinear_arith);
        }
        t = t + 1;
    }
    MatrixSummary { tcs, platforms, pass, fail, missing }
}

/// The failure line of a run: `  {tc} ({platform}) — step {n} {reason}`,
/// without the step when unknown, with `unknown` for a missing reason.
pub open spec fn failure_text(r: RunSpec) -> Seq<char> {
    let step = match r.failure_step {
        Some(n) => "step "@ + crate::numfmt::nat_str(n as nat),
        None => Seq::empty(),
    };
    let reason = match r.failure_reason {
        Some(e) => e,
        None => "unknown"@,
    };
    "  "@ + r.tc_id + " ("@ + r.platform + ") — "@ + step + " "@ + reason
}

/// The failure line of a run.
pub fn failure_line(r: &RunResult) -> (s: String)
    ensures
        s@ == failure_text(r@),
{
    let mut m = chars_of("  ");
    crate::text::append_str(&mut m, r.tc_id.as_str());
    crate::text::append_str(&mut m, " (");
    crate::text::append_str(&mut m, r.platform.as_str());
    crate::text::append_str(&mut m, ") — ");
    match r.failure_step {
        Some(n) => {
            crate::text::append_str(&mut m, "step ");
            crate::text::append_chars(&mut m, &crate::numfmt::fmt_nat(n as u128));
        },
        None => {},
    }
    crate::text::append_str(&mut m, " ");
    match &r.failure_reason {
        Some(e) => crate::text::append_str(&mut m, e.as_str()),
        None => crate::text::append_str(&mut m, "unknown"),
    }
    string_of(&m)
}

proof fn lemma_newest_is_latest(rs: Seq<RunSpec>, tc: Seq<char>, p: Seq<char>)
    ensures
        newest(rs, tc, p) matches Some(m) ==> forall|j: int|
            0 <= j < rs.len() && rs[j].tc_id == tc && rs[j].platform == p ==> !name_lt(m.timestamp, #[trigger] rs[j].timestamp),
    decreases rs.len(),
{
    if rs.len() > 0 {
        let pre = rs.drop_last();
        lemma_newest_key(pre, tc, p);
        lemma_newest_is_latest(pre, tc, p);
        let r = rs.last();
        match newest(rs, tc, p) {
            Some(m) => {
                assert forall|j: int| 0 <= j < rs.len() && rs[j].tc_id == tc && rs[j].platform == p implies !name_lt(
                    m.timestamp,
                    #[trigger] rs[j].timestamp,
                ) by {
                    if j == rs.len() - 1 {
                        if m == r {
                            crate::names::lemma_name_lt_irreflexive(r.timestamp);
                        }
                    } else {
                        assert(pre[j] == rs[j]);
                        if m == r && newest(pre, tc, p) is Some {
                            let old = newest(pre, tc, p)->0;
                            if name_lt(r.timestamp, rs[j].timestamp) {
                                crate::names::lemma_name_lt_transitive(old.timestamp, r.timestamp, rs[j].timestamp);
                            }
                        } else if m == r {
                            assert(newest(pre, tc, p) is None);
                        }
                    }
                }
            },
            None => {},
        }
    }
}

/// The latest runs hold each (test case, platform) key once, and no run of
/// a kept key is newer than the one kept.
pub proof fn law_latest_is_newest(rs: Seq<RunSpec>, out: Seq<RunSpec>)
    requires
        latest_of(rs, out),
    ensures
        forall|k: int, j: int|
            0 <= k < out.len() && 0 <= j < rs.len() && same_key(rs[j], out[k]) ==> !name_lt(
                #[trigger] out[k].timestamp,
                #[trigger] rs[j].timestamp,
            ),
        forall|k1: int, k2: int|
            0 <= k1 < out.len() && 0 <= k2 < out.len() && k1 != k2 ==> !same_key(#[trigger] out[k1], #[trigger] out[k2]),
{
    assert forall|k: int, j: int|
        0 <= k < out.len() && 0 <= j < rs.len() && same_key(rs[j], out[k]) implies !name_lt(
            #[trigger] out[k].timestamp,
            #[trigger] rs[j].timestamp,
        ) by {
        lemma_newest_is_latest(rs, out[k].tc_id, out[k].platform);
        assert(newest(rs, out[k].tc_id, out[k].platform) == Some(out[k]));
    }
    assert forall|k1: int, k2: int|
        0 <= k1 < out.len() && 0 <= k2 < out.len() && k1 != k2 implies !same_key(#[trigger] out[k1], #[trigger] out[k2]) by {
        if k1 < k2 {
            assert(key_lt(out[k1], out[k2]));
            if same_key(out[k1], out[k2]) {
                lemma_key_lt_irreflexive(out[k1], out[k2]);
            }
        } else {
            assert(key_lt(out[k2], out[k1]));
            if same_key(out[k1], out[k2]) {
                lemma_key_lt_irreflexive(out[k2], out[k1]);
            }
        }
    }
}

} // verus!
