//! String utilities of the track-list manager: deriving a clean display
//! label from a filename, reading configuration values from strings, and
//! the bounded move-to-front list that backs the history and the
//! recently-used-files menu.

use vstd::prelude::*;
use vstd::string::*;
use crate::chars::{
    all_digits, chars_eq, chars_of, char_to_uppercase, dec_chars, dec_val, dec_val_sat, digit_val,
    i64_to_chars, int_chars, is_digit, last_idx_of, lemma_last_idx_of, lemma_last_idx_of_is,
    parse_digits_sat, string_from_chars, subvec, upper_of, upper_str,
};
use std::collections::VecDeque;

verus! {

/// Whether a character is trimmed from the ends of a label.
pub open spec fn is_trim_char(c: char) -> bool {
    c == '-' || c == '_' || c == ' '
}

/// Whether a character is trimmed from the start of a label: separators
/// and leading track numbers.
pub open spec fn is_lead_char(c: char) -> bool {
    is_trim_char(c) || is_digit(c)
}

/// The separators that become spaces in a display label.
pub open spec fn is_sep_char(c: char) -> bool {
    c == '-' || c == '_' || c == '/' || c == '\\'
}

/// The end of `s` once characters satisfying `p` are trimmed from the
/// right.
pub open spec fn trim_end_idx(s: Seq<char>, p: spec_fn(char) -> bool) -> int
    decreases s.len(),
{
    if s.len() > 0 && p(s.last()) {
        trim_end_idx(s.drop_last(), p)
    } else {
        s.len() as int
    }
}

pub proof fn lemma_trim_end_idx_is(s: Seq<char>, p: spec_fn(char) -> bool, k: int)
    requires
        0 <= k <= s.len(),
        forall|j: int| k <= j < s.len() ==> p(s[j]),
        k > 0 ==> !p(s[k - 1]),
    ensures
        trim_end_idx(s, p) == k,
    decreases s.len(),
{
    if s.len() > 0 && p(s.last()) {
        assert(k < s.len());
        assert(forall|j: int| k <= j < s.len() - 1 ==> s.drop_last()[j] == s[j]);
        lemma_trim_end_idx_is(s.drop_last(), p, k);
    } else {
        assert(k == s.len());
    }
}

/// The start of `s` once characters satisfying `p` are trimmed from the
/// left.
pub open spec fn trim_start_idx(s: Seq<char>, p: spec_fn(char) -> bool) -> int
    decreases s.len(),
{
    if s.len() > 0 && p(s[0]) {
        1 + trim_start_idx(s.drop_first(), p)
    } else {
        0
    }
}

pub proof fn lemma_trim_start_idx(s: Seq<char>, p: spec_fn(char) -> bool)
    ensures
        0 <= trim_start_idx(s, p) <= s.len(),
        forall|j: int| 0 <= j < trim_start_idx(s, p) ==> p(s[j]),
        trim_start_idx(s, p) < s.len() ==> !p(s[trim_start_idx(s, p)]),
    decreases s.len(),
{
    if s.len() > 0 && p(s[0]) {
        lemma_trim_start_idx(s.drop_first(), p);
        assert forall|j: int| 1 <= j < trim_start_idx(s, p) implies p(s[j]) by {
            assert(s.drop_first()[j - 1] == s[j]);
        }
        if trim_start_idx(s, p) < s.len() {
            assert(s[trim_start_idx(s, p)] == s.drop_first()[trim_start_idx(s, p) - 1]);
        }
    }
}

pub proof fn lemma_trim_start_idx_is(s: Seq<char>, p: spec_fn(char) -> bool, k: int)
    requires
        0 <= k <= s.len(),
        forall|j: int| 0 <= j < k ==> p(s[j]),
        k < s.len() ==> !p(s[k]),
    ensures
        trim_start_idx(s, p) == k,
    decreases s.len(),
{
    if s.len() > 0 && p(s[0]) {
        assert(k >= 1);
        assert(forall|j: int| 0 <= j < k - 1 ==> s.drop_first()[j] == s[j + 1]);
        lemma_trim_start_idx_is(s.drop_first(), p, k - 1);
    }
}

/// A path with trailing slashes and trailing current-directory
/// components read away, the way the standard path type reads names:
/// `a/.//` names `a`, and `.` alone names nothing.
pub open spec fn strip_dots(s: Seq<char>) -> Seq<char>
    decreases s.len(),
{
    let k = trim_end_idx(s, |c: char| c == '/');
    let t = if 0 <= k <= s.len() {
        s.subrange(0, k)
    } else {
        s
    };
    if t == seq!['.'] {
        Seq::empty()
    } else if t.len() >= 2 && t.last() == '.' && t[t.len() - 2] == '/' {
        strip_dots(t.drop_last())
    } else {
        t
    }
}

/// The last path component of `s`: what follows the final slash once
/// trailing slashes and current-directory components are read away.
pub open spec fn component_of(s: Seq<char>) -> Seq<char> {
    let t = strip_dots(s);
    t.subrange(last_idx_of(t, '/') + 1, t.len() as int)
}

/// Whether a final component names a file at all: the parent-directory
/// component does not, and neither does an empty one.
pub open spec fn usable_component(comp: Seq<char>) -> bool {
    comp.len() > 0 && comp != seq!['.', '.']
}

/// The stem of a path component: what precedes the final dot, unless the
/// dot opens the component.
pub open spec fn stem_of_component(comp: Seq<char>) -> Seq<char> {
    let k = last_idx_of(comp, '.');
    if k > 0 {
        comp.subrange(0, k)
    } else {
        comp
    }
}

/// The stem of a path: empty when the path has no usable last component.
pub open spec fn stem_of(s: Seq<char>) -> Seq<char> {
    if usable_component(component_of(s)) {
        stem_of_component(component_of(s))
    } else {
        Seq::empty()
    }
}

/// The stem of a path, falling back to the whole path when the path has
/// no usable last component.
pub open spec fn file_stem_of(s: Seq<char>) -> Seq<char> {
    if usable_component(component_of(s)) {
        stem_of_component(component_of(s))
    } else {
        s
    }
}

/// A display label derived from a filename: the stem of the path, with
/// trailing separators dropped, then any leading track number and
/// separators dropped (unless that would empty the label), and the
/// remaining separators turned into spaces.
pub open spec fn canonical_label(s: Seq<char>) -> Seq<char> {
    let stem = stem_of(s);
    let t1 = stem.subrange(0, trim_end_idx(stem, |c: char| is_trim_char(c)));
    let lead = trim_start_idx(t1, |c: char| is_lead_char(c));
    let t2 = t1.subrange(lead, t1.len() as int);
    let kept = if t2.len() > 0 {
        t2
    } else {
        t1
    };
    kept.map_values(|c: char| if is_sep_char(c) { ' ' } else { c })
}

/// The characters of the last path component's stem of `v`, as indices
/// into `v`: helper shared by the executable stem functions.  The bounds
/// are equal exactly when the path has no usable component.
fn stem_bounds(v: &Vec<char>) -> (r: (usize, usize))
    ensures
        r.0 <= r.1 <= v@.len(),
        v@.subrange(r.0 as int, r.1 as int) == stem_of(v@),
        (r.0 == r.1) == !usable_component(component_of(v@)),
{
    let n: usize = v.len();
    // Read away trailing slashes and current-directory components.
    let mut e: usize = n;
    let mut done: bool = false;
    proof {
        assert(v@.subrange(0, n as int) =~= v@);
    }
    while !done
        invariant
            e <= n == v@.len(),
            strip_dots(v@) == strip_dots(v@.subrange(0, e as int)),
            done ==> strip_dots(v@) == v@.subrange(0, e as int),
        decreases 2 * e + (if done {
            0int
        } else {
            1int
        }),
    {
        let ghost e0 = e;
        while e > 0 && v[e - 1] == '/'
            invariant
                e <= e0 <= n == v@.len(),
                forall|j: int| e <= j < e0 ==> v@[j] == '/',
            decreases e,
        {
            e = e - 1;
        }
        let ghost s0 = v@.subrange(0, e0 as int);
        let ghost t = v@.subrange(0, e as int);
        proof {
            assert(forall|j: int| 0 <= j < e0 ==> s0[j] == v@[j]);
            lemma_trim_end_idx_is(s0, |c: char| c == '/', e as int);
            assert(s0.subrange(0, e as int) =~= t);
        }
        if e == 1 && v[0] == '.' {
            e = 0;
            done = true;
            proof {
                assert(t =~= seq!['.']);
                assert(strip_dots(s0) == Seq::<char>::empty());
                let emp = v@.subrange(0, 0);
                assert(emp =~= Seq::<char>::empty());
                lemma_trim_end_idx_is(emp, |c: char| c == '/', 0);
                assert(emp.subrange(0, 0) =~= emp);
                assert(strip_dots(emp) == emp);
            }
        } else if e >= 2 && v[e - 1] == '.' && v[e - 2] == '/' {
            proof {
                assert(t != seq!['.']);
                assert(t.last() == '.' && t[t.len() - 2] == '/');
                assert(t.drop_last() =~= v@.subrange(0, e - 1));
                assert(strip_dots(s0) == strip_dots(v@.subrange(0, e - 1)));
            }
            e = e - 1;
        } else {
            done = true;
            proof {
                if t == seq!['.'] {
                    assert(t.len() == 1 && t[0] == '.');
                    assert(v@[0] == '.');
                    assert(false);
                }
                assert(strip_dots(s0) == t);
                assert(forall|j: int| 0 <= j < e ==> t[j] == v@[j]);
                lemma_trim_end_idx_is(t, |c: char| c == '/', e as int);
                assert(t.subrange(0, e as int) =~= t);
                assert(strip_dots(t) == t);
            }
        }
    }
    let ghost sd = strip_dots(v@);
    proof {
        assert(sd == v@.subrange(0, e as int));
    }
    // Find the final slash before the component.
    let mut a: usize = e;
    while a > 0 && v[a - 1] != '/'
        invariant
            a <= e <= v@.len(),
            sd == v@.subrange(0, e as int),
            forall|j: int| a <= j < e ==> v@[j] != '/',
        decreases a,
    {
        a = a - 1;
    }
    let ghost comp = component_of(v@);
    proof {
        assert(forall|j: int| 0 <= j < e ==> sd[j] == v@[j]);
        lemma_last_idx_of_is(sd, '/', a - 1);
        assert(comp =~= v@.subrange(a as int, e as int));
    }
    // A parent-directory or empty component names nothing.
    let usable: bool = e > a && !(e - a == 2 && v[a] == '.' && v[a + 1] == '.');
    proof {
        if e - a == 2 && v@[a as int] == '.' && v@[a + 1 as int] == '.' {
            assert(comp =~= seq!['.', '.']);
        }
        if comp == seq!['.', '.'] {
            assert(comp.len() == 2 && comp[0] == '.' && comp[1] == '.');
        }
        assert(usable == usable_component(comp));
    }
    if !usable {
        proof {
            assert(v@.subrange(0, 0) =~= Seq::<char>::empty());
        }
        return (0, 0);
    }
    // Cut the extension at the final dot, unless it opens the component.
    let mut k: usize = e;
    while k > a && v[k - 1] != '.'
        invariant
            a <= k <= e <= v@.len(),
            forall|j: int| k <= j < e ==> v@[j] != '.',
        decreases k,
    {
        k = k - 1;
    }
    let b: usize = if k > a + 1 {
        k - 1
    } else {
        e
    };
    proof {
        assert(forall|j: int| 0 <= j < comp.len() ==> comp[j] == v@[a + j]);
        if k > a {
            lemma_last_idx_of_is(comp, '.', k - 1 - a);
        } else {
            lemma_last_idx_of_is(comp, '.', -1);
        }
        assert(stem_of(v@) =~= v@.subrange(a as int, b as int));
        assert(b > a);
    }
    (a, b)
}

/// The file stem of `filename`: the last path component without its
/// extension, or the whole string when there is no usable component —
/// an empty name, or one naming the current or the parent directory.
pub fn file_stem(filename: &str) -> (r: String)
    ensures
        r@ == file_stem_of(filename@),
{
    let v = chars_of(filename);
    let (a, b) = stem_bounds(&v);
    if a == b {
        String::from_str(filename)
    } else {
        let sub = subvec(&v, a, b);
        string_from_chars(&sub)
    }
}

/// The canonical display label of a track filename.
pub fn canonicalize(track: &str) -> (r: String)
    ensures
        r@ == canonical_label(track@),
{
    let v = chars_of(track);
    let (a, b) = stem_bounds(&v);
    let ghost stem = stem_of(track@);
    proof {
        assert(forall|j: int| 0 <= j < b - a ==> stem[j] == v@[a + j]);
    }
    // Trim separators from the right of the stem.
    let mut e: usize = b;
    while e > a && (v[e - 1] == '-' || v[e - 1] == '_' || v[e - 1] == ' ')
        invariant
            a <= e <= b <= v@.len(),
            forall|j: int| e <= j < b ==> is_trim_char(v@[j]),
        decreases e,
    {
        e = e - 1;
    }
    proof {
        lemma_trim_end_idx_is(stem, |c: char| is_trim_char(c), e - a);
    }
    let ghost t1 = stem.subrange(0, e - a);
    proof {
        assert(forall|j: int| 0 <= j < e - a ==> t1[j] == v@[a + j]);
    }
    // Trim separators and track-number digits from the left.
    let mut s: usize = a;
    while s < e && (v[s] == '-' || v[s] == '_' || v[s] == ' ' || ('0' <= v[s] && v[s] <= '9'))
        invariant
            a <= s <= e <= v@.len(),
            forall|j: int| a <= j < s ==> is_lead_char(v@[j]),
        decreases e - s,
    {
        s = s + 1;
    }
    proof {
        lemma_trim_start_idx_is(t1, |c: char| is_lead_char(c), s - a);
    }
    let (from, to): (usize, usize) = if s < e {
        (s, e)
    } else {
        (a, e)
    };
    let ghost t2 = t1.subrange(s - a, t1.len() as int);
    let ghost kept = if t2.len() > 0 {
        t2
    } else {
        t1
    };
    proof {
        assert(kept =~= v@.subrange(from as int, to as int));
    }
    // Turn the remaining separators into spaces.
    let mut out: Vec<char> = Vec::new();
    let mut i: usize = from;
    while i < to
        invariant
            from <= i <= to <= v@.len(),
            kept == v@.subrange(from as int, to as int),
            out@.len() == i - from,
            forall|j: int|
                0 <= j < i - from ==> out@[j] == (if is_sep_char(kept[j]) {
                    ' '
                } else {
                    kept[j]
                }),
        decreases to - i,
    {
        let c = v[i];
        if c == '-' || c == '_' || c == '/' || c == '\\' {
            out.push(' ');
        } else {
            out.push(c);
        }
        i = i + 1;
    }
    proof {
        assert(out@ =~= canonical_label(track@));
    }
    string_from_chars(&out)
}

/// The string with its first character uppercased; empty stays empty.
pub fn capitalize_first(s: &str) -> (r: String)
    ensures
        s@.len() == 0 ==> r@ == Seq::<char>::empty(),
        s@.len() > 0 ==> r@ == upper_of(s@[0]) + s@.skip(1),
{
    let n = s.unicode_len();
    if n == 0 {
        String::new()
    } else {
        let c = s.get_char(0);
        let mut r = char_to_uppercase(c);
        let rest = s.substring_char(1, n);
        r.append(rest);
        r
    }
}

/// Whether a configuration string means "true": the digit one, or a
/// string whose uppercase form — each character through its full
/// uppercase mapping — is `T`, `TRUE`, `Y` or `YES`.
pub open spec fn is_true_flag(s: Seq<char>) -> bool {
    ||| s == seq!['1']
    ||| upper_str(s) == seq!['T']
    ||| upper_str(s) == seq!['T', 'R', 'U', 'E']
    ||| upper_str(s) == seq!['Y']
    ||| upper_str(s) == seq!['Y', 'E', 'S']
}

/// Reads a boolean configuration value.
pub fn get_bool(s: &str) -> (r: bool)
    ensures
        r == is_true_flag(s@),
{
    let v = chars_of(s);
    let mut one: Vec<char> = Vec::new();
    one.push('1');
    if chars_eq(&v, &one) {
        proof {
            assert(v@ =~= seq!['1']);
        }
        return true;
    }
    let upper = crate::chars::to_upper_string(s);
    let up = chars_of(upper.as_str());
    let mut t: Vec<char> = Vec::new();
    t.push('T');
    let mut tr: Vec<char> = Vec::new();
    tr.push('T');
    tr.push('R');
    tr.push('U');
    tr.push('E');
    let mut y: Vec<char> = Vec::new();
    y.push('Y');
    let mut ys: Vec<char> = Vec::new();
    ys.push('Y');
    ys.push('E');
    ys.push('S');
    let r = chars_eq(&up, &t) || chars_eq(&up, &tr) || chars_eq(&up, &y) || chars_eq(&up, &ys);
    proof {
        assert(up@ == upper_str(s@));
        assert(t@ =~= seq!['T']);
        assert(tr@ =~= seq!['T', 'R', 'U', 'E']);
        assert(y@ =~= seq!['Y']);
        assert(ys@ =~= seq!['Y', 'E', 'S']);
        assert(v@ != seq!['1']);
    }
    r
}

/// The signed integer a string denotes: an optional sign, then decimal
/// digits, within the `i64` range.
pub open spec fn parse_i64(s: Seq<char>) -> Option<int> {
    let (neg, ds) = if s.len() > 0 && (s[0] == '-' || s[0] == '+') {
        (s[0] == '-', s.drop_first())
    } else {
        (false, s)
    };
    if ds.len() == 0 || !all_digits(ds) {
        None
    } else {
        let v = if neg {
            -dec_val(ds)
        } else {
            dec_val(ds)
        };
        if i64::MIN <= v <= i64::MAX {
            Some(v)
        } else {
            None
        }
    }
}

/// The number a configuration string denotes when it lies between
/// `minimum` and `maximum`, and `default` otherwise.
pub open spec fn get_num_spec(s: Seq<char>, minimum: i64, maximum: i64, default: i64) -> i64 {
    match parse_i64(s) {
        Some(v) => if minimum <= v <= maximum {
            v as i64
        } else {
            default
        },
        None => default,
    }
}

/// Reads a bounded integer configuration value, with a fallback.
pub fn get_num(s: &str, minimum: i64, maximum: i64, default: i64) -> (r: i64)
    ensures
        r == get_num_spec(s@, minimum, maximum, default),
{
    let v = chars_of(s);
    let n: usize = v.len();
    let (neg, from): (bool, usize) = if n > 0 && (v[0] == '-' || v[0] == '+') {
        (v[0] == '-', 1)
    } else {
        (false, 0)
    };
    let ghost ds = if from == 1 {
        s@.drop_first()
    } else {
        s@
    };
    proof {
        assert(ds =~= v@.subrange(from as int, n as int));
    }
    if from == n {
        return default;
    }
    // Reject any non-digit.
    let mut i: usize = from;
    while i < n
        invariant
            from <= i <= n == v@.len(),
            v@ == s@,
            from <= 1,
            ds == v@.subrange(from as int, n as int),
            ds == (if from == 1 {
                s@.drop_first()
            } else {
                s@
            }),
            from == 1 ==> s@.len() > 0 && (s@[0] == '-' || s@[0] == '+'),
            from == 0 ==> s@.len() == 0 || !(s@[0] == '-' || s@[0] == '+'),
            forall|j: int| from <= j < i ==> is_digit(v@[j]),
        decreases n - i,
    {
        let c = v[i];
        if !('0' <= c && c <= '9') {
            proof {
                assert(ds[i - from] == v@[i as int]);
                assert(!all_digits(ds));
            }
            return default;
        }
        i = i + 1;
    }
    proof {
        assert(all_digits(ds));
    }
    let mag = parse_digits_sat(&v, from, n);
    proof {
        crate::chars::lemma_dec_val_nonneg(ds);
    }
    if neg {
        if mag > 9223372036854775808u64 {
            proof {
                assert(dec_val(ds) > i64::MAX as int + 1);
            }
            return default;
        }
        let val: i64 = if mag == 9223372036854775808u64 {
            i64::MIN
        } else {
            -(mag as i64)
        };
        proof {
            assert(val == -dec_val(ds));
        }
        if minimum <= val && val <= maximum {
            val
        } else {
            default
        }
    } else {
        if mag > i64::MAX as u64 {
            return default;
        }
        let val: i64 = mag as i64;
        if minimum <= val && val <= maximum {
            val
        } else {
            default
        }
    }
}

/// The year at the head of a date string: its first four characters read
/// as a number, zero when they are not one.
pub open spec fn year_of_date(s: Seq<char>) -> int {
    if s.len() >= 4 {
        match parse_i64(s.take(4)) {
            Some(v) => v,
            None => 0,
        }
    } else {
        0
    }
}

/// Reads the year from the head of a tag's date string.
pub fn get_year_from_date(date: &str) -> (r: i32)
    ensures
        r as int == year_of_date(date@),
{
    let v = chars_of(date);
    if v.len() < 4 {
        return 0;
    }
    let head = subvec(&v, 0, 4);
    proof {
        assert(head@ =~= date@.take(4));
    }
    let s = string_from_chars(&head);
    let r = get_num(s.as_str(), -9999, 9999, 0);
    proof {
        let hv = date@.take(4);
        match parse_i64(hv) {
            Some(w) => {
                let ds = if hv[0] == '-' || hv[0] == '+' {
                    hv.drop_first()
                } else {
                    hv
                };
                crate::chars::lemma_dec_val_small(ds);
                assert(-9999 <= w <= 9999);
            },
            None => {},
        }
    }
    r as i32
}

/// The views of a sequence of strings.
pub open spec fn views_of(s: Seq<String>) -> Seq<Seq<char>> {
    s.map_values(|x: String| x@)
}

/// The first index at or after `i` whose element equals `v`, or the
/// length when there is none.
pub open spec fn first_pos(s: Seq<Seq<char>>, v: Seq<char>, i: int) -> int
    decreases s.len() - i,
{
    if i < 0 || i >= s.len() {
        s.len() as int
    } else if s[i] == v {
        i
    } else {
        first_pos(s, v, i + 1)
    }
}

pub proof fn lemma_first_pos(s: Seq<Seq<char>>, v: Seq<char>, i: int)
    requires
        0 <= i <= s.len(),
    ensures
        i <= first_pos(s, v, i) <= s.len(),
        first_pos(s, v, i) < s.len() ==> s[first_pos(s, v, i)] == v,
        forall|j: int| i <= j < first_pos(s, v, i) ==> s[j] != v,
    decreases s.len() - i,
{
    if i < s.len() && s[i] != v {
        lemma_first_pos(s, v, i + 1);
    }
}

pub proof fn lemma_first_pos_is(s: Seq<Seq<char>>, v: Seq<char>, i: int, k: int)
    requires
        0 <= i <= k <= s.len(),
        k < s.len() ==> s[k] == v,
        forall|j: int| i <= j < k ==> s[j] != v,
    ensures
        first_pos(s, v, i) == k,
    decreases s.len() - i,
{
    if i < s.len() && s[i] != v {
        lemma_first_pos_is(s, v, i + 1, k);
    }
}

/// A recency list after recording `v`, capped at `max` entries: an entry
/// already at the front leaves the list as it is; an entry found further
/// back moves to the front; a new entry enters at the front and the list
/// is then truncated to `max`.
pub open spec fn record_seq(s: Seq<Seq<char>>, v: Seq<char>, max: int) -> Seq<Seq<char>> {
    if s.len() > 0 && s[0] == v {
        s
    } else {
        let i = first_pos(s, v, 1);
        let removed = if i < s.len() {
            s.remove(i)
        } else {
            s
        };
        let pushed = seq![v] + removed;
        if pushed.len() > max {
            pushed.take(max)
        } else {
            pushed
        }
    }
}

/// Records `value` in a recency list: move-to-front when present, push
/// and truncate to `max_size` when absent; reports whether the list
/// changed.
pub fn maybe_add_to_deque(deque: &mut VecDeque<String>, value: String, max_size: usize) -> (changed:
    bool)
    ensures
        views_of(final(deque)@) == record_seq(views_of(old(deque)@), value@, max_size as int),
        changed == !(old(deque)@.len() > 0 && old(deque)@[0]@ == value@),
{
    let ghost sv = views_of(deque@);
    let n: usize = deque.len();
    if n > 0 {
        let front = &deque[0];
        if *front == value {
            proof {
                assert(sv[0] == value@);
            }
            return false;
        }
        proof {
            assert(sv[0] != value@);
        }
    }
    // Look for an occurrence beyond the front and drop it.
    let mut pos: usize = n;
    let mut i: usize = 1;
    while i < n
        invariant
            1 <= i <= n || (n == 0 && i == 1),
            n == deque@.len(),
            sv == views_of(deque@),
            pos == n || (1 <= pos < i && sv[pos as int] == value@),
            pos == n ==> forall|j: int| 1 <= j < i ==> sv[j] != value@,
            pos < n ==> forall|j: int| 1 <= j < pos ==> sv[j] != value@,
        decreases n - i,
    {
        if pos == n {
            let cur = &deque[i];
            if *cur == value {
                pos = i;
            }
        }
        i = i + 1;
    }
    let ghost removedv = if pos < n {
        sv.remove(pos as int)
    } else {
        sv
    };
    proof {
        if pos < n {
            lemma_first_pos_is(sv, value@, 1, pos as int);
        } else if n > 0 {
            lemma_first_pos_is(sv, value@, 1, n as int);
        } else {
            assert(first_pos(sv, value@, 1) == 0);
        }
    }
    if pos < n {
        let removed = deque.remove(pos);
        proof {
            assert(views_of(deque@) =~= removedv);
        }
    }
    deque.push_front(value);
    proof {
        assert(views_of(deque@) =~= seq![value@] + removedv);
    }
    let ghost pushedv = views_of(deque@);
    deque.truncate(max_size);
    proof {
        if pushedv.len() > max_size {
            assert(views_of(deque@) =~= pushedv.take(max_size as int));
        }
        assert(views_of(deque@) =~= record_seq(sv, value@, max_size as int));
    }
    true
}

/// The tag data shown for a track: its title, album, artist, track
/// number and year, as read from the audio file's metadata.
pub struct TrackData {
    pub title: String,
    pub album: String,
    pub artist: String,
    pub number: i32,
    pub year: i32,
}

/// The mathematical shape of a track's tag data.
pub struct TrackDataV {
    pub title: Seq<char>,
    pub album: Seq<char>,
    pub artist: Seq<char>,
    pub number: int,
    pub year: int,
}

impl View for TrackData {
    type V = TrackDataV;

    open spec fn view(&self) -> TrackDataV {
        TrackDataV {
            title: self.title@,
            album: self.album@,
            artist: self.artist@,
            number: self.number as int,
            year: self.year as int,
        }
    }
}

/// The display name of a track file: its stem with `_` and `-` as spaces.
pub open spec fn display_name(track: Seq<char>) -> Seq<char> {
    file_stem_of(track).map_values(
        |c: char|
            if c == '_' || c == '-' {
                ' '
            } else {
                c
            },
    )
}

/// The closing line of the track information: the quoted filename.
pub open spec fn html_tail(track: Seq<char>) -> Seq<char> {
    "<font color=#008B8B>\""@ + track + "\"</font>"@
}

/// `t`, ending in a line break.
pub open spec fn with_br(t: Seq<char>) -> Seq<char> {
    if t.len() >= 4 && t.subrange(t.len() - 4, t.len() as int) == "<br>"@ {
        t
    } else {
        t + "<br>"@
    }
}

/// The information panel text for a track: its tag data when some was
/// read, or just its display name and filename.
pub open spec fn track_html(track: Seq<char>, d: Option<TrackDataV>) -> Seq<char> {
    let name = display_name(track);
    match d {
        Option::None => "<font color=navy><b>"@ + name + "</b></font><br>"@ + html_tail(track),
        Option::Some(d) => {
            let head = "<font color=navy><b>"@ + (if d.title.len() > 0 {
                d.title
            } else {
                name
            }) + "</b></font><br>"@;
            let t1 = if d.album.len() > 0 {
                head + "<font color=green>"@ + d.album + "</font>"@
            } else {
                head
            };
            let dot1 = d.album.len() > 0;
            let t2 = if d.number > 0 {
                t1 + "<font color=green>"@ + (if dot1 {
                    seq![' ']
                } else {
                    Seq::empty()
                }) + "(#"@ + dec_chars(d.number as nat) + ")"@ + "</font>"@
            } else {
                t1
            };
            let dot2 = dot1 || d.number > 0;
            let t3 = if dot2 {
                t2 + " • "@
            } else {
                t2
            };
            let t4 = if d.artist.len() > 0 {
                t3 + "<font color=green>"@ + d.artist + "</font>"@
            } else {
                t3
            };
            let dot3 = d.artist.len() > 0;
            let t5 = if d.year != 0 {
                t4 + (if dot3 {
                    " • "@
                } else {
                    Seq::empty()
                }) + "<font color=green>"@ + int_chars(d.year) + "</font>"@
            } else {
                t4
            };
            with_br(t5) + html_tail(track)
        },
    }
}

/// The display name of a track file, executable form.
fn display_name_of(track: &str) -> (name: String)
    ensures
        name@ == display_name(track@),
{
    let stem = file_stem(track);
    let sc = chars_of(stem.as_str());
    let mut namev: Vec<char> = Vec::new();
    let n: usize = sc.len();
    let mut i: usize = 0;
    while i < n
        invariant
            n == sc@.len(),
            i <= n,
            namev@.len() == i,
            forall|j: int|
                0 <= j < i ==> namev@[j] == (if sc@[j] == '_' || sc@[j] == '-' {
                    ' '
                } else {
                    sc@[j]
                }),
        decreases n - i,
    {
        let c = sc[i];
        if c == '_' || c == '-' {
            namev.push(' ');
        } else {
            namev.push(c);
        }
        i = i + 1;
    }
    proof {
        assert(namev@ =~= display_name(track@));
    }
    string_from_chars(&namev)
}

/// Whether the text already ends with a line break.
fn ends_with_br(text: &String) -> (b: bool)
    ensures
        b == (text@.len() >= 4 && text@.subrange(text@.len() - 4, text@.len() as int) == "<br>"@),
{
    let tc = chars_of(text.as_str());
    let m: usize = tc.len();
    let b: bool = m >= 4 && tc[m - 4] == '<' && tc[m - 3] == 'b' && tc[m - 2] == 'r' && tc[m - 1]
        == '>';
    proof {
        reveal_strlit("<br>");
        assert("<br>"@ =~= seq!['<', 'b', 'r', '>']);
        if b {
            assert(text@.subrange(text@.len() - 4, text@.len() as int) =~= "<br>"@);
        } else {
            if text@.len() >= 4 && text@.subrange(text@.len() - 4, text@.len() as int) == "<br>"@ {
                assert(text@[text@.len() - 4] == '<' && text@[text@.len() - 3] == 'b'
                    && text@[text@.len() - 2] == 'r' && text@[text@.len() - 1] == '>');
                assert(false);
            }
        }
    }
    b
}

/// Builds the information panel text for a track from its filename and
/// whatever tag data the caller read from the file.
pub fn get_track_data_html(track: &str, data: Option<&TrackData>) -> (r: String)
    ensures
        r@ == track_html(
            track@,
            match data {
                Option::Some(d) => Option::Some(d@),
                Option::None => Option::None,
            },
        ),
{
    let name = display_name_of(track);
    match data {
        Option::Some(d) => track_html_with_tag(track, &name, d),
        Option::None => {
            let mut text = String::from_str("<font color=navy><b>");
            text.append(name.as_str());
            text.append("</b></font><br>");
            text.append("<font color=#008B8B>\"");
            text.append(track);
            text.append("\"</font>");
            proof {
                assert(text@ =~= track_html(track@, Option::None));
            }
            text
        },
    }
}

/// Builds the information panel text when tag data was read.
#[verifier::rlimit(100)]
#[verifier::spinoff_prover]
fn track_html_with_tag(track: &str, name: &String, d: &TrackData) -> (r: String)
    requires
        name@ == display_name(track@),
    ensures
        r@ == track_html(track@, Option::Some(d@)),
{
    let ghost dv = d@;
    let ghost namesq = display_name(track@);
    let ghost head = "<font color=navy><b>"@ + (if dv.title.len() > 0 {
        dv.title
    } else {
        namesq
    }) + "</b></font><br>"@;
    let mut text = String::from_str("<font color=navy><b>");
    if d.title.as_str().is_empty() {
        text.append(name.as_str());
    } else {
        text.append(d.title.as_str());
    }
    text.append("</b></font><br>");
    proof {
        assert(text@ =~= head);
    }
    let ghost tt1 = if dv.album.len() > 0 {
        head + "<font color=green>"@ + dv.album + "</font>"@
    } else {
        head
    };
    let mut dot = false;
    if !d.album.as_str().is_empty() {
        text.append("<font color=green>");
        text.append(d.album.as_str());
        text.append("</font>");
        dot = true;
    }
    proof {
        assert(text@ =~= tt1);
        assert(dot == (dv.album.len() > 0));
    }
    let ghost tt2 = if dv.number > 0 {
        tt1 + "<font color=green>"@ + (if dv.album.len() > 0 {
            seq![' ']
        } else {
            Seq::<char>::empty()
        }) + "(#"@ + dec_chars(dv.number as nat) + ")"@ + "</font>"@
    } else {
        tt1
    };
    if d.number > 0 {
        text.append("<font color=green>");
        if dot {
            text.append(" ");
        }
        text.append("(#");
        let num = crate::chars::u64_to_string(d.number as u64);
        text.append(num.as_str());
        text.append(")");
        text.append("</font>");
        dot = true;
        proof {
            reveal_strlit(" ");
            assert(" "@ =~= seq![' ']);
        }
    }
    proof {
        assert(text@ =~= tt2);
        assert(dot == (dv.album.len() > 0 || dv.number > 0));
    }
    let ghost tt3 = if dv.album.len() > 0 || dv.number > 0 {
        tt2 + " • "@
    } else {
        tt2
    };
    if dot {
        text.append(" • ");
        dot = false;
    }
    proof {
        assert(text@ =~= tt3);
    }
    let ghost tt4 = if dv.artist.len() > 0 {
        tt3 + "<font color=green>"@ + dv.artist + "</font>"@
    } else {
        tt3
    };
    if !d.artist.as_str().is_empty() {
        text.append("<font color=green>");
        text.append(d.artist.as_str());
        text.append("</font>");
        dot = true;
    }
    proof {
        assert(text@ =~= tt4);
        assert(dot == (dv.artist.len() > 0));
    }
    let ghost tt5 = if dv.year != 0 {
        tt4 + (if dv.artist.len() > 0 {
            " • "@
        } else {
            Seq::<char>::empty()
        }) + "<font color=green>"@ + int_chars(dv.year) + "</font>"@
    } else {
        tt4
    };
    if d.year != 0 {
        if dot {
            text.append(" • ");
        }
        text.append("<font color=green>");
        let yc = i64_to_chars(d.year as i64);
        let ys = string_from_chars(&yc);
        text.append(ys.as_str());
        text.append("</font>");
    }
    proof {
        assert(text@ =~= tt5);
    }
    // Make sure the head ends with a line break.
    let ends_br = ends_with_br(&text);
    if !ends_br {
        text.append("<br>");
    }
    proof {
        assert(text@ == with_br(tt5));
    }
    text.append("<font color=#008B8B>\"");
    text.append(track);
    text.append("\"</font>");
    proof {
        assert(text@ =~= with_br(tt5) + html_tail(track@));
        assert(track_html(track@, Option::Some(dv)) == with_br(tt5) + html_tail(track@));
    }
    text
}

} // verus!
