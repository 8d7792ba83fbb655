//! Character-level helpers: conversions between strings and character
//! vectors, prefix tests, ASCII case folding, and decimal formatting and
//! parsing of integers.

use vstd::prelude::*;
use vstd::string::*;

verus! {

/// The characters of `s`, in order.
pub fn chars_of(s: &str) -> (v: Vec<char>)
    ensures
        v@ == s@,
{
    let n: usize = s.unicode_len();
    let mut v: Vec<char> = Vec::new();
    let mut i: usize = 0;
    while i < n
        invariant
            n == s@.len(),
            i <= n,
            v@ == s@.subrange(0, i as int),
        decreases n - i,
    {
        let c = s.get_char(i);
        v.push(c);
        proof {
            assert(v@ =~= s@.subrange(0, i + 1 as int));
        }
        i = i + 1;
    }
    proof {
        assert(v@ =~= s@);
    }
    v
}

/// Relies on `String` implementing `FromIterator<char>`: collecting the
/// characters of `v` yields the string whose characters are exactly those
/// of `v`, in order.
#[verifier::external_body]
pub fn string_from_chars(v: &Vec<char>) -> (s: String)
    ensures
        s@ == v@,
{
    v.iter().collect()
}

/// Whether two string slices hold the same characters.
pub fn str_eq(a: &str, b: &str) -> (r: bool)
    ensures
        r == (a@ == b@),
{
    let sa = String::from_str(a);
    let sb = String::from_str(b);
    sa == sb
}

/// Whether `v` begins with the characters of `p`.
pub fn starts_with_chars(v: &Vec<char>, p: &Vec<char>) -> (r: bool)
    ensures
        r == (v@.len() >= p@.len() && v@.subrange(0, p@.len() as int) == p@),
{
    if v.len() < p.len() {
        return false;
    }
    let n: usize = p.len();
    let mut i: usize = 0;
    while i < n
        invariant
            n == p@.len(),
            v@.len() >= n,
            i <= n,
            forall|j: int| 0 <= j < i ==> v@[j] == p@[j],
        decreases n - i,
    {
        if v[i] != p[i] {
            proof {
                assert(v@.subrange(0, n as int)[i as int] != p@[i as int]);
            }
            return false;
        }
        i = i + 1;
    }
    proof {
        assert(v@.subrange(0, n as int) =~= p@);
    }
    true
}

/// Whether two character vectors hold the same characters.
pub fn chars_eq(a: &Vec<char>, b: &Vec<char>) -> (r: bool)
    ensures
        r == (a@ == b@),
{
    if a.len() != b.len() {
        return false;
    }
    let n: usize = a.len();
    let mut i: usize = 0;
    while i < n
        invariant
            n == a@.len() == b@.len(),
            i <= n,
            forall|j: int| 0 <= j < i ==> a@[j] == b@[j],
        decreases n - i,
    {
        if a[i] != b[i] {
            return false;
        }
        i = i + 1;
    }
    proof {
        assert(a@ =~= b@);
    }
    true
}

/// The characters `v[from .. to]`, as a fresh vector.
pub fn subvec(v: &Vec<char>, from: usize, to: usize) -> (r: Vec<char>)
    requires
        from <= to <= v@.len(),
    ensures
        r@ == v@.subrange(from as int, to as int),
{
    let mut r: Vec<char> = Vec::new();
    let mut i: usize = from;
    while i < to
        invariant
            from <= i <= to <= v@.len(),
            r@ == v@.subrange(from as int, i as int),
        decreases to - i,
    {
        r.push(v[i]);
        proof {
            assert(r@ =~= v@.subrange(from as int, i + 1 as int));
        }
        i = i + 1;
    }
    r
}

/// The index of the first occurrence of `c` in `s`, or `s.len()` when `c`
/// does not occur.
pub open spec fn idx_of(s: Seq<char>, c: char) -> int
    decreases s.len(),
{
    if s.len() == 0 {
        0
    } else if s[0] == c {
        0
    } else {
        1 + idx_of(s.drop_first(), c)
    }
}

/// `idx_of` is pinned down by its characterization.
pub proof fn lemma_idx_of_is(s: Seq<char>, c: char, k: int)
    requires
        0 <= k <= s.len(),
        k < s.len() ==> s[k] == c,
        forall|j: int| 0 <= j < k ==> s[j] != c,
    ensures
        idx_of(s, c) == k,
    decreases s.len(),
{
    if s.len() == 0 {
    } else if s[0] == c {
        assert(k == 0);
    } else {
        assert(k >= 1);
        lemma_idx_of_is(s.drop_first(), c, k - 1);
    }
}

/// `s` split on `c`: the separators are dropped, empty segments are kept,
/// and a string without separators is one segment.
pub open spec fn split_on(s: Seq<char>, c: char) -> Seq<Seq<char>>
    decreases s.len(),
{
    let i = idx_of(s, c);
    if 0 <= i && i < s.len() {
        seq![s.subrange(0, i)] + split_on(s.subrange(i + 1, s.len() as int), c)
    } else {
        seq![s]
    }
}

/// The views of a sequence of character vectors.
pub open spec fn seq_views(vs: Seq<Vec<char>>) -> Seq<Seq<char>> {
    vs.map_values(|v: Vec<char>| v@)
}

/// Splits `v[from..]` on `sep`.
pub fn split_chars_from(v: &Vec<char>, sep: char, from: usize) -> (r: Vec<Vec<char>>)
    requires
        from <= v@.len(),
    ensures
        seq_views(r@) == split_on(v@.skip(from as int), sep),
    decreases v@.len() - from,
{
    let n: usize = v.len();
    let mut i: usize = from;
    while i < n && v[i] != sep
        invariant
            from <= i <= n == v@.len(),
            forall|j: int| from <= j < i ==> v@[j] != sep,
        decreases n - i,
    {
        i = i + 1;
    }
    let ghost tail = v@.skip(from as int);
    proof {
        assert(forall|j: int| 0 <= j < i - from ==> tail[j] == v@[from + j] && tail[j] != sep);
        if i < n {
            assert(tail[i - from] == v@[i as int]);
        }
        lemma_idx_of_is(tail, sep, i - from);
    }
    let seg = subvec(v, from, i);
    proof {
        assert(seg@ =~= tail.subrange(0, i - from));
    }
    if i == n {
        let mut r: Vec<Vec<char>> = Vec::new();
        r.push(seg);
        proof {
            assert(seq_views(r@) =~= split_on(tail, sep));
        }
        r
    } else {
        let mut rest = split_chars_from(v, sep, i + 1);
        proof {
            assert(v@.skip(i + 1 as int) =~= tail.subrange(i + 1 - from, tail.len() as int));
        }
        rest.insert(0, seg);
        proof {
            assert(seq_views(rest@) =~= split_on(tail, sep));
        }
        rest
    }
}

/// Splits `v` on `sep`.
pub fn split_chars(v: &Vec<char>, sep: char) -> (r: Vec<Vec<char>>)
    ensures
        seq_views(r@) == split_on(v@, sep),
{
    let r = split_chars_from(v, sep, 0);
    proof {
        assert(v@.skip(0) =~= v@);
    }
    r
}

/// A copy of a character vector.
pub fn clone_chars(v: &Vec<char>) -> (r: Vec<char>)
    ensures
        r@ == v@,
{
    let mut r: Vec<char> = Vec::new();
    let n: usize = v.len();
    let mut i: usize = 0;
    while i < n
        invariant
            n == v@.len(),
            i <= n,
            r@ == v@.subrange(0, i as int),
        decreases n - i,
    {
        r.push(v[i]);
        proof {
            assert(r@ =~= v@.subrange(0, i + 1 as int));
        }
        i = i + 1;
    }
    proof {
        assert(r@ =~= v@);
    }
    r
}

pub uninterp spec fn upper_of(c: char) -> Seq<char>;

/// Relies on `char::to_uppercase`: the uppercase mapping of a character
/// depends on the character alone, and its documentation says it yields
/// at least one character (the character itself when it has no mapping).
#[verifier::external_body]
pub fn char_to_uppercase(c: char) -> (s: String)
    ensures
        s@ == upper_of(c),
        s@.len() >= 1,
{
    c.to_uppercase().collect()
}

/// The uppercase form of a whole string: the uppercase mappings of its
/// characters, concatenated in order.
pub open spec fn upper_str(s: Seq<char>) -> Seq<char>
    decreases s.len(),
{
    if s.len() == 0 {
        Seq::empty()
    } else {
        upper_of(s[0]) + upper_str(s.drop_first())
    }
}

/// Uppercasing grows one character at a time from the left.
pub proof fn lemma_upper_str_snoc(s: Seq<char>, i: int)
    requires
        0 <= i < s.len(),
    ensures
        upper_str(s.take(i + 1)) =~= upper_str(s.take(i)) + upper_of(s[i]),
    decreases i,
{
    if i == 0 {
        assert(s.take(0) =~= Seq::<char>::empty());
        assert(s.take(1)[0] == s[0]);
        assert(s.take(1).drop_first() =~= Seq::<char>::empty());
        assert(upper_str(Seq::<char>::empty()) =~= Seq::<char>::empty());
    } else {
        lemma_upper_str_snoc(s.drop_first(), i - 1);
        assert(s.take(i + 1)[0] == s[0]);
        assert(s.take(i + 1).drop_first() =~= s.drop_first().take(i));
        assert(s.take(i)[0] == s[0]);
        assert(s.take(i).drop_first() =~= s.drop_first().take(i - 1));
        assert(s.drop_first()[i - 1] == s[i]);
    }
}

/// The uppercase form of a string, executably; each character goes
/// through the trusted uppercase mapping.
pub fn to_upper_string(s: &str) -> (r: String)
    ensures
        r@ == upper_str(s@),
{
    let v = chars_of(s);
    let mut r = String::new();
    let n: usize = v.len();
    let mut i: usize = 0;
    while i < n
        invariant
            n == v@.len(),
            v@ == s@,
            i <= n,
            r@ == upper_str(v@.take(i as int)),
        decreases n - i,
    {
        let u = char_to_uppercase(v[i]);
        r.append(u.as_str());
        proof {
            lemma_upper_str_snoc(v@, i as int);
        }
        i = i + 1;
    }
    proof {
        assert(v@.take(n as int) =~= v@);
    }
    r
}

/// ASCII lower-case folding of one character; every other character is
/// left as it is.
pub open spec fn lower_ascii_char(c: char) -> char {
    if 'A' <= c && c <= 'Z' {
        (((c as u8) + 32) as u8) as char
    } else {
        c
    }
}

/// ASCII lower-case folding of a character sequence.
pub open spec fn lower_ascii(s: Seq<char>) -> Seq<char> {
    s.map_values(|c: char| lower_ascii_char(c))
}

/// Executable ASCII lower-case folding of one character.
pub fn lower_ascii_char_exec(c: char) -> (r: char)
    ensures
        r == lower_ascii_char(c),
{
    if 'A' <= c && c <= 'Z' {
        ((c as u8) + 32) as char
    } else {
        c
    }
}

/// Whether `needle` occurs in `hay` once both are ASCII-lowercased.
pub open spec fn contains_ci(hay: Seq<char>, needle: Seq<char>) -> bool {
    exists|k: int|
        0 <= k && k + needle.len() <= hay.len() && #[trigger] lower_ascii(hay).subrange(
            k,
            k + needle.len(),
        ) == lower_ascii(needle)
}

/// Looks for `needle` in `hay`, both folded to ASCII lower case.
pub fn chars_contains_ci(hay: &Vec<char>, needle: &Vec<char>) -> (r: bool)
    ensures
        r == contains_ci(hay@, needle@),
{
    let n: usize = hay.len();
    let m: usize = needle.len();
    if m > n {
        proof {
            assert(!contains_ci(hay@, needle@));
        }
        return false;
    }
    if m == 0 {
        proof {
            assert(lower_ascii(hay@).subrange(0, 0 + needle@.len() as int) =~= lower_ascii(
                needle@,
            ));
        }
        return true;
    }
    let mut k: usize = 0;
    while k <= n - m
        invariant
            1 <= m <= n == hay@.len(),
            m == needle@.len(),
            k <= n - m + 1,
            forall|p: int|
                0 <= p < k ==> #[trigger] lower_ascii(hay@).subrange(p, p + m) != lower_ascii(
                    needle@,
                ),
        decreases n - m - k + 1,
    {
        let mut j: usize = 0;
        let mut ok = true;
        while j < m
            invariant
                ok ==> forall|q: int|
                    0 <= q < j ==> lower_ascii(hay@)[k + q] == lower_ascii(needle@)[q],
                !ok ==> lower_ascii(hay@).subrange(k as int, k + m) != lower_ascii(needle@),
                j <= m == needle@.len(),
                k + m <= n == hay@.len(),
            decreases m - j,
        {
            let hc = lower_ascii_char_exec(hay[k + j]);
            let nc = lower_ascii_char_exec(needle[j]);
            if hc != nc {
                ok = false;
                proof {
                    assert(lower_ascii(hay@)[k + j] != lower_ascii(needle@)[j as int]);
                    assert(lower_ascii(hay@).subrange(k as int, k + m)[j as int] == lower_ascii(
                        hay@,
                    )[k + j]);
                }
                j = m;
            } else {
                j = j + 1;
            }
        }
        if ok {
            proof {
                assert(lower_ascii(hay@).subrange(k as int, k + m) =~= lower_ascii(needle@));
            }
            return true;
        }
        k = k + 1;
    }
    proof {
        assert forall|p: int|
            0 <= p && p + needle@.len() <= hay@.len() implies #[trigger] lower_ascii(
            hay@,
        ).subrange(p, p + needle@.len()) != lower_ascii(needle@) by {
            assert(p < k);
        }
    }
    false
}

pub open spec fn is_digit(c: char) -> bool {
    '0' <= c && c <= '9'
}

pub open spec fn digit_val(c: char) -> int {
    c as int - 48
}

pub open spec fn digit_char(d: int) -> char {
    ((d + 48) as u8) as char
}

/// The decimal digits of `n`, most significant first.
pub open spec fn dec_chars(n: nat) -> Seq<char>
    decreases n,
{
    if n < 10 {
        seq![digit_char(n as int)]
    } else {
        dec_chars(n / 10) + seq![digit_char((n % 10) as int)]
    }
}

/// The value of a sequence of decimal digits.
pub open spec fn dec_val(s: Seq<char>) -> int
    decreases s.len(),
{
    if s.len() == 0 {
        0
    } else {
        dec_val(s.drop_last()) * 10 + digit_val(s.last())
    }
}

pub open spec fn all_digits(s: Seq<char>) -> bool {
    forall|i: int| 0 <= i < s.len() ==> is_digit(#[trigger] s[i])
}

pub proof fn lemma_dec_chars_digits(n: nat)
    ensures
        dec_chars(n).len() >= 1,
        all_digits(dec_chars(n)),
    decreases n,
{
    if n < 10 {
        assert(is_digit(digit_char(n as int)));
    } else {
        lemma_dec_chars_digits(n / 10);
        assert(0 <= n % 10 < 10);
        assert(is_digit(digit_char((n % 10) as int)));
    }
}

pub proof fn lemma_dec_val_of_dec_chars(n: nat)
    ensures
        dec_val(dec_chars(n)) == n,
    decreases n,
{
    if n < 10 {
        let s = dec_chars(n);
        assert(s.len() == 1);
        assert(s.drop_last() =~= Seq::<char>::empty());
        assert(digit_char(n as int) as int == n + 48);
        assert(digit_val(digit_char(n as int)) == n);
        assert(dec_val(s) == dec_val(s.drop_last()) * 10 + digit_val(s.last()));
        assert(s.last() == digit_char(n as int));
    } else {
        lemma_dec_val_of_dec_chars(n / 10);
        let hi = dec_chars(n / 10);
        let s = hi + seq![digit_char((n % 10) as int)];
        assert(s.drop_last() =~= hi);
        assert(s.last() == digit_char((n % 10) as int));
        assert(digit_val(digit_char((n % 10) as int)) == n % 10);
        assert(dec_val(s) == dec_val(hi) * 10 + n % 10);
        assert(n / 10 * 10 + n % 10 == n) by (nonlinear_arith);
    }
}

/// The decimal digits of `n`, as characters.
pub fn u64_to_chars(n: u64) -> (v: Vec<char>)
    ensures
        v@ == dec_chars(n as nat),
    decreases n,
{
    if n < 10 {
        let d: char = ((n as u8) + 48) as char;
        proof {
            assert(d == digit_char(n as int));
        }
        let mut v: Vec<char> = Vec::new();
        v.push(d);
        proof {
            assert(v@ =~= dec_chars(n as nat));
        }
        v
    } else {
        let mut v = u64_to_chars(n / 10);
        let d: char = (((n % 10) as u8) + 48) as char;
        proof {
            assert(d == digit_char((n % 10) as int));
        }
        v.push(d);
        proof {
            assert(v@ =~= dec_chars(n as nat));
        }
        v
    }
}

/// The decimal digits of `n`, as a string.
pub fn u64_to_string(n: u64) -> (s: String)
    ensures
        s@ == dec_chars(n as nat),
{
    let v = u64_to_chars(n);
    string_from_chars(&v)
}

/// The index of the last occurrence of `c` in `s`, or `-1` when `c` does
/// not occur.
pub open spec fn last_idx_of(s: Seq<char>, c: char) -> int
    decreases s.len(),
{
    if s.len() == 0 {
        -1
    } else if s.last() == c {
        s.len() - 1
    } else {
        last_idx_of(s.drop_last(), c)
    }
}

pub proof fn lemma_last_idx_of(s: Seq<char>, c: char)
    ensures
        -1 <= last_idx_of(s, c) < s.len(),
        last_idx_of(s, c) >= 0 ==> s[last_idx_of(s, c)] == c,
        forall|j: int| last_idx_of(s, c) < j < s.len() ==> s[j] != c,
    decreases s.len(),
{
    if s.len() > 0 && s.last() != c {
        lemma_last_idx_of(s.drop_last(), c);
        assert(forall|j: int|
            last_idx_of(s, c) < j < s.len() - 1 ==> s[j] == s.drop_last()[j] && s.drop_last()[j]
                != c);
    }
}

/// `last_idx_of` is pinned down by its characterization.
pub proof fn lemma_last_idx_of_is(s: Seq<char>, c: char, k: int)
    requires
        -1 <= k < s.len(),
        k >= 0 ==> s[k] == c,
        forall|j: int| k < j < s.len() ==> s[j] != c,
    ensures
        last_idx_of(s, c) == k,
    decreases s.len(),
{
    if s.len() == 0 {
    } else if s.last() == c {
        assert(k == s.len() - 1);
    } else {
        assert(k < s.len() - 1);
        assert(forall|j: int| k < j < s.len() - 1 ==> s.drop_last()[j] == s[j]);
        lemma_last_idx_of_is(s.drop_last(), c, k);
    }
}

/// The decimal form of an integer, with a leading minus sign when it is
/// negative.
pub open spec fn int_chars(v: int) -> Seq<char> {
    if v < 0 {
        seq!['-'] + dec_chars((-v) as nat)
    } else {
        dec_chars(v as nat)
    }
}

/// The decimal form of `n`, as characters.
pub fn i64_to_chars(n: i64) -> (v: Vec<char>)
    ensures
        v@ == int_chars(n as int),
{
    if n < 0 {
        let m: u64 = if n == i64::MIN {
            9223372036854775808u64
        } else {
            (-n) as u64
        };
        proof {
            assert(m == -(n as int));
        }
        let mut v: Vec<char> = Vec::new();
        v.push('-');
        let mut ds = u64_to_chars(m);
        v.append(&mut ds);
        proof {
            assert(v@ =~= int_chars(n as int));
        }
        v
    } else {
        u64_to_chars(n as u64)
    }
}

/// The value of the digit sequence `s`, saturated at `u64::MAX`.
pub open spec fn dec_val_sat(s: Seq<char>) -> u64 {
    if dec_val(s) > u64::MAX {
        u64::MAX
    } else {
        dec_val(s) as u64
    }
}

pub proof fn lemma_dec_val_nonneg(s: Seq<char>)
    requires
        all_digits(s),
    ensures
        dec_val(s) >= 0,
    decreases s.len(),
{
    if s.len() > 0 {
        assert(all_digits(s.drop_last()));
        lemma_dec_val_nonneg(s.drop_last());
        assert(is_digit(s.last()));
    }
}

/// A digit string of at most four digits denotes at most 9999.
pub proof fn lemma_dec_val_small(s: Seq<char>)
    requires
        all_digits(s),
        s.len() <= 4,
    ensures
        0 <= dec_val(s) <= 9999,
        s.len() <= 3 ==> dec_val(s) <= 999,
        s.len() <= 2 ==> dec_val(s) <= 99,
        s.len() <= 1 ==> dec_val(s) <= 9,
    decreases s.len(),
{
    if s.len() > 0 {
        assert(all_digits(s.drop_last()));
        lemma_dec_val_small(s.drop_last());
        assert(is_digit(s.last()));
    }
}

/// Reads the digits `v[from .. to]` as a decimal number, saturated at
/// `u64::MAX`.
pub fn parse_digits_sat(v: &Vec<char>, from: usize, to: usize) -> (r: u64)
    requires
        from <= to <= v@.len(),
        all_digits(v@.subrange(from as int, to as int)),
    ensures
        r == dec_val_sat(v@.subrange(from as int, to as int)),
{
    let mut acc: u64 = 0;
    let mut i: usize = from;
    proof {
        assert(v@.subrange(from as int, from as int) =~= Seq::<char>::empty());
    }
    while i < to
        invariant
            from <= i <= to <= v@.len(),
            all_digits(v@.subrange(from as int, to as int)),
            acc == dec_val_sat(v@.subrange(from as int, i as int)),
        decreases to - i,
    {
        let ghost pre = v@.subrange(from as int, i as int);
        let ghost cur = v@.subrange(from as int, i + 1 as int);
        proof {
            assert(cur.drop_last() =~= pre);
            assert(cur.last() == v@[i as int]);
            assert(v@.subrange(from as int, to as int)[i - from] == v@[i as int]);
            assert(is_digit(v@[i as int]));
            assert(forall|j: int| 0 <= j < pre.len() ==> pre[j] == v@.subrange(
                from as int,
                to as int,
            )[j]);
            assert(all_digits(pre));
            lemma_dec_val_nonneg(pre);
        }
        let c = v[i];
        let d: u64 = (c as u64) - 48;
        proof {
            assert(d == digit_val(c));
            assert(dec_val(cur) == dec_val(pre) * 10 + digit_val(c));
            if dec_val(pre) > u64::MAX {
                assert(dec_val(pre) * 10 >= dec_val(pre)) by (nonlinear_arith)
                    requires
                        dec_val(pre) >= 0,
                ;
                assert(dec_val(cur) > u64::MAX);
            }
        }
        acc = match acc.checked_mul(10) {
            Some(x) => match x.checked_add(d) {
                Some(y) => y,
                None => u64::MAX,
            },
            None => u64::MAX,
        };
        proof {
            if dec_val(pre) <= u64::MAX && dec_val(pre) * 10 + digit_val(c) > u64::MAX {
                assert(dec_val(cur) > u64::MAX);
            }
        }
        i = i + 1;
    }
    proof {
        assert(v@.subrange(from as int, to as int) =~= v@.subrange(from as int, i as int));
    }
    acc
}

} // verus!
