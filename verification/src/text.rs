//! Character-level text utilities the line scanner is built on: white space,
//! trimming, prefix tests, searching, and unsigned-integer parsing, each
//! specified over the `Seq<char>` view of the text it works on.

use vstd::prelude::*;

verus! {

/// The Unicode white-space set, as `str::trim` understands it.
pub open spec fn is_wspace(c: char) -> bool {
    let u = c as int;
    (9 <= u && u <= 13) || u == 32 || u == 0x85 || u == 0xA0 || u == 0x1680
        || (0x2000 <= u && u <= 0x200A) || u == 0x2028 || u == 0x2029
        || u == 0x202F || u == 0x205F || u == 0x3000
}

pub fn wspace(c: char) -> (r: bool)
    ensures
        r == is_wspace(c),
{
    let u = c as u32;
    (9 <= u && u <= 13) || u == 32 || u == 0x85 || u == 0xA0 || u == 0x1680
        || (0x2000 <= u && u <= 0x200A) || u == 0x2028 || u == 0x2029
        || u == 0x202F || u == 0x205F || u == 0x3000
}

/// Index of the first non-white-space character at or after `i`.
pub open spec fn first_non_ws(s: Seq<char>, i: int) -> int
    decreases s.len() - i when 0 <= i <= s.len()
{
    if i >= s.len() {
        i
    } else if is_wspace(s[i]) {
        first_non_ws(s, i + 1)
    } else {
        i
    }
}

/// One past the last non-white-space character at or before position `j - 1`.
pub open spec fn end_non_ws(s: Seq<char>, j: int) -> int
    decreases j when 0 <= j <= s.len()
{
    if j <= 0 {
        0
    } else if is_wspace(s[j - 1]) {
        end_non_ws(s, j - 1)
    } else {
        j
    }
}

/// What `str::trim` leaves: the text with white space removed from both ends.
pub open spec fn trimmed(s: Seq<char>) -> Seq<char> {
    let a = first_non_ws(s, 0);
    let b = end_non_ws(s, s.len() as int);
    if a <= b {
        s.subrange(a, b)
    } else {
        Seq::empty()
    }
}

proof fn lemma_first_non_ws(s: Seq<char>, j: int, i: int)
    requires
        0 <= j <= i <= s.len(),
        forall|k: int| j <= k < i ==> is_wspace(s[k]),
        i < s.len() ==> !is_wspace(s[i]),
    ensures
        first_non_ws(s, j) == i,
    decreases i - j,
{
    if j < i {
        lemma_first_non_ws(s, j + 1, i);
    }
}

proof fn lemma_end_non_ws(s: Seq<char>, j: int, b: int)
    requires
        0 <= b <= j <= s.len(),
        forall|k: int| b <= k < j ==> is_wspace(s[k]),
        b > 0 ==> !is_wspace(s[b - 1]),
    ensures
        end_non_ws(s, j) == b,
    decreases j - b,
{
    if b < j {
        lemma_end_non_ws(s, j - 1, b);
    }
}

/// `str::trim`, proved against `trimmed`.
pub fn trim<'a>(s: &'a str) -> (r: &'a str)
    ensures
        r@ == trimmed(s@),
{
    let n = s.unicode_len();
    let mut a: usize = 0;
    while a < n && wspace(s.get_char(a))
        invariant
            0 <= a <= n,
            n == s@.len(),
            forall|k: int| 0 <= k < a ==> is_wspace(s@[k]),
        decreases n - a,
    {
        a = a + 1;
    }
    proof {
        lemma_first_non_ws(s@, 0, a as int);
    }
    let mut b: usize = n;
    while b > a && wspace(s.get_char(b - 1))
        invariant
            a <= b <= n,
            n == s@.len(),
            forall|k: int| b <= k < n ==> is_wspace(s@[k]),
        decreases b,
    {
        b = b - 1;
    }
    if b == a {
        proof {
            assert(a == n);
            lemma_end_non_ws(s@, s@.len() as int, 0);
            assert(trimmed(s@) =~= s@.subrange(a as int, b as int));
        }
        let r = s.substring_char(a, b);
        proof {
            assert(r@ =~= trimmed(s@));
        }
        r
    } else {
        proof {
            lemma_end_non_ws(s@, s@.len() as int, b as int);
        }
        let r = s.substring_char(a, b);
        proof {
            assert(r@ =~= trimmed(s@));
        }
        r
    }
}

/// `p` stands at the front of `s`.
pub open spec fn has_prefix(s: Seq<char>, p: Seq<char>) -> bool {
    p.len() <= s.len() && (forall|k: int| 0 <= k < p.len() ==> s[k] == p[k])
}

/// `str::starts_with` for a literal prefix, proved against `has_prefix`.
pub fn starts_with(s: &str, p: &str) -> (r: bool)
    ensures
        r == has_prefix(s@, p@),
{
    let sn = s.unicode_len();
    let pn = p.unicode_len();
    if pn > sn {
        return false;
    }
    let mut k: usize = 0;
    while k < pn
        invariant
            0 <= k <= pn <= sn,
            sn == s@.len(),
            pn == p@.len(),
            forall|j: int| 0 <= j < k ==> s@[j] == p@[j],
        decreases pn - k,
    {
        if s.get_char(k) != p.get_char(k) {
            return false;
        }
        k = k + 1;
    }
    true
}

/// Character-for-character equality of two strings.
pub fn str_eq(s: &str, t: &str) -> (r: bool)
    ensures
        r == (s@ == t@),
{
    let sn = s.unicode_len();
    let tn = t.unicode_len();
    if sn != tn {
        proof {
            assert(s@ != t@) by {
                if s@ == t@ {
                    assert(s@.len() == t@.len());
                }
            }
        }
        return false;
    }
    let mut k: usize = 0;
    while k < sn
        invariant
            0 <= k <= sn,
            sn == s@.len() == t@.len(),
            forall|j: int| 0 <= j < k ==> s@[j] == t@[j],
        decreases sn - k,
    {
        if s.get_char(k) != t.get_char(k) {
            proof {
                assert(s@ != t@) by {
                    if s@ == t@ {
                        assert(s@[k as int] == t@[k as int]);
                    }
                }
            }
            return false;
        }
        k = k + 1;
    }
    proof {
        assert(s@ =~= t@);
    }
    true
}

/// Index of the first occurrence of `c` at or after `i`, or `-1` if none.
pub open spec fn find_from(s: Seq<char>, i: int, c: char) -> int
    decreases s.len() - i when 0 <= i <= s.len()
{
    if i >= s.len() {
        -1
    } else if s[i] == c {
        i
    } else {
        find_from(s, i + 1, c)
    }
}

pub proof fn lemma_find_from_at(s: Seq<char>, i: int, c: char, j: int)
    requires
        0 <= i <= j < s.len(),
        forall|k: int| i <= k < j ==> s[k] != c,
        s[j] == c,
    ensures
        find_from(s, i, c) == j,
    decreases j - i,
{
    if i < j {
        lemma_find_from_at(s, i + 1, c, j);
    }
}

pub proof fn lemma_find_from_none(s: Seq<char>, i: int, c: char)
    requires
        0 <= i <= s.len(),
        forall|k: int| i <= k < s.len() ==> s[k] != c,
    ensures
        find_from(s, i, c) == -1,
    decreases s.len() - i,
{
    if i < s.len() {
        lemma_find_from_none(s, i + 1, c);
    }
}

/// First occurrence of `c` in `s` at or after `from`.
pub fn find_char(s: &str, from: usize, c: char) -> (r: Option<usize>)
    requires
        from <= s@.len(),
    ensures
        match r {
            Some(j) => find_from(s@, from as int, c) == j && from <= j < s@.len() && s@[j as int]
                == c,
            None => find_from(s@, from as int, c) == -1,
        },
{
    let n = s.unicode_len();
    let mut j: usize = from;
    while j < n
        invariant
            from <= j <= n,
            n == s@.len(),
            forall|k: int| from <= k < j ==> s@[k] != c,
        decreases n - j,
    {
        if s.get_char(j) == c {
            proof {
                lemma_find_from_at(s@, from as int, c, j as int);
            }
            return Some(j);
        }
        j = j + 1;
    }
    proof {
        lemma_find_from_none(s@, from as int, c);
    }
    None
}

/// What `split(sep).last()` yields: the text after the last `sep`, or all of
/// it when `sep` does not occur.
pub open spec fn after_last(s: Seq<char>, sep: char) -> Seq<char>
    decreases s.len(),
{
    if s.len() == 0 {
        s
    } else if s[s.len() - 1] == sep {
        Seq::empty()
    } else {
        after_last(s.drop_last(), sep).push(s[s.len() - 1])
    }
}

proof fn lemma_after_last(s: Seq<char>, sep: char, j: int)
    requires
        0 <= j <= s.len(),
        forall|k: int| j <= k < s.len() ==> s[k] != sep,
        j > 0 ==> s[j - 1] == sep,
    ensures
        after_last(s, sep) =~= s.subrange(j, s.len() as int),
    decreases s.len(),
{
    if s.len() == 0 {
    } else if j == s.len() {
    } else {
        lemma_after_last(s.drop_last(), sep, j);
        assert(s.drop_last().subrange(j, s.len() - 1).push(s[s.len() - 1]) =~= s.subrange(
            j,
            s.len() as int,
        ));
    }
}

/// The text after the last occurrence of `sep`.
pub fn after_last_char<'a>(s: &'a str, sep: char) -> (r: &'a str)
    ensures
        r@ == after_last(s@, sep),
{
    let n = s.unicode_len();
    let mut j: usize = n;
    while j > 0 && s.get_char(j - 1) != sep
        invariant
            0 <= j <= n,
            n == s@.len(),
            forall|k: int| j <= k < n ==> s@[k] != sep,
        decreases j,
    {
        j = j - 1;
    }
    proof {
        lemma_after_last(s@, sep, j as int);
    }
    s.substring_char(j, n)
}

/// First index at or after `i` whose character fails `p`, or the length.
pub open spec fn scan_while(s: Seq<char>, i: int, p: spec_fn(char) -> bool) -> int
    decreases s.len() - i when 0 <= i <= s.len()
{
    if i >= s.len() {
        i
    } else if p(s[i]) {
        scan_while(s, i + 1, p)
    } else {
        i
    }
}

pub proof fn lemma_scan_while(s: Seq<char>, i: int, j: int, p: spec_fn(char) -> bool)
    requires
        0 <= i <= j <= s.len(),
        forall|k: int| i <= k < j ==> p(s[k]),
        j < s.len() ==> !p(s[j]),
    ensures
        scan_while(s, i, p) == j,
    decreases j - i,
{
    if i < j {
        lemma_scan_while(s, i + 1, j, p);
    }
}

/// Whether `c` is a decimal digit.
pub fn digit(c: char) -> (r: bool)
    ensures
        r == is_digit(c),
{
    let u = c as u32;
    proof {
        assert(c as int == u as int);
    }
    48 <= u && u <= 57
}

/// End of the maximal run of decimal digits starting at `from`.
pub fn scan_digits(s: &str, from: usize) -> (r: usize)
    requires
        from <= s@.len(),
    ensures
        r == scan_while(s@, from as int, |c: char| is_digit(c)),
        from <= r <= s@.len(),
        forall|k: int| from <= k < r ==> is_digit(s@[k]),
        r < s@.len() ==> !is_digit(s@[r as int]),
{
    let n = s.unicode_len();
    let mut j: usize = from;
    while j < n && digit(s.get_char(j))
        invariant
            from <= j <= n,
            n == s@.len(),
            forall|k: int| from <= k < j ==> is_digit(s@[k]),
        decreases n - j,
    {
        j = j + 1;
    }
    proof {
        lemma_scan_while(s@, from as int, j as int, |c: char| is_digit(c));
    }
    j
}

/// End of the maximal run of white space starting at `from`.
pub fn scan_wspace(s: &str, from: usize) -> (r: usize)
    requires
        from <= s@.len(),
    ensures
        r == scan_while(s@, from as int, |c: char| is_wspace(c)),
        from <= r <= s@.len(),
        forall|k: int| from <= k < r ==> is_wspace(s@[k]),
        r < s@.len() ==> !is_wspace(s@[r as int]),
{
    let n = s.unicode_len();
    let mut j: usize = from;
    while j < n && wspace(s.get_char(j))
        invariant
            from <= j <= n,
            n == s@.len(),
            forall|k: int| from <= k < j ==> is_wspace(s@[k]),
        decreases n - j,
    {
        j = j + 1;
    }
    proof {
        lemma_scan_while(s@, from as int, j as int, |c: char| is_wspace(c));
    }
    j
}

/// End of the maximal run of non-white-space starting at `from`.
pub fn scan_non_wspace(s: &str, from: usize) -> (r: usize)
    requires
        from <= s@.len(),
    ensures
        r == scan_while(s@, from as int, |c: char| !is_wspace(c)),
        from <= r <= s@.len(),
        forall|k: int| from <= k < r ==> !is_wspace(s@[k]),
        r < s@.len() ==> is_wspace(s@[r as int]),
{
    let n = s.unicode_len();
    let mut j: usize = from;
    while j < n && !wspace(s.get_char(j))
        invariant
            from <= j <= n,
            n == s@.len(),
            forall|k: int| from <= k < j ==> !is_wspace(s@[k]),
        decreases n - j,
    {
        j = j + 1;
    }
    proof {
        lemma_scan_while(s@, from as int, j as int, |c: char| !is_wspace(c));
    }
    j
}

/// The views of a sequence of string-like values.
pub open spec fn views_of<T: View>(v: Seq<T>) -> Seq<T::V> {
    Seq::new(v.len(), |i: int| v[i]@)
}

/// What `str::lines` yields: pieces split at `\n`, a `\r` directly before a
/// split stripped, and no final empty piece after a trailing `\n`.
pub open spec fn spec_lines(s: Seq<char>) -> Seq<Seq<char>>
    decreases s.len(),
{
    if s.len() == 0 {
        Seq::empty()
    } else {
        let i = find_from(s, 0, '\n');
        if !(0 <= i && i < s.len()) {
            seq![s]
        } else {
            let raw = s.subrange(0, i);
            let line = if raw.len() > 0 && raw[raw.len() - 1] == '\r' {
                raw.drop_last()
            } else {
                raw
            };
            seq![line] + spec_lines(s.subrange(i + 1, s.len() as int))
        }
    }
}

/// Split the input into its lines, as `str::lines` would.
pub fn split_lines<'a>(s: &'a str) -> (r: Vec<&'a str>)
    ensures
        views_of(r@) == spec_lines(s@),
{
    let n = s.unicode_len();
    let mut out: Vec<&'a str> = Vec::new();
    let mut start: usize = 0;
    let mut i: usize = 0;
    proof {
        assert(s@.subrange(0, n as int) =~= s@);
        assert(views_of(out@) =~= Seq::<Seq<char>>::empty());
        assert(views_of(out@) + spec_lines(s@) =~= spec_lines(s@));
    }
    while i < n
        invariant
            start <= i <= n,
            n == s@.len(),
            forall|k: int| start <= k < i ==> s@[k] != '\n',
            spec_lines(s@) == views_of(out@) + spec_lines(s@.subrange(start as int, n as int)),
        decreases n - i,
    {
        if s.get_char(i) == '\n' {
            let line = if i > start && s.get_char(i - 1) == '\r' {
                s.substring_char(start, i - 1)
            } else {
                s.substring_char(start, i)
            };
            proof {
                let t = s@.subrange(start as int, n as int);
                assert(forall|k: int| 0 <= k < i - start ==> t[k] == s@[k + start]);
                lemma_find_from_at(t, 0, '\n', i - start);
                let raw = t.subrange(0, i - start);
                assert(raw =~= s@.subrange(start as int, i as int));
                if raw.len() > 0 && raw[raw.len() - 1] == '\r' {
                    assert(raw.drop_last() =~= s@.subrange(start as int, i - 1));
                } else {
                }
                assert(t.subrange(i - start + 1, t.len() as int) =~= s@.subrange(
                    i + 1,
                    n as int,
                ));
                assert(spec_lines(t) == seq![line@] + spec_lines(
                    s@.subrange(i + 1, n as int),
                ));
                assert(views_of(out@.push(line)) =~= views_of(out@).push(line@));
                assert(views_of(out@) + spec_lines(t) =~= views_of(out@.push(line))
                    + spec_lines(s@.subrange(i + 1, n as int)));
            }
            out.push(line);
            start = i + 1;
        }
        i = i + 1;
    }
    if start < n {
        let line = s.substring_char(start, n);
        proof {
            let t = s@.subrange(start as int, n as int);
            assert(forall|k: int| 0 <= k < t.len() ==> t[k] == s@[k + start]);
            lemma_find_from_none(t, 0, '\n');
            assert(spec_lines(t) == seq![t]);
            assert(t =~= line@);
            assert(views_of(out@.push(line)) =~= views_of(out@).push(line@));
            assert(views_of(out@) + spec_lines(t) =~= views_of(out@.push(line)));
        }
        out.push(line);
        proof {
            assert(views_of(out@) =~= spec_lines(s@));
        }
    } else {
        proof {
            let t = s@.subrange(start as int, n as int);
            assert(t.len() == 0);
            assert(spec_lines(t) =~= Seq::<Seq<char>>::empty());
            assert(views_of(out@) + spec_lines(t) =~= views_of(out@));
        }
    }
    out
}

/// A decimal digit.
pub open spec fn is_digit(c: char) -> bool {
    48 <= c as int <= 57
}

pub open spec fn digit_val(c: char) -> int {
    c as int - 48
}

/// The number the decimal digits of `s` spell, most significant first.
pub open spec fn digits_value(s: Seq<char>) -> int
    decreases s.len(),
{
    if s.len() == 0 {
        0
    } else {
        digits_value(s.drop_last()) * 10 + digit_val(s.last())
    }
}

pub open spec fn all_digits(s: Seq<char>) -> bool {
    forall|k: int| 0 <= k < s.len() ==> is_digit(s[k])
}

/// What `str::parse::<usize>` accepts: an optional leading `+`, then one or
/// more decimal digits, whose value fits in `usize`.
pub open spec fn parse_usize_spec(s: Seq<char>) -> Option<int> {
    let t = if s.len() > 0 && s[0] == '+' {
        s.drop_first()
    } else {
        s
    };
    if t.len() >= 1 && all_digits(t) && digits_value(t) <= usize::MAX as int {
        Some(digits_value(t))
    } else {
        None
    }
}

proof fn lemma_digits_nonneg(s: Seq<char>)
    requires
        all_digits(s),
    ensures
        digits_value(s) >= 0,
    decreases s.len(),
{
    if s.len() > 0 {
        assert(all_digits(s.drop_last()));
        lemma_digits_nonneg(s.drop_last());
    }
}

proof fn lemma_digits_prefix(s: Seq<char>, m: int)
    requires
        all_digits(s),
        0 <= m <= s.len(),
    ensures
        digits_value(s) >= digits_value(s.subrange(0, m)),
    decreases s.len() - m,
{
    if m == s.len() {
        assert(s.subrange(0, m) =~= s);
    } else {
        lemma_digits_prefix(s, m + 1);
        let a = s.subrange(0, m);
        let b = s.subrange(0, m + 1);
        assert(b.drop_last() =~= a);
        assert(all_digits(a));
        lemma_digits_nonneg(a);
        assert(digits_value(b) == digits_value(a) * 10 + digit_val(s[m]));
        assert(digits_value(a) * 10 >= digits_value(a)) by (nonlinear_arith)
            requires
                digits_value(a) >= 0,
        ;
    }
}

/// `str::parse::<usize>`, proved against `parse_usize_spec`.
#[verifier::rlimit(50)]
pub fn parse_usize(s: &str) -> (r: Option<usize>)
    ensures
        match r {
            Some(v) => parse_usize_spec(s@) == Some(v as int),
            None => parse_usize_spec(s@) is None,
        },
{
    let n = s.unicode_len();
    let start: usize = if n > 0 && s.get_char(0) == '+' {
        1
    } else {
        0
    };
    let ghost t = if s@.len() > 0 && s@[0] == '+' {
        s@.drop_first()
    } else {
        s@
    };
    proof {
        assert(t.len() == n - start);
        assert(forall|k: int| 0 <= k < t.len() ==> t[k] == s@[k + start]);
    }
    if n == start {
        return None;
    }
    let max_q: usize = usize::MAX / 10;
    let max_r: usize = usize::MAX % 10;
    let mut acc: usize = 0;
    let mut k: usize = start;
    while k < n
        invariant
            start <= k <= n,
            n == s@.len(),
            start <= 1,
            t == (if s@.len() > 0 && s@[0] == '+' {
                s@.drop_first()
            } else {
                s@
            }),
            t.len() == n - start,
            forall|j: int| 0 <= j < t.len() ==> t[j] == s@[j + start],
            forall|j: int| start <= j < k ==> is_digit(s@[j]),
            acc as int == digits_value(t.subrange(0, k - start)),
            max_q == usize::MAX / 10,
            max_r == usize::MAX % 10,
        decreases n - k,
    {
        let c = s.get_char(k);
        let u = c as u32;
        proof {
            assert(c as int == u as int);
        }
        if u < 48 || u > 57 {
            proof {
                assert(!is_digit(t[(k - start) as int]));
            }
            return None;
        }
        let d = (u - 48) as usize;
        proof {
            assert(d as int == digit_val(s@[k as int]));
        }
        if acc > max_q || (acc == max_q && d > max_r) {
            proof {
                let p = t.subrange(0, k - start + 1);
                assert(p.drop_last() =~= t.subrange(0, k - start));
                assert(p.last() == t[(k - start) as int]);
                assert(digits_value(p) == acc as int * 10 + d as int);
                vstd::arithmetic::div_mod::lemma_fundamental_div_mod(usize::MAX as int, 10);
                assert(acc as int * 10 + d as int > usize::MAX as int) by (nonlinear_arith)
                    requires
                        acc as int > max_q as int || (acc as int == max_q as int && d as int
                            > max_r as int),
                        usize::MAX as int == 10 * (max_q as int) + (max_r as int),
                        0 <= (max_r as int) && (max_r as int) < 10,
                        (d as int) >= 0,
                ;
                if all_digits(t) {
                    lemma_digits_prefix(t, k - start + 1);
                }
            }
            return None;
        }
        proof {
            vstd::arithmetic::div_mod::lemma_fundamental_div_mod(usize::MAX as int, 10);
            assert(acc as int * 10 + d as int <= usize::MAX as int) by (nonlinear_arith)
                requires
                    (acc as int) < (max_q as int) || (acc as int == max_q as int && (d as int)
                        <= (max_r as int)),
                    acc as int >= 0,
                    usize::MAX as int == 10 * (max_q as int) + (max_r as int),
                    0 <= (max_r as int) && (max_r as int) < 10,
                    0 <= (d as int) && (d as int) <= 9,
            ;
            let p = t.subrange(0, k - start + 1);
            assert(p.drop_last() =~= t.subrange(0, k - start));
            assert(p.last() == t[(k - start) as int]);
        }
        acc = acc * 10 + d;
        k = k + 1;
    }
    proof {
        assert(t.subrange(0, t.len() as int) =~= t);
        assert(all_digits(t)) by {
            assert(forall|j: int| 0 <= j < t.len() ==> is_digit(#[trigger] t[j]));
        }
    }
    Some(acc)
}

} // verus!
