//! Character-level text handling: whitespace, trimming, splitting into
//! words and fields, locating separators, and decimal integers.
use vstd::prelude::*;

verus! {

broadcast use vstd::string::group_string_axioms;

/// The characters with the Unicode `White_Space` property, which is what
/// `char::is_whitespace`, `str::trim` and `str::split_whitespace` use.
pub open spec fn is_ws(c: char) -> bool {
    let u = c as u32;
    ||| 9 <= u <= 13
    ||| u == 32
    ||| u == 0x85
    ||| u == 0xa0
    ||| u == 0x1680
    ||| 0x2000 <= u <= 0x200a
    ||| u == 0x2028
    ||| u == 0x2029
    ||| u == 0x202f
    ||| u == 0x205f
    ||| u == 0x3000
}

pub fn is_whitespace(c: char) -> (r: bool)
    ensures
        r == is_ws(c),
{
    let u = c as u32;
    (9 <= u && u <= 13) || u == 32 || u == 0x85 || u == 0xa0 || u == 0x1680 || (0x2000 <= u && u
        <= 0x200a) || u == 0x2028 || u == 0x2029 || u == 0x202f || u == 0x205f || u == 0x3000
}

/// The characters of a string slice, in order.
pub fn chars_of(s: &str) -> (v: Vec<char>)
    ensures
        v@ == s@,
{
    let mut v: Vec<char> = Vec::new();
    for c in it: s.chars()
        invariant
            v@ == it.seq().take(it.index() as int),
            it.seq() == s@,
    {
        v.push(c);
    }
    v
}

/// An owned copy of the characters `a..b` of `s`.
pub fn substring(s: &str, a: usize, b: usize) -> (r: String)
    requires
        a <= b <= s@.len(),
    ensures
        r@ == s@.subrange(a as int, b as int),
{
    String::from_str(s.substring_char(a, b))
}

/// Equality of two string slices, character by character.
pub fn str_eq(a: &str, b: &str) -> (r: bool)
    ensures
        r == (a@ == b@),
{
    let x = chars_of(a);
    let y = chars_of(b);
    if x.len() != y.len() {
        return false;
    }
    let mut i: usize = 0;
    while i < x.len()
        invariant
            x@ == a@,
            y@ == b@,
            x.len() == y.len(),
            i <= x.len(),
            forall|k: int| 0 <= k < i ==> x@[k] == y@[k],
        decreases x.len() - i,
    {
        if x[i] != y[i] {
            return false;
        }
        i += 1;
    }
    assert(a@ =~= b@);
    true
}

// ---------------------------------------------------------------- trimming

/// `s` without its leading whitespace.
pub open spec fn trimmed_start(s: Seq<char>) -> Seq<char>
    decreases s.len(),
{
    if s.len() > 0 && is_ws(s[0]) {
        trimmed_start(s.drop_first())
    } else {
        s
    }
}

/// `s` without its trailing whitespace.
pub open spec fn trimmed_end(s: Seq<char>) -> Seq<char>
    decreases s.len(),
{
    if s.len() > 0 && is_ws(s.last()) {
        trimmed_end(s.drop_last())
    } else {
        s
    }
}

/// `s` without leading and trailing whitespace (what `str::trim` returns).
pub open spec fn trimmed(s: Seq<char>) -> Seq<char> {
    trimmed_end(trimmed_start(s))
}

pub fn trim(s: &str) -> (r: &str)
    ensures
        r@ == trimmed(s@),
{
    let cs = chars_of(s);
    let n = cs.len();
    let mut a: usize = 0;
    assert(s@.subrange(0, n as int) =~= s@);
    while a < n && is_whitespace(cs[a])
        invariant
            a <= n,
            n == s@.len(),
            cs@ == s@,
            trimmed_start(s@) == trimmed_start(s@.subrange(a as int, n as int)),
        decreases n - a,
    {
        assert(s@.subrange(a as int, n as int).drop_first() =~= s@.subrange(a + 1, n as int));
        a += 1;
    }
    let mut b: usize = n;
    while b > a && is_whitespace(cs[b - 1])
        invariant
            a <= b <= n,
            n == s@.len(),
            cs@ == s@,
            trimmed_start(s@) == s@.subrange(a as int, n as int),
            trimmed(s@) == trimmed_end(s@.subrange(a as int, b as int)),
        decreases b,
    {
        assert(s@.subrange(a as int, b as int).drop_last() =~= s@.subrange(a as int, b - 1));
        b -= 1;
    }
    s.substring_char(a, b)
}

// ------------------------------------------------------------------ words

/// Length of the run of non-whitespace characters that starts `s`.
pub open spec fn word_len(s: Seq<char>) -> nat
    decreases s.len(),
{
    if s.len() == 0 || is_ws(s[0]) {
        0
    } else {
        1 + word_len(s.drop_first())
    }
}

pub proof fn lemma_word_len_bound(s: Seq<char>)
    ensures
        word_len(s) <= s.len(),
    decreases s.len(),
{
    if s.len() > 0 && !is_ws(s[0]) {
        lemma_word_len_bound(s.drop_first());
    }
}

/// A run of `m` non-whitespace characters that ends at the end of `t` or
/// at a whitespace character has `word_len` `m`.
pub proof fn lemma_word_len_run(t: Seq<char>, m: int)
    requires
        0 <= m <= t.len(),
        forall|k: int| 0 <= k < m ==> !is_ws(#[trigger] t[k]),
        m == t.len() || is_ws(t[m]),
    ensures
        word_len(t) == m,
    decreases m,
{
    if m > 0 {
        assert forall|k: int| 0 <= k < m - 1 implies !is_ws(#[trigger] t.drop_first()[k]) by {
            assert(t.drop_first()[k] == t[k + 1]);
        }
        if m < t.len() {
            assert(t.drop_first()[m - 1] == t[m]);
        }
        lemma_word_len_run(t.drop_first(), m - 1);
    }
}

/// The maximal runs of non-whitespace characters of `s`, in order (what
/// `str::split_whitespace` yields).
pub open spec fn words(s: Seq<char>) -> Seq<Seq<char>>
    decreases s.len(),
{
    if s.len() == 0 {
        Seq::empty()
    } else if is_ws(s[0]) {
        words(s.drop_first())
    } else {
        let k = word_len(s);
        proof {
            lemma_word_len_bound(s);
        }
        seq![s.take(k as int)] + words(s.skip(k as int))
    }
}

pub open spec fn string_views(v: Seq<String>) -> Seq<Seq<char>> {
    v.map_values(|w: String| w@)
}

pub open spec fn str_views(v: Seq<&str>) -> Seq<Seq<char>> {
    v.map_values(|w: &str| w@)
}

pub fn split_whitespace(s: &str) -> (r: Vec<String>)
    ensures
        string_views(r@) == words(s@),
{
    let cs = chars_of(s);
    let n = cs.len();
    let mut out: Vec<String> = Vec::new();
    let mut i: usize = 0;
    assert(s@.subrange(0, n as int) =~= s@);
    assert(string_views(out@) + words(s@) =~= words(s@));
    while i < n
        invariant
            i <= n,
            n == s@.len(),
            cs@ == s@,
            words(s@) == string_views(out@) + words(s@.subrange(i as int, n as int)),
        decreases n - i,
    {
        if is_whitespace(cs[i]) {
            assert(s@.subrange(i as int, n as int).drop_first() =~= s@.subrange(i + 1, n as int));
            i += 1;
        } else {
            let start = i;
            i += 1;
            while i < n && !is_whitespace(cs[i])
                invariant
                    start < i <= n,
                    n == s@.len(),
                    cs@ == s@,
                    forall|k: int| start <= k < i ==> !is_ws(#[trigger] s@[k]),
                decreases n - i,
            {
                i += 1;
            }
            let ghost t = s@.subrange(start as int, n as int);
            proof {
                assert forall|k: int| 0 <= k < i - start implies !is_ws(#[trigger] t[k]) by {
                    assert(t[k] == s@[start + k]);
                }
                if i < n {
                    assert(t[i - start] == s@[i as int]);
                }
                lemma_word_len_run(t, i - start);
                assert(t.take(i - start) =~= s@.subrange(start as int, i as int));
                assert(t.skip(i - start) =~= s@.subrange(i as int, n as int));
            }
            let w = substring(s, start, i);
            let ghost before = out@;
            out.push(w);
            proof {
                assert(string_views(out@) =~= string_views(before) + seq![w@]);
            }
        }
    }
    proof {
        assert(s@.subrange(n as int, n as int) =~= Seq::<char>::empty());
        assert(string_views(out@) + Seq::<Seq<char>>::empty() =~= string_views(out@));
    }
    out
}

} // verus!
verus! {

// ------------------------------------------------------ separators, fields

/// Position of the first occurrence of `c` in `s`.
pub open spec fn char_pos(s: Seq<char>, c: char) -> Option<nat>
    decreases s.len(),
{
    if s.len() == 0 {
        None
    } else if s[0] == c {
        Some(0)
    } else {
        match char_pos(s.drop_first(), c) {
            Some(p) => Some(p + 1),
            None => None,
        }
    }
}

pub proof fn lemma_char_pos(s: Seq<char>, c: char)
    ensures
        char_pos(s, c) matches Some(p) ==> p < s.len() && s[p as int] == c && forall|k: int|
            0 <= k < p ==> s[k] != c,
        char_pos(s, c) is None ==> forall|k: int| 0 <= k < s.len() ==> s[k] != c,
    decreases s.len(),
{
    if s.len() > 0 {
        lemma_char_pos(s.drop_first(), c);
        if s[0] != c {
            assert forall|k: int| 1 <= k < s.len() implies s[k] == s.drop_first()[k - 1] by {}
        }
    }
}

/// The first occurrence of `c` is at `m` when `c` does not occur before
/// `m` and occurs at `m`; it does not occur when it occurs nowhere.
pub proof fn lemma_char_pos_at(s: Seq<char>, c: char, m: int)
    requires
        0 <= m <= s.len(),
        forall|k: int| 0 <= k < m ==> s[k] != c,
        m == s.len() || s[m] == c,
    ensures
        m < s.len() ==> char_pos(s, c) == Some(m as nat),
        m == s.len() ==> char_pos(s, c) is None,
    decreases m,
{
    if m > 0 {
        assert forall|k: int| 0 <= k < m - 1 implies s.drop_first()[k] != c by {
            assert(s.drop_first()[k] == s[k + 1]);
        }
        if m < s.len() {
            assert(s.drop_first()[m - 1] == s[m]);
        }
        lemma_char_pos_at(s.drop_first(), c, m - 1);
    }
}

/// The pieces of `s` between occurrences of `c` (what `str::split(c)` yields).
pub open spec fn pieces(s: Seq<char>, c: char) -> Seq<Seq<char>>
    decreases s.len(),
{
    match char_pos(s, c) {
        None => seq![s],
        Some(p) => {
            proof {
                lemma_char_pos(s, c);
            }
            seq![s.take(p as int)] + pieces(s.skip(p as int + 1), c)
        },
    }
}

pub fn find_char(s: &str, c: char) -> (r: Option<usize>)
    ensures
        match r {
            Some(p) => char_pos(s@, c) == Some(p as nat),
            None => char_pos(s@, c) is None,
        },
{
    let cs = chars_of(s);
    let mut i: usize = 0;
    while i < cs.len()
        invariant
            cs@ == s@,
            i <= cs.len(),
            forall|k: int| 0 <= k < i ==> s@[k] != c,
        decreases cs.len() - i,
    {
        if cs[i] == c {
            proof {
                lemma_char_pos_at(s@, c, i as int);
            }
            return Some(i);
        }
        i += 1;
    }
    proof {
        lemma_char_pos_at(s@, c, i as int);
    }
    None
}

/// The pieces of `s` between occurrences of `c`.
pub fn split_char(s: &str, c: char) -> (r: Vec<&str>)
    ensures
        str_views(r@) == pieces(s@, c),
{
    let cs = chars_of(s);
    let n = cs.len();
    let mut out: Vec<&str> = Vec::new();
    let mut start: usize = 0;
    let mut i: usize = 0;
    assert(s@.subrange(0, n as int) =~= s@);
    assert(str_views(out@) + pieces(s@, c) =~= pieces(s@, c));
    while i < n
        invariant
            start <= i <= n,
            n == s@.len(),
            cs@ == s@,
            forall|k: int| start <= k < i ==> s@[k] != c,
            pieces(s@, c) == str_views(out@) + pieces(s@.subrange(start as int, n as int), c),
        decreases n - i,
    {
        if cs[i] == c {
            let ghost t = s@.subrange(start as int, n as int);
            proof {
                assert forall|k: int| 0 <= k < i - start implies t[k] != c by {
                    assert(t[k] == s@[start + k]);
                }
                assert(t[i - start] == s@[i as int]);
                lemma_char_pos_at(t, c, i - start);
                assert(t.take(i - start) =~= s@.subrange(start as int, i as int));
                assert(t.skip(i - start + 1) =~= s@.subrange(i + 1, n as int));
            }
            let ghost before = out@;
            out.push(s.substring_char(start, i));
            proof {
                assert(str_views(out@) =~= str_views(before) + seq![s@.subrange(start as int, i as int)]);
            }
            start = i + 1;
        }
        i += 1;
    }
    let ghost t = s@.subrange(start as int, n as int);
    proof {
        assert forall|k: int| 0 <= k < n - start implies t[k] != c by {
            assert(t[k] == s@[start + k]);
        }
        lemma_char_pos_at(t, c, n - start);
    }
    let ghost before = out@;
    out.push(s.substring_char(start, n));
    proof {
        assert(str_views(out@) =~= str_views(before) + seq![t]);
    }
    out
}

/// Splits `s` at the first occurrence of `c` (what `str::split_once(c)` returns).
pub open spec fn split_once_at(s: Seq<char>, c: char) -> Option<(Seq<char>, Seq<char>)> {
    match char_pos(s, c) {
        None => None,
        Some(p) => Some((s.take(p as int), s.skip(p as int + 1))),
    }
}

pub fn split_once<'a>(s: &'a str, c: char) -> (r: Option<(&'a str, &'a str)>)
    ensures
        match r {
            Some((a, b)) => split_once_at(s@, c) == Some((a@, b@)),
            None => split_once_at(s@, c) is None,
        },
{
    match find_char(s, c) {
        None => None,
        Some(p) => {
            proof {
                lemma_char_pos(s@, c);
            }
            let n = s.unicode_len();
            Some((s.substring_char(0, p), s.substring_char(p + 1, n)))
        },
    }
}

/// `s` has the separator `|||` at position `p`.
pub open spec fn pipe_at(s: Seq<char>, p: int) -> bool {
    0 <= p && p + 3 <= s.len() && s[p] == '|' && s[p + 1] == '|' && s[p + 2] == '|'
}

/// Position of the first separator `|||` in `s`.
pub open spec fn pipe_pos(s: Seq<char>) -> Option<nat>
    decreases s.len(),
{
    if s.len() < 3 {
        None
    } else if pipe_at(s, 0) {
        Some(0)
    } else {
        match pipe_pos(s.drop_first()) {
            Some(p) => Some(p + 1),
            None => None,
        }
    }
}

pub proof fn lemma_pipe_pos(s: Seq<char>)
    ensures
        pipe_pos(s) matches Some(p) ==> pipe_at(s, p as int),
    decreases s.len(),
{
    if s.len() >= 3 && !pipe_at(s, 0) {
        lemma_pipe_pos(s.drop_first());
        if let Some(q) = pipe_pos(s.drop_first()) {
            let p = q as int;
            assert(s.drop_first()[p] == s[p + 1]);
            assert(s.drop_first()[p + 1] == s[p + 2]);
            assert(s.drop_first()[p + 2] == s[p + 3]);
        }
    }
}

pub proof fn lemma_pipe_pos_at(s: Seq<char>, m: int)
    requires
        0 <= m <= s.len(),
        forall|k: int| 0 <= k < m ==> !pipe_at(s, k),
        m + 3 > s.len() || pipe_at(s, m),
    ensures
        pipe_at(s, m) ==> pipe_pos(s) == Some(m as nat),
        !pipe_at(s, m) ==> pipe_pos(s) is None,
    decreases m,
{
    if s.len() >= 3 && m > 0 {
        assert(!pipe_at(s, 0));
        assert forall|k: int| 0 <= k < m - 1 implies !pipe_at(s.drop_first(), k) by {
            assert(!pipe_at(s, k + 1));
            if k + 3 <= s.len() - 1 {
                assert(s.drop_first()[k] == s[k + 1]);
                assert(s.drop_first()[k + 1] == s[k + 2]);
                assert(s.drop_first()[k + 2] == s[k + 3]);
            }
        }
        if pipe_at(s, m) {
            assert(s.drop_first()[m - 1] == s[m]);
            assert(s.drop_first()[m] == s[m + 1]);
            assert(s.drop_first()[m + 1] == s[m + 2]);
        }
        lemma_pipe_pos_at(s.drop_first(), m - 1);
    }
}

pub fn find_pipe(s: &str) -> (r: Option<usize>)
    ensures
        match r {
            Some(p) => pipe_pos(s@) == Some(p as nat),
            None => pipe_pos(s@) is None,
        },
{
    let cs = chars_of(s);
    let n = cs.len();
    let mut i: usize = 0;
    while n >= 3 && i <= n - 3
        invariant
            cs@ == s@,
            n == s@.len(),
            i <= n,
            forall|k: int| 0 <= k < i ==> !pipe_at(s@, k),
        decreases n - i,
    {
        if cs[i] == '|' && cs[i + 1] == '|' && cs[i + 2] == '|' {
            proof {
                lemma_pipe_pos_at(s@, i as int);
            }
            return Some(i);
        }
        i += 1;
    }
    proof {
        lemma_pipe_pos_at(s@, i as int);
    }
    None
}

} // verus!
verus! {

// --------------------------------------------------------------- integers

pub open spec fn is_digit(c: char) -> bool {
    48 <= (c as u32) <= 57
}

pub open spec fn digit_value(c: char) -> int {
    (c as u32) - 48
}

/// The value of a string of decimal digits.
pub open spec fn digits_value(d: Seq<char>) -> int
    decreases d.len(),
{
    if d.len() == 0 {
        0
    } else {
        10 * digits_value(d.drop_last()) + digit_value(d.last())
    }
}

pub open spec fn all_digits(d: Seq<char>) -> bool {
    forall|i: int| 0 <= i < d.len() ==> is_digit(#[trigger] d[i])
}

/// The digits of `s` after an optional leading sign.
pub open spec fn unsigned_part(s: Seq<char>) -> Seq<char> {
    if s.len() > 0 && (s[0] == '-' || s[0] == '+') {
        s.drop_first()
    } else {
        s
    }
}

/// The `i32` that `s` denotes, as `i32::from_str` reads it: an optional
/// sign, then one or more decimal digits, within the range of `i32`.
pub open spec fn int_value(s: Seq<char>) -> Option<int> {
    let d = unsigned_part(s);
    if d.len() > 0 && all_digits(d) {
        let v = if s[0] == '-' {
            -digits_value(d)
        } else {
            digits_value(d)
        };
        if i32::MIN <= v <= i32::MAX {
            Some(v)
        } else {
            None
        }
    } else {
        None
    }
}

pub proof fn lemma_digits_value_nonneg(d: Seq<char>)
    requires
        all_digits(d),
    ensures
        digits_value(d) >= 0,
    decreases d.len(),
{
    if d.len() > 0 {
        assert(is_digit(d[d.len() - 1]));
        lemma_digits_value_nonneg(d.drop_last());
    }
}

/// A longer run of digits is worth at least as much as its prefix.
pub proof fn lemma_digits_value_prefix(d: Seq<char>, k: int)
    requires
        all_digits(d),
        0 <= k <= d.len(),
    ensures
        digits_value(d.take(k)) <= digits_value(d),
    decreases d.len(),
{
    if k < d.len() {
        assert(all_digits(d.drop_last())) by {
            assert forall|i: int| 0 <= i < d.len() - 1 implies is_digit(#[trigger] d.drop_last()[i]) by {
                assert(d.drop_last()[i] == d[i]);
            }
        }
        lemma_digits_value_prefix(d.drop_last(), k);
        assert(d.drop_last().take(k) =~= d.take(k));
        lemma_digits_value_nonneg(d.drop_last());
        assert(is_digit(d[d.len() - 1]));
    } else {
        assert(d.take(k) =~= d);
    }
}

pub fn parse_i32(s: &str) -> (r: Option<i32>)
    ensures
        match r {
            Some(v) => int_value(s@) == Some(v as int),
            None => int_value(s@) is None,
        },
{
    let cs = chars_of(s);
    let n = cs.len();
    if n == 0 {
        return None;
    }
    let neg = cs[0] == '-';
    let start: usize = if cs[0] == '-' || cs[0] == '+' { 1 } else { 0 };
    let ghost d = unsigned_part(s@);
    assert(d =~= s@.subrange(start as int, n as int));
    if start == n {
        return None;
    }
    let mut acc: i64 = 0;
    let mut i: usize = start;
    while i < n
        invariant
            cs@ == s@,
            n == s@.len(),
            start <= i <= n,
            d == s@.subrange(start as int, n as int),
            d == unsigned_part(s@),
            all_digits(d.take(i - start)),
            acc == digits_value(d.take(i - start)),
            0 <= acc <= 2147483648,
        decreases n - i,
    {
        let c = cs[i];
        let u = c as u32;
        if u < 48 || u > 57 {
            assert(d[i - start] == c);
            assert(!is_digit(c));
            assert(!all_digits(d));
            return None;
        }
        let ghost before = d.take(i - start);
        proof {
            assert(d.take(i - start + 1).drop_last() =~= before);
            assert(d.take(i - start + 1).last() == c);
            assert(all_digits(d.take(i - start + 1))) by {
                assert forall|k: int| 0 <= k < i - start + 1 implies is_digit(#[trigger] d.take(i - start + 1)[k]) by {
                    if k < i - start {
                        assert(d.take(i - start + 1)[k] == before[k]);
                    }
                }
            }
        }
        acc = acc * 10 + (u - 48) as i64;
        i += 1;
        assert(acc == digits_value(d.take(i - start)));
        if acc > 2147483648 {
            proof {
                if all_digits(d) {
                    lemma_digits_value_prefix(d, i - start);
                    assert(digits_value(d) > 2147483648);
                }
            }
            assert(int_value(s@) is None);
            return None;
        }
    }
    assert(d.take(n - start) =~= d);
    if neg {
        Some((0 - acc) as i32)
    } else if acc > 2147483647 {
        None
    } else {
        Some(acc as i32)
    }
}

/// The character of the decimal digit `d`.
pub open spec fn digit_char(d: int) -> char {
    (48 + d) as char
}

/// The decimal notation of `n`, without leading zeros.
pub open spec fn decimal(n: nat) -> Seq<char>
    decreases n,
{
    if n < 10 {
        seq![digit_char(n as int)]
    } else {
        decimal(n / 10) + seq![digit_char((n % 10) as int)]
    }
}

fn digit_str(d: u64) -> (r: &'static str)
    requires
        d < 10,
    ensures
        r@ == seq![digit_char(d as int)],
{
    if d == 0 {
        proof { reveal_strlit("0"); }
        "0"
    } else if d == 1 {
        proof { reveal_strlit("1"); }
        "1"
    } else if d == 2 {
        proof { reveal_strlit("2"); }
        "2"
    } else if d == 3 {
        proof { reveal_strlit("3"); }
        "3"
    } else if d == 4 {
        proof { reveal_strlit("4"); }
        "4"
    } else if d == 5 {
        proof { reveal_strlit("5"); }
        "5"
    } else if d == 6 {
        proof { reveal_strlit("6"); }
        "6"
    } else if d == 7 {
        proof { reveal_strlit("7"); }
        "7"
    } else if d == 8 {
        proof { reveal_strlit("8"); }
        "8"
    } else {
        proof { reveal_strlit("9"); }
        "9"
    }
}

/// Appends the decimal notation of `v` to `out`.
pub fn push_decimal(out: &mut String, v: u64)
    ensures
        final(out)@ == old(out)@ + decimal(v as nat),
    decreases v,
{
    if v < 10 {
        out.append(digit_str(v));
    } else {
        push_decimal(out, v / 10);
        out.append(digit_str(v % 10));
        proof {
            assert(old(out)@ + decimal(v as nat) =~= old(out)@ + decimal((v / 10) as nat) + seq![
                digit_char((v % 10) as int),
            ]);
        }
    }
}

} // verus!
verus! {

pub open spec fn no_ws(w: Seq<char>) -> bool {
    forall|k: int| 0 <= k < w.len() ==> !is_ws(#[trigger] w[k])
}

/// Text that neither starts nor ends with whitespace is its own trimming.
pub proof fn lemma_trimmed_plain(w: Seq<char>)
    requires
        w.len() == 0 || (!is_ws(w[0]) && !is_ws(w[w.len() - 1])),
    ensures
        trimmed(w) == w,
{
}

pub proof fn lemma_digit_char(d: int)
    requires
        0 <= d < 10,
    ensures
        is_digit(digit_char(d)),
        digit_value(digit_char(d)) == d,
        !is_ws(digit_char(d)),
        digit_char(d) != '-',
        digit_char(d) != '+',
        digit_char(d) != ',',
{
    assert((48 + d) as char as u32 == 48 + d);
}

pub proof fn lemma_decimal(n: nat)
    ensures
        decimal(n).len() > 0,
        all_digits(decimal(n)),
        no_ws(decimal(n)),
        digits_value(decimal(n)) == n,
        !(decimal(n)[0] == '-' || decimal(n)[0] == '+'),
    decreases n,
{
    if n < 10 {
        lemma_digit_char(n as int);
        assert(decimal(n).drop_last() =~= Seq::<char>::empty());
        assert(digits_value(decimal(n)) == 10 * digits_value(Seq::<char>::empty()) + digit_value(decimal(n).last()));
    } else {
        lemma_decimal(n / 10);
        lemma_digit_char((n % 10) as int);
        let x = decimal(n / 10);
        let c = digit_char((n % 10) as int);
        assert(decimal(n) == x + seq![c]);
        assert((x + seq![c]).drop_last() =~= x);
        assert((x + seq![c]).last() == c);
        assert(digits_value(decimal(n)) == 10 * digits_value(x) + digit_value(c));
        assert(n == 10 * (n / 10) + n % 10);
        assert((x + seq![c])[0] == x[0]);
        assert forall|k: int| 0 <= k < decimal(n).len() implies is_digit(#[trigger] decimal(n)[k])
            && !is_ws(decimal(n)[k]) by {
            if k < x.len() {
                assert(decimal(n)[k] == x[k]);
            } else {
                assert(decimal(n)[k] == c);
            }
        }
    }
}

/// The decimal notation of a number in the range of `i32` reads back as it.
pub proof fn lemma_decimal_int_value(n: nat)
    requires
        n <= i32::MAX,
    ensures
        int_value(decimal(n)) == Some(n as int),
{
    lemma_decimal(n);
    assert(unsigned_part(decimal(n)) == decimal(n));
}

} // verus!
verus! {

/// The fields of `s` between its first `n` separators `|||`, trimmed; the
/// last field is the trimmed rest.
pub open spec fn pipe_fields(s: Seq<char>, n: nat) -> Seq<Seq<char>>
    decreases n,
{
    if n == 0 {
        seq![trimmed(s)]
    } else {
        match pipe_pos(s) {
            None => seq![trimmed(s)],
            Some(p) => seq![trimmed(s.take(p as int))] + pipe_fields(
                trimmed(s.skip(p as int + 3)),
                (n - 1) as nat,
            ),
        }
    }
}

/// The words of `s` joined by single spaces.
pub open spec fn joined(v: Seq<Seq<char>>) -> Seq<char>
    decreases v.len(),
{
    if v.len() == 0 {
        Seq::empty()
    } else if v.len() == 1 {
        v[0]
    } else {
        joined(v.drop_last()) + seq![' '] + v.last()
    }
}

} // verus!
verus! {

/// `s` is one of the strings of `v`.
pub fn contains_string(v: &Vec<String>, s: &str) -> (r: bool)
    ensures
        r == string_views(v@).contains(s@),
{
    let mut i: usize = 0;
    while i < v.len()
        invariant
            i <= v@.len(),
            forall|j: int| 0 <= j < i ==> v@[j]@ != s@,
        decreases v.len() - i,
    {
        if str_eq(v[i].as_str(), s) {
            assert(string_views(v@)[i as int] == s@);
            return true;
        }
        i += 1;
    }
    assert forall|j: int| 0 <= j < v@.len() implies string_views(v@)[j] != s@ by {
        assert(string_views(v@)[j] == v@[j]@);
    }
    false
}

/// A sequence without repetitions whose elements all occur in `b` is no
/// longer than `b`.
pub proof fn lemma_distinct_within<A>(a: Seq<A>, b: Seq<A>)
    requires
        a.no_duplicates(),
        forall|i: int| 0 <= i < a.len() ==> b.contains(#[trigger] a[i]),
    ensures
        a.len() <= b.len(),
{
    a.unique_seq_to_set();
    b.lemma_cardinality_of_set();
    assert(a.to_set().subset_of(b.to_set())) by {
        assert forall|x: A| a.to_set().contains(x) implies b.to_set().contains(x) by {
            let i = choose|i: int| 0 <= i < a.len() && a[i] == x;
            assert(b.contains(a[i]));
        }
    }
    vstd::seq_lib::seq_to_set_is_finite(b);
    vstd::set_lib::lemma_len_subset(a.to_set(), b.to_set());
}

} // verus!
verus! {

// ------------------------------------------------- words and separators

/// `s` holds no separator `|||`.
pub open spec fn no_triple(s: Seq<char>) -> bool {
    forall|p: int| !#[trigger] pipe_at(s, p)
}

/// A word ends where whitespace follows it.
pub proof fn lemma_word_len_prefix(x: Seq<char>, y: Seq<char>)
    requires
        y.len() > 0,
        is_ws(y[0]),
    ensures
        word_len(x + y) == word_len(x),
    decreases x.len(),
{
    if x.len() == 0 {
        assert(x + y =~= y);
    } else if !is_ws(x[0]) {
        assert((x + y).drop_first() =~= x.drop_first() + y);
        lemma_word_len_prefix(x.drop_first(), y);
    }
}

/// The words of a text followed by whitespace and more text are the words
/// of each.
pub proof fn lemma_words_concat(x: Seq<char>, y: Seq<char>)
    requires
        y.len() > 0,
        is_ws(y[0]),
    ensures
        words(x + y) == words(x) + words(y),
    decreases x.len(),
{
    if x.len() == 0 {
        assert(x + y =~= y);
        assert(words(x) =~= Seq::<Seq<char>>::empty());
        assert(words(x) + words(y) =~= words(y));
    } else if is_ws(x[0]) {
        assert((x + y).drop_first() =~= x.drop_first() + y);
        lemma_words_concat(x.drop_first(), y);
    } else {
        lemma_word_len_prefix(x, y);
        let k = word_len(x);
        lemma_word_len_bound(x);
        assert(k >= 1);
        assert((x + y).take(k as int) =~= x.take(k as int));
        assert((x + y).skip(k as int) =~= x.skip(k as int) + y);
        lemma_words_concat(x.skip(k as int), y);
        assert(words(x + y) =~= words(x) + words(y));
    }
}

/// A nonempty text without whitespace is one word.
pub proof fn lemma_words_single(t: Seq<char>)
    requires
        t.len() > 0,
        no_ws(t),
    ensures
        words(t) == seq![t],
{
    lemma_word_len_run(t, t.len() as int);
    assert(!is_ws(t[0]));
    assert(t.take(t.len() as int) =~= t);
    assert(t.skip(t.len() as int) =~= Seq::<char>::empty());
    assert(words(t.skip(t.len() as int)) =~= Seq::<Seq<char>>::empty());
    assert(words(t) =~= seq![t]);
}

/// Joining nonempty words without whitespace by single spaces and
/// splitting the result at whitespace gives back the words.
pub proof fn lemma_words_joined(ts: Seq<Seq<char>>)
    requires
        forall|k: int| 0 <= k < ts.len() ==> (#[trigger] ts[k]).len() > 0 && no_ws(ts[k]),
    ensures
        words(joined(ts)) == ts,
    decreases ts.len(),
{
    if ts.len() == 0 {
        assert(words(joined(ts)) =~= ts);
    } else if ts.len() == 1 {
        lemma_words_single(ts[0]);
        assert(seq![ts[0]] =~= ts);
    } else {
        let d = ts.drop_last();
        assert forall|k: int| 0 <= k < d.len() implies (#[trigger] d[k]).len() > 0 && no_ws(d[k]) by {
            assert(d[k] == ts[k]);
        }
        lemma_words_joined(d);
        let rest = seq![' '] + ts.last();
        assert(joined(ts) =~= joined(d) + rest);
        assert(is_ws(' '));
        lemma_words_concat(joined(d), rest);
        assert(rest.drop_first() =~= ts.last());
        lemma_words_single(ts.last());
        assert(d + seq![ts.last()] =~= ts);
    }
}

/// Two texts without separators joined by a space hold none.
pub proof fn lemma_no_triple_space(x: Seq<char>, y: Seq<char>)
    requires
        no_triple(x),
        no_triple(y),
    ensures
        no_triple(x + seq![' '] + y),
{
    let s = x + seq![' '] + y;
    assert forall|p: int| !#[trigger] pipe_at(s, p) by {
        if pipe_at(s, p) {
            if p + 3 <= x.len() {
                assert(pipe_at(x, p));
            } else if p >= x.len() + 1 {
                assert(pipe_at(y, p - x.len() - 1));
            } else {
                assert(s[x.len() as int] == ' ');
            }
        }
    }
}

/// Words without separators, joined by spaces, hold none.
pub proof fn lemma_no_triple_joined(ts: Seq<Seq<char>>)
    requires
        forall|k: int| 0 <= k < ts.len() ==> no_triple(#[trigger] ts[k]),
    ensures
        no_triple(joined(ts)),
    decreases ts.len(),
{
    if ts.len() == 0 {
        assert forall|p: int| !#[trigger] pipe_at(joined(ts), p) by {}
    } else if ts.len() == 1 {
        assert(no_triple(ts[0]));
    } else {
        let d = ts.drop_last();
        assert forall|k: int| 0 <= k < d.len() implies no_triple(#[trigger] d[k]) by {
            assert(d[k] == ts[k]);
        }
        lemma_no_triple_joined(d);
        assert(no_triple(ts.last()));
        lemma_no_triple_space(joined(d), ts.last());
    }
}

/// The first separator of `x + "|||" + y` is the one after `x`, when `x`
/// holds none and does not end with a bar.
pub proof fn lemma_pipe_pos_after(x: Seq<char>, y: Seq<char>)
    requires
        no_triple(x),
        x.len() == 0 || x.last() != '|',
    ensures
        pipe_pos(x + seq!['|', '|', '|'] + y) == Some(x.len()),
    decreases x.len(),
{
    let s = x + seq!['|', '|', '|'] + y;
    if x.len() == 0 {
        assert(pipe_at(s, 0));
    } else {
        assert(!pipe_at(s, 0)) by {
            if x.len() >= 3 {
                if pipe_at(s, 0) {
                    assert(pipe_at(x, 0));
                }
            } else if x.len() == 2 {
                assert(s[1] == x[1]);
            } else {
                assert(s[0] == x[0]);
            }
        }
        let d = x.drop_first();
        assert(no_triple(d)) by {
            assert forall|p: int| !#[trigger] pipe_at(d, p) by {
                if pipe_at(d, p) {
                    assert(pipe_at(x, p + 1));
                }
            }
        }
        if d.len() > 0 {
            assert(d.last() == x.last());
        }
        assert(s.drop_first() =~= d + seq!['|', '|', '|'] + y);
        lemma_pipe_pos_after(d, y);
    }
}

/// A text without separators is a single field.
pub proof fn lemma_pipe_pos_none(s: Seq<char>)
    requires
        no_triple(s),
    ensures
        pipe_pos(s) is None,
    decreases s.len(),
{
    if s.len() >= 3 {
        assert(!pipe_at(s, 0));
        let d = s.drop_first();
        assert(no_triple(d)) by {
            assert forall|p: int| !#[trigger] pipe_at(d, p) by {
                if pipe_at(d, p) {
                    assert(pipe_at(s, p + 1));
                }
            }
        }
        lemma_pipe_pos_none(d);
    }
}

/// Leading whitespace ends at the first character that is not whitespace.
pub proof fn lemma_trimmed_start_concat(x: Seq<char>, z: Seq<char>)
    requires
        z.len() > 0,
        !is_ws(z[0]),
    ensures
        trimmed_start(x + z) == trimmed_start(x) + z,
    decreases x.len(),
{
    if x.len() == 0 {
        assert(x + z =~= z);
        assert(trimmed_start(x) + z =~= z);
    } else if is_ws(x[0]) {
        assert((x + z).drop_first() =~= x.drop_first() + z);
        lemma_trimmed_start_concat(x.drop_first(), z);
    }
}

/// Trailing whitespace starts after the last character that is not
/// whitespace.
pub proof fn lemma_trimmed_end_concat(z: Seq<char>, y: Seq<char>)
    requires
        z.len() > 0,
        !is_ws(z.last()),
    ensures
        trimmed_end(z + y) == z + trimmed_end(y),
    decreases y.len(),
{
    if y.len() == 0 {
        assert(z + y =~= z);
        assert(z + trimmed_end(y) =~= z);
    } else if is_ws(y.last()) {
        assert((z + y).drop_last() =~= z + y.drop_last());
        lemma_trimmed_end_concat(z, y.drop_last());
    } else {
        assert((z + y).last() == y.last());
    }
}

/// Removing leading whitespace keeps a suffix.
pub proof fn lemma_trimmed_start_suffix(x: Seq<char>)
    ensures
        exists|k: int| 0 <= k <= x.len() && trimmed_start(x) == x.skip(k),
        trimmed_start(trimmed_start(x)) == trimmed_start(x),
    decreases x.len(),
{
    if x.len() > 0 && is_ws(x[0]) {
        lemma_trimmed_start_suffix(x.drop_first());
        let k = choose|k: int|
            0 <= k <= x.drop_first().len() && trimmed_start(x.drop_first()) == x.drop_first().skip(k);
        assert(x.drop_first().skip(k) =~= x.skip(k + 1));
    } else {
        assert(x.skip(0) =~= x);
    }
}

} // verus!
