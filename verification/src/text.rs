//! Character-level helpers shared by every module: splitting, trimming,
//! searching, decimal numbers, and the Unicode case and width facts that
//! come from the standard library.
use vstd::prelude::*;
use vstd::string::StringSliceAdditionalSpecFns;
use vstd::string::StrSliceExecFns;
use vstd::utf8::{decode_utf8, encode_utf8, is_char_boundary};

verus! {

// ------------------------------------------------------------------ std glue

/// `str::chars` collected into a vector: the characters of `s`, in order.
#[verifier::external_body]
pub fn chars_of(s: &str) -> (r: Vec<char>)
    ensures
        r@ == s@,
{
    s.chars().collect()
}

/// A `String` made of the characters of `cs`, in order (`FromIterator<char>`).
#[verifier::external_body]
pub fn string_of(cs: &Vec<char>) -> (r: String)
    ensures
        r@ == cs@,
{
    cs.iter().collect()
}

/// The bytes of `s` (`str::as_bytes`), copied into a vector: its UTF-8 encoding.
#[verifier::external_body]
pub fn bytes_of(s: &str) -> (r: Vec<u8>)
    ensures
        r@ == s.spec_bytes(),
{
    s.as_bytes().to_vec()
}

/// What `str::to_lowercase` returns for a string with these characters.
pub uninterp spec fn lowercase_of(s: Seq<char>) -> Seq<char>;

/// `str::to_lowercase`: Unicode lowercase mapping of every character. The full
/// mapping tables are not restated; the result is named by `lowercase_of`.
/// Each character maps to one or more characters, as the documentation of
/// `char::to_lowercase` states, so the result is at least as long.
#[verifier::external_body]
pub fn to_lowercase(s: &str) -> (r: String)
    ensures
        r@ == lowercase_of(s@),
        r@.len() >= s@.len(),
{
    s.to_lowercase()
}

/// What `char::is_uppercase` returns for `c`.
pub uninterp spec fn uppercase_of(c: char) -> bool;

/// `char::is_uppercase`: the Unicode `Uppercase` property of `c`, named by
/// `uppercase_of`; for the ASCII range it is exactly `'A'..='Z'`, as the
/// documentation of the property gives.
#[verifier::external_body]
pub fn is_uppercase(c: char) -> (b: bool)
    ensures
        b == uppercase_of(c),
        ('A' <= c <= 'Z') ==> b,
        ('a' <= c <= 'z') ==> !b,
{
    c.is_uppercase()
}

/// What `char::is_alphanumeric` returns for `c`.
pub uninterp spec fn alphanumeric_of(c: char) -> bool;

/// `char::is_alphanumeric`: the Unicode `Alphabetic` or `Numeric` property,
/// named by `alphanumeric_of`; ASCII letters and digits have it, ASCII
/// punctuation and whitespace do not.
#[verifier::external_body]
pub fn is_alphanumeric(c: char) -> (b: bool)
    ensures
        b == alphanumeric_of(c),
        ('A' <= c <= 'Z' || 'a' <= c <= 'z' || '0' <= c <= '9') ==> b,
{
    c.is_alphanumeric()
}

// ------------------------------------------------------------ whitespace

/// Rust's `char::is_whitespace`: the Unicode `White_Space` property.
pub open spec fn is_ws(c: char) -> bool {
    ||| c == ' '
    ||| ('\t' <= c && c <= '\r')
    ||| c == '\u{85}'
    ||| c == '\u{a0}'
    ||| c == '\u{1680}'
    ||| ('\u{2000}' <= c && c <= '\u{200a}')
    ||| c == '\u{2028}'
    ||| c == '\u{2029}'
    ||| c == '\u{202f}'
    ||| c == '\u{205f}'
    ||| c == '\u{3000}'
}

pub fn is_whitespace(c: char) -> (b: bool)
    ensures
        b == is_ws(c),
{
    c == ' ' || ('\t' <= c && c <= '\r') || c == '\u{85}' || c == '\u{a0}' || c == '\u{1680}'
        || ('\u{2000}' <= c && c <= '\u{200a}') || c == '\u{2028}' || c == '\u{2029}' || c
        == '\u{202f}' || c == '\u{205f}' || c == '\u{3000}'
}

/// Index of the first non-whitespace character at or after `i`.
pub open spec fn skip_ws(s: Seq<char>, i: int) -> int
    decreases s.len() - i,
{
    if 0 <= i < s.len() && is_ws(s[i]) {
        skip_ws(s, i + 1)
    } else {
        i
    }
}

/// Index just past the last non-whitespace character before `j`.
pub open spec fn back_ws(s: Seq<char>, j: int) -> int
    decreases j,
{
    if 0 < j <= s.len() && is_ws(s[j - 1]) {
        back_ws(s, j - 1)
    } else {
        j
    }
}

/// `str::trim_start`.
pub open spec fn trim_start_spec(s: Seq<char>) -> Seq<char> {
    s.skip(skip_ws(s, 0))
}

/// `str::trim_end`.
pub open spec fn trim_end_spec(s: Seq<char>) -> Seq<char> {
    s.take(back_ws(s, s.len() as int))
}

/// `str::trim`.
pub open spec fn trim_spec(s: Seq<char>) -> Seq<char> {
    trim_end_spec(trim_start_spec(s))
}

proof fn lemma_skip_ws_bounds(s: Seq<char>, i: int)
    requires
        0 <= i <= s.len(),
    ensures
        i <= skip_ws(s, i) <= s.len(),
        skip_ws(s, i) < s.len() ==> !is_ws(s[skip_ws(s, i)]),
    decreases s.len() - i,
{
    if i < s.len() && is_ws(s[i]) {
        lemma_skip_ws_bounds(s, i + 1);
    }
}

pub proof fn lemma_back_ws_bounds(s: Seq<char>, j: int)
    requires
        0 <= j <= s.len(),
    ensures
        0 <= back_ws(s, j) <= j,
        back_ws(s, j) > 0 ==> !is_ws(s[back_ws(s, j) - 1]),
    decreases j,
{
    if 0 < j && is_ws(s[j - 1]) {
        lemma_back_ws_bounds(s, j - 1);
    }
}

/// Index of the first character of `v` at or after `from` that is not
/// whitespace, or `v.len()`.
fn first_non_ws(v: &Vec<char>, from: usize) -> (r: usize)
    requires
        from <= v.len(),
    ensures
        r as int == skip_ws(v@, from as int),
        from <= r <= v.len(),
{
    let mut i: usize = from;
    while i < v.len() && is_whitespace(v[i])
        invariant
            from <= i <= v.len(),
            skip_ws(v@, i as int) == skip_ws(v@, from as int),
        decreases v.len() - i,
    {
        i = i + 1;
    }
    i
}

/// Index just past the last character of `v[lo..hi]` that is not whitespace,
/// counted within that slice.
fn last_non_ws(v: &Vec<char>, lo: usize, hi: usize) -> (r: usize)
    requires
        lo <= hi <= v.len(),
    ensures
        r as int == lo + back_ws(v@.subrange(lo as int, hi as int), hi - lo),
        lo <= r <= hi,
{
    let ghost t = v@.subrange(lo as int, hi as int);
    let mut j: usize = hi;
    while j > lo && is_whitespace(v[j - 1])
        invariant
            lo <= j <= hi <= v.len(),
            t == v@.subrange(lo as int, hi as int),
            back_ws(t, j - lo) == back_ws(t, hi - lo),
        decreases j,
    {
        assert(t[j - lo - 1] == v@[j - 1]);
        j = j - 1;
    }
    proof {
        if j > lo {
            assert(t[j - lo - 1] == v@[j - 1]);
        }
    }
    j
}

/// `str::trim`: `s` without leading and trailing whitespace.
pub fn trim(s: &str) -> (r: &str)
    ensures
        r@ == trim_spec(s@),
{
    let v = chars_of(s);
    let a = first_non_ws(&v, 0);
    let b = last_non_ws(&v, a, v.len());
    proof {
        let t = s@.skip(a as int);
        assert(t == v@.subrange(a as int, v.len() as int));
        assert(t.take(b - a) == s@.subrange(a as int, b as int));
    }
    s.substring_char(a, b)
}

/// `str::trim_start`: `s` without leading whitespace.
pub fn trim_start(s: &str) -> (r: &str)
    ensures
        r@ == trim_start_spec(s@),
{
    let v = chars_of(s);
    let a = first_non_ws(&v, 0);
    proof {
        assert(s@.skip(a as int) == s@.subrange(a as int, v.len() as int));
    }
    s.substring_char(a, v.len())
}

/// `str::trim_end`: `s` without trailing whitespace.
pub fn trim_end(s: &str) -> (r: &str)
    ensures
        r@ == trim_end_spec(s@),
{
    let v = chars_of(s);
    let b = last_non_ws(&v, 0, v.len());
    proof {
        assert(v@.subrange(0, v.len() as int) == s@);
        assert(s@.take(b as int) == s@.subrange(0, b as int));
    }
    s.substring_char(0, b)
}

// ------------------------------------------------------------- searching

/// `needle` occurs in `hay` starting at index `i`.
pub open spec fn occurs_at<T>(hay: Seq<T>, needle: Seq<T>, i: int) -> bool {
    0 <= i && i + needle.len() <= hay.len() && hay.subrange(i, i + needle.len()) == needle
}

/// `needle` occurs somewhere in `hay` (`str::contains`).
pub open spec fn contains_spec<T>(hay: Seq<T>, needle: Seq<T>) -> bool {
    exists|i: int| occurs_at(hay, needle, i)
}

/// The first index at or after `from` where `needle` occurs in `hay`.
pub open spec fn first_occurrence_from<T>(hay: Seq<T>, needle: Seq<T>, from: int, r: Option<
    usize,
>) -> bool {
    match r {
        Some(i) => from <= i && occurs_at(hay, needle, i as int) && forall|j: int|
            from <= j < i ==> !occurs_at(hay, needle, j),
        None => forall|j: int| from <= j ==> !occurs_at(hay, needle, j),
    }
}

fn chars_match_at(hay: &Vec<char>, needle: &Vec<char>, i: usize) -> (b: bool)
    requires
        i + needle.len() <= hay.len(),
    ensures
        b == occurs_at(hay@, needle@, i as int),
{
    let mut k: usize = 0;
    while k < needle.len()
        invariant
            i + needle.len() <= hay.len(),
            k <= needle.len(),
            forall|m: int| 0 <= m < k ==> hay@[i + m] == needle@[m],
        decreases needle.len() - k,
    {
        if hay[i + k] != needle[k] {
            proof {
                assert(hay@.subrange(i as int, i + needle.len())[k as int] != needle@[k as int]);
            }
            return false;
        }
        k = k + 1;
    }
    proof {
        assert(hay@.subrange(i as int, i + needle.len()) =~= needle@);
    }
    true
}

/// First occurrence of `needle` in `hay` at or after `from` (`str::find` on
/// characters).
pub fn find_chars(hay: &Vec<char>, needle: &Vec<char>, from: usize) -> (r: Option<usize>)
    ensures
        first_occurrence_from(hay@, needle@, from as int, r),
{
    if needle.len() > hay.len() {
        return None;
    }
    let last = hay.len() - needle.len();
    let mut i: usize = from;
    loop
        invariant
            last == hay.len() - needle.len(),
            needle.len() <= hay.len(),
            from <= i,
            forall|j: int| from <= j < i ==> !occurs_at(hay@, needle@, j),
        decreases last + 1 - i,
    {
        if i > last {
            return None;
        }
        if chars_match_at(hay, needle, i) {
            return Some(i);
        }
        if i == last {
            return None;
        }
        i = i + 1;
    }
}

fn bytes_match_at(hay: &Vec<u8>, needle: &Vec<u8>, i: usize) -> (b: bool)
    requires
        i + needle.len() <= hay.len(),
    ensures
        b == occurs_at(hay@, needle@, i as int),
{
    let mut k: usize = 0;
    while k < needle.len()
        invariant
            i + needle.len() <= hay.len(),
            k <= needle.len(),
            forall|m: int| 0 <= m < k ==> hay@[i + m] == needle@[m],
        decreases needle.len() - k,
    {
        if hay[i + k] != needle[k] {
            proof {
                assert(hay@.subrange(i as int, i + needle.len())[k as int] != needle@[k as int]);
            }
            return false;
        }
        k = k + 1;
    }
    proof {
        assert(hay@.subrange(i as int, i + needle.len()) =~= needle@);
    }
    true
}

/// First occurrence of `needle` in `hay` at or after `from`, on bytes.
pub fn find_bytes(hay: &Vec<u8>, needle: &Vec<u8>, from: usize) -> (r: Option<usize>)
    ensures
        first_occurrence_from(hay@, needle@, from as int, r),
{
    if needle.len() > hay.len() {
        return None;
    }
    let last = hay.len() - needle.len();
    let mut i: usize = from;
    loop
        invariant
            last == hay.len() - needle.len(),
            needle.len() <= hay.len(),
            from <= i,
            forall|j: int| from <= j < i ==> !occurs_at(hay@, needle@, j),
        decreases last + 1 - i,
    {
        if i > last {
            return None;
        }
        if bytes_match_at(hay, needle, i) {
            return Some(i);
        }
        if i == last {
            return None;
        }
        i = i + 1;
    }
}

/// `str::contains` with a string pattern.
pub fn contains(hay: &str, needle: &str) -> (b: bool)
    ensures
        b == contains_spec(hay@, needle@),
{
    let h = chars_of(hay);
    let n = chars_of(needle);
    let r = find_chars(&h, &n, 0);
    proof {
        if r is None {
            assert forall|i: int| !occurs_at(hay@, needle@, i) by {
                if i >= 0 {
                    assert(!occurs_at(h@, n@, i));
                }
            }
        }
    }
    r.is_some()
}

/// Some character of `s` is uppercase.
pub open spec fn has_upper_spec(s: Seq<char>) -> bool {
    exists|i: int| 0 <= i < s.len() && uppercase_of(#[trigger] s[i])
}

/// `s.chars().any(char::is_uppercase)`.
pub fn has_uppercase(s: &str) -> (b: bool)
    ensures
        b == has_upper_spec(s@),
{
    let v = chars_of(s);
    let mut i: usize = 0;
    while i < v.len()
        invariant
            v@ == s@,
            i <= v.len(),
            forall|j: int| 0 <= j < i ==> !uppercase_of(#[trigger] s@[j]),
        decreases v.len() - i,
    {
        if is_uppercase(v[i]) {
            return true;
        }
        i = i + 1;
    }
    false
}

/// Smart case, as vim's `smartcase` and telescope do: an all-lowercase query
/// ignores case.
pub open spec fn folds_case(query: Seq<char>) -> bool {
    !has_upper_spec(query)
}

// --------------------------------------------------------------- numbers

pub open spec fn digit_char(d: nat) -> char {
    if d == 0 {
        '0'
    } else if d == 1 {
        '1'
    } else if d == 2 {
        '2'
    } else if d == 3 {
        '3'
    } else if d == 4 {
        '4'
    } else if d == 5 {
        '5'
    } else if d == 6 {
        '6'
    } else if d == 7 {
        '7'
    } else if d == 8 {
        '8'
    } else {
        '9'
    }
}

/// The decimal spelling of `n`, as `Display` for integers writes it.
pub open spec fn decimal_spec(n: nat) -> Seq<char>
    decreases n,
{
    if n < 10 {
        seq![digit_char(n)]
    } else {
        decimal_spec(n / 10).push(digit_char(n % 10))
    }
}

fn digit(d: usize) -> (c: char)
    requires
        d < 10,
    ensures
        c == digit_char(d as nat),
{
    if d == 0 {
        '0'
    } else if d == 1 {
        '1'
    } else if d == 2 {
        '2'
    } else if d == 3 {
        '3'
    } else if d == 4 {
        '4'
    } else if d == 5 {
        '5'
    } else if d == 6 {
        '6'
    } else if d == 7 {
        '7'
    } else if d == 8 {
        '8'
    } else {
        '9'
    }
}

/// Appends the decimal spelling of `n` to `out`.
pub fn push_decimal(out: &mut Vec<char>, n: usize)
    ensures
        final(out)@ == old(out)@ + decimal_spec(n as nat),
    decreases n,
{
    if n >= 10 {
        push_decimal(out, n / 10);
    }
    out.push(digit(n % 10));
}

/// `n.to_string()`.
pub fn decimal(n: usize) -> (r: String)
    ensures
        r@ == decimal_spec(n as nat),
{
    let mut v: Vec<char> = Vec::new();
    push_decimal(&mut v, n);
    proof {
        assert(v@ == Seq::<char>::empty() + decimal_spec(n as nat));
        assert(Seq::<char>::empty() + decimal_spec(n as nat) =~= decimal_spec(n as nat));
    }
    string_of(&v)
}

pub open spec fn is_digit(c: char) -> bool {
    '0' <= c && c <= '9'
}

pub open spec fn digit_value(c: char) -> nat {
    (c as int - '0' as int) as nat
}

/// The number that the ASCII digits `s` spell.
pub open spec fn digits_value(s: Seq<char>) -> nat
    decreases s.len(),
{
    if s.len() == 0 {
        0
    } else {
        digits_value(s.drop_last()) * 10 + digit_value(s.last())
    }
}

pub open spec fn all_digits(s: Seq<char>) -> bool {
    forall|i: int| 0 <= i < s.len() ==> is_digit(#[trigger] s[i])
}

/// The digits that `str::parse::<usize>` reads: everything after one
/// optional leading `+`.
pub open spec fn unsigned_body(s: Seq<char>) -> Seq<char> {
    if s.len() > 0 && s[0] == '+' {
        s.drop_first()
    } else {
        s
    }
}

/// `str::parse::<usize>`: an optional `+`, then one or more ASCII digits
/// whose value fits in a `usize`.
pub open spec fn parse_usize_spec(s: Seq<char>) -> Option<usize> {
    let body = unsigned_body(s);
    if body.len() > 0 && all_digits(body) && digits_value(body) <= usize::MAX {
        Some(digits_value(body) as usize)
    } else {
        None
    }
}

proof fn lemma_digits_value_push(s: Seq<char>, c: char)
    ensures
        digits_value(s.push(c)) == digits_value(s) * 10 + digit_value(c),
{
    assert(s.push(c).drop_last() =~= s);
}

proof fn lemma_digits_value_monotone(s: Seq<char>, k: int)
    requires
        0 <= k <= s.len(),
        all_digits(s),
    ensures
        digits_value(s.take(k)) <= digits_value(s),
    decreases s.len() - k,
{
    if k < s.len() {
        lemma_digits_value_monotone(s, k + 1);
        assert(s.take(k + 1) =~= s.take(k).push(s[k]));
        lemma_digits_value_push(s.take(k), s[k]);
        assert(digits_value(s.take(k + 1)) == digits_value(s.take(k)) * 10 + digit_value(s[k]));
    } else {
        assert(s.take(k) =~= s);
    }
}

/// `s.parse::<usize>().ok()`.
pub fn parse_usize(s: &str) -> (r: Option<usize>)
    ensures
        r == parse_usize_spec(s@),
{
    let v = chars_of(s);
    let start: usize = if v.len() > 0 && v[0] == '+' {
        1
    } else {
        0
    };
    let ghost body = unsigned_body(s@);
    proof {
        assert(body =~= v@.skip(start as int));
    }
    if start >= v.len() {
        return None;
    }
    let mut acc: usize = 0;
    let mut i: usize = start;
    while i < v.len()
        invariant
            v@ == s@,
            start <= i <= v.len(),
            start < v.len(),
            body == v@.skip(start as int),
            body == unsigned_body(s@),
            all_digits(body.take(i - start)),
            acc as nat == digits_value(body.take(i - start)),
        decreases v.len() - i,
    {
        let c = v[i];
        assert(body[i - start] == c);
        assert(body.take(i - start + 1) =~= body.take(i - start).push(c));
        proof {
            lemma_digits_value_push(body.take(i - start), c);
        }
        if !('0' <= c && c <= '9') {
            assert(!all_digits(body));
            return None;
        }
        let d = (c as u32 - '0' as u32) as usize;
        if acc > (usize::MAX - d) / 10 {
            proof {
                assert(digits_value(body.take(i - start + 1)) > usize::MAX) by (nonlinear_arith)
                    requires
                        acc > (usize::MAX - d) / 10,
                        digits_value(body.take(i - start + 1)) == acc * 10 + d,
                        d < 10,
                ;
                assert(all_digits(body.take(i - start + 1)));
                if all_digits(body) {
                    lemma_digits_value_monotone(body, i - start + 1);
                }
            }
            return None;
        }
        assert(acc * 10 + d <= usize::MAX) by (nonlinear_arith)
            requires
                acc <= (usize::MAX - d) / 10,
                d < 10,
        ;
        acc = acc * 10 + d;
        i = i + 1;
    }
    proof {
        assert(body.take(i - start) =~= body);
    }
    Some(acc)
}

// ---------------------------------------------------------- line splitting

/// Splitting on `sep`, as `str::split` with a one-character pattern does:
/// always at least one (possibly empty) piece.
pub open spec fn split_spec(s: Seq<char>, sep: char) -> Seq<Seq<char>>
    decreases s.len(),
{
    if s.len() == 0 {
        seq![Seq::<char>::empty()]
    } else {
        let p = split_spec(s.drop_last(), sep);
        if s.last() == sep {
            p.push(Seq::<char>::empty())
        } else {
            p.update(p.len() - 1, p.last().push(s.last()))
        }
    }
}

pub proof fn lemma_split_nonempty(s: Seq<char>, sep: char)
    ensures
        split_spec(s, sep).len() >= 1,
    decreases s.len(),
{
    if s.len() > 0 {
        lemma_split_nonempty(s.drop_last(), sep);
    }
}

/// `s.split(sep)`, collected as owned strings.
pub fn split_char(s: &str, sep: char) -> (r: Vec<String>)
    ensures
        r@.len() == split_spec(s@, sep).len(),
        forall|i: int| 0 <= i < r@.len() ==> #[trigger] r@[i]@ == split_spec(s@, sep)[i],
{
    let v = chars_of(s);
    let mut parts: Vec<String> = Vec::new();
    let mut cur: Vec<char> = Vec::new();
    let mut i: usize = 0;
    while i < v.len()
        invariant
            v@ == s@,
            i <= v.len(),
            parts@.len() + 1 == split_spec(v@.take(i as int), sep).len(),
            forall|k: int|
                0 <= k < parts@.len() ==> #[trigger] parts@[k]@ == split_spec(
                    v@.take(i as int),
                    sep,
                )[k],
            cur@ == split_spec(v@.take(i as int), sep).last(),
        decreases v.len() - i,
    {
        proof {
            lemma_split_nonempty(v@.take(i as int), sep);
            assert(v@.take(i + 1).drop_last() =~= v@.take(i as int));
            assert(v@.take(i + 1).last() == v@[i as int]);
        }
        if v[i] == sep {
            let piece = string_of(&cur);
            parts.push(piece);
            cur = Vec::new();
        } else {
            cur.push(v[i]);
        }
        i = i + 1;
    }
    proof {
        lemma_split_nonempty(v@.take(i as int), sep);
        assert(v@.take(i as int) =~= s@);
    }
    let last = string_of(&cur);
    parts.push(last);
    parts
}


// ------------------------------------------------------------- building

/// Appends the characters of `s` to `out`.
pub fn push_str(out: &mut Vec<char>, s: &str)
    ensures
        final(out)@ == old(out)@ + s@,
{
    let v = chars_of(s);
    let mut i: usize = 0;
    while i < v.len()
        invariant
            v@ == s@,
            i <= v.len(),
            out@ == old(out)@ + s@.take(i as int),
        decreases v.len() - i,
    {
        out.push(v[i]);
        i = i + 1;
        proof {
            assert(out@ =~= old(out)@ + s@.take(i as int));
        }
    }
    proof {
        assert(s@.take(i as int) =~= s@);
    }
}

/// `a == b` on string slices.
pub fn str_eq(a: &str, b: &str) -> (r: bool)
    ensures
        r == (a@ == b@),
{
    let x = chars_of(a);
    let y = chars_of(b);
    if x.len() != y.len() {
        return false;
    }
    let mut i: usize = 0;
    while i < x.len()
        invariant
            x@ == a@,
            y@ == b@,
            x@.len() == y@.len(),
            i <= x.len(),
            forall|k: int| 0 <= k < i ==> x@[k] == y@[k],
        decreases x.len() - i,
    {
        if x[i] != y[i] {
            return false;
        }
        i = i + 1;
    }
    proof {
        assert(a@ =~= b@);
    }
    true
}

/// `a` sorts before `b`: the order of `Ord` for `str`, which compares the
/// UTF-8 bytes and so orders by code point, character by character.
pub open spec fn seq_lt(a: Seq<char>, b: Seq<char>) -> bool
    decreases a.len(),
{
    if a.len() == 0 {
        b.len() > 0
    } else if b.len() == 0 {
        false
    } else if a[0] != b[0] {
        (a[0] as int) < (b[0] as int)
    } else {
        seq_lt(a.drop_first(), b.drop_first())
    }
}

pub proof fn lemma_seq_lt_irreflexive(a: Seq<char>)
    ensures
        !seq_lt(a, a),
    decreases a.len(),
{
    if a.len() > 0 {
        lemma_seq_lt_irreflexive(a.drop_first());
    }
}

pub proof fn lemma_seq_lt_trans(a: Seq<char>, b: Seq<char>, c: Seq<char>)
    requires
        seq_lt(a, b),
        seq_lt(b, c),
    ensures
        seq_lt(a, c),
    decreases a.len(),
{
    if a.len() > 0 && b.len() > 0 && c.len() > 0 && a[0] == b[0] && b[0] == c[0] {
        lemma_seq_lt_trans(a.drop_first(), b.drop_first(), c.drop_first());
    }
}

pub proof fn lemma_seq_lt_total(a: Seq<char>, b: Seq<char>)
    ensures
        seq_lt(a, b) || seq_lt(b, a) || a == b,
    decreases a.len(),
{
    if a.len() > 0 && b.len() > 0 && a[0] == b[0] {
        lemma_seq_lt_total(a.drop_first(), b.drop_first());
        if a.drop_first() == b.drop_first() {
            assert(a.drop_first().len() == b.drop_first().len());
            assert(a.len() == b.len());
            assert forall|k: int| 0 <= k < a.len() implies a[k] == b[k] by {
                if k > 0 {
                    assert(a[k] == a.drop_first()[k - 1]);
                    assert(b[k] == b.drop_first()[k - 1]);
                }
            }
            assert(a =~= b);
        }
    } else if a.len() == 0 && b.len() == 0 {
        assert(a =~= b);
    } else if a.len() > 0 && b.len() > 0 {
        assert((a[0] as int) != (b[0] as int));
    }
}

pub proof fn lemma_seq_lt_asym(a: Seq<char>, b: Seq<char>)
    requires
        seq_lt(a, b),
    ensures
        !seq_lt(b, a),
    decreases a.len(),
{
    if a.len() > 0 && b.len() > 0 && a[0] == b[0] {
        lemma_seq_lt_asym(a.drop_first(), b.drop_first());
    }
}

/// `a < b` in the order of `seq_lt`.
pub fn chars_less(a: &Vec<char>, b: &Vec<char>) -> (r: bool)
    ensures
        r == seq_lt(a@, b@),
{
    let mut i: usize = 0;
    proof {
        assert(a@.skip(0) =~= a@);
        assert(b@.skip(0) =~= b@);
    }
    while i < a.len() && i < b.len() && a[i] == b[i]
        invariant
            i <= a.len(),
            i <= b.len(),
            seq_lt(a@.skip(i as int), b@.skip(i as int)) == seq_lt(a@, b@),
        decreases a.len() - i,
    {
        proof {
            assert(a@.skip(i as int).drop_first() =~= a@.skip(i + 1));
            assert(b@.skip(i as int).drop_first() =~= b@.skip(i + 1));
        }
        i = i + 1;
    }
    if i == a.len() {
        i < b.len()
    } else if i == b.len() {
        false
    } else {
        proof {
            assert(a@.skip(i as int)[0] == a@[i as int]);
            assert(b@.skip(i as int)[0] == b@[i as int]);
        }
        a[i] < b[i]
    }
}

/// `a < b` on string slices.
pub fn str_less(a: &str, b: &str) -> (r: bool)
    ensures
        r == seq_lt(a@, b@),
{
    let x = chars_of(a);
    let y = chars_of(b);
    chars_less(&x, &y)
}

/// Index of the first `c` in `s`.
pub open spec fn first_index_of(s: Seq<char>, c: char, i: int) -> int
    decreases s.len() - i,
{
    if i < 0 || i >= s.len() {
        s.len() as int
    } else if s[i] == c {
        i
    } else {
        first_index_of(s, c, i + 1)
    }
}

pub proof fn lemma_first_index_of(s: Seq<char>, c: char, i: int)
    requires
        0 <= i <= s.len(),
    ensures
        i <= first_index_of(s, c, i) <= s.len(),
        first_index_of(s, c, i) < s.len() ==> s[first_index_of(s, c, i)] == c,
        forall|k: int| i <= k < first_index_of(s, c, i) ==> s[k] != c,
    decreases s.len() - i,
{
    if i < s.len() && s[i] != c {
        lemma_first_index_of(s, c, i + 1);
    }
}

/// `str::split_once` with a one-character delimiter.
pub open spec fn split_once_spec(s: Seq<char>, c: char) -> Option<(Seq<char>, Seq<char>)> {
    let i = first_index_of(s, c, 0);
    if i < s.len() {
        Some((s.take(i), s.skip(i + 1)))
    } else {
        None
    }
}

/// `s.split_once(c)`.
pub fn split_once<'a>(s: &'a str, c: char) -> (r: Option<(&'a str, &'a str)>)
    ensures
        match r {
            Some((a, b)) => split_once_spec(s@, c) == Some((a@, b@)),
            None => split_once_spec(s@, c) is None,
        },
{
    let v = chars_of(s);
    let mut i: usize = 0;
    while i < v.len() && v[i] != c
        invariant
            v@ == s@,
            i <= v.len(),
            first_index_of(s@, c, i as int) == first_index_of(s@, c, 0),
        decreases v.len() - i,
    {
        i = i + 1;
    }
    if i < v.len() {
        let a = s.substring_char(0, i);
        let b = s.substring_char(i + 1, v.len());
        proof {
            assert(s@.take(i as int) =~= s@.subrange(0, i as int));
            assert(s@.skip(i + 1) =~= s@.subrange(i + 1, v.len() as int));
        }
        Some((a, b))
    } else {
        None
    }
}

/// `s` begins with `p`.
pub open spec fn starts_with_spec(s: Seq<char>, p: Seq<char>) -> bool {
    p.len() <= s.len() && s.take(p.len() as int) == p
}

/// `s.strip_prefix(p)`.
pub fn strip_prefix<'a>(s: &'a str, p: &str) -> (r: Option<&'a str>)
    ensures
        match r {
            Some(rest) => starts_with_spec(s@, p@) && rest@ == s@.skip(p@.len() as int),
            None => !starts_with_spec(s@, p@),
        },
{
    let v = chars_of(s);
    let w = chars_of(p);
    if w.len() > v.len() {
        return None;
    }
    let mut i: usize = 0;
    while i < w.len()
        invariant
            v@ == s@,
            w@ == p@,
            w.len() <= v.len(),
            i <= w.len(),
            forall|k: int| 0 <= k < i ==> v@[k] == w@[k],
        decreases w.len() - i,
    {
        if v[i] != w[i] {
            proof {
                assert(s@.take(p@.len() as int)[i as int] != p@[i as int]);
            }
            return None;
        }
        i = i + 1;
    }
    proof {
        assert(s@.take(p@.len() as int) =~= p@);
        assert(s@.skip(p@.len() as int) =~= s@.subrange(w.len() as int, v.len() as int));
    }
    Some(s.substring_char(w.len(), v.len()))
}

/// `s` as an owned `String`.
pub fn owned(s: &str) -> (r: String)
    ensures
        r@ == s@,
{
    s.to_owned()
}


/// The pieces of `s` that `str::lines` yields before it strips line endings:
/// split on `\n`, without the empty piece after a final `\n`.
pub open spec fn raw_lines(s: Seq<char>) -> Seq<Seq<char>> {
    if s.len() == 0 {
        Seq::empty()
    } else {
        let p = split_spec(s, '\n');
        if p.last().len() == 0 {
            p.drop_last()
        } else {
            p
        }
    }
}

/// `str::lines`: each line without its `\n`, and without the `\r` of a
/// `\r\n` ending. A last line with no `\n` keeps any `\r`.
pub open spec fn lines_of(s: Seq<char>) -> Seq<Seq<char>> {
    let p = raw_lines(s);
    Seq::new(p.len(), |i: int| {
        let terminated = i < p.len() - 1 || s.last() == '\n';
        if terminated && p[i].len() > 0 && p[i].last() == '\r' {
            p[i].drop_last()
        } else {
            p[i]
        }
    })
}

/// `s.lines()`, collected as owned strings.
pub fn lines(s: &str) -> (r: Vec<String>)
    ensures
        r@.len() == lines_of(s@).len(),
        forall|i: int| 0 <= i < r@.len() ==> #[trigger] r@[i]@ == lines_of(s@)[i],
{
    let ghost p = raw_lines(s@);
    let v = chars_of(s);
    if v.len() == 0 {
        return Vec::new();
    }
    let mut parts = split_char(s, '\n');
    proof {
        lemma_split_nonempty(s@, '\n');
    }
    let n = parts.len();
    if parts[n - 1].as_str().is_empty() {
        parts.pop();
    }
    assert(parts@.len() == p.len());
    assert(forall|i: int| 0 <= i < parts@.len() ==> #[trigger] parts@[i]@ == p[i]);
    let ends_nl = v[v.len() - 1] == '\n';
    let mut out: Vec<String> = Vec::new();
    let mut i: usize = 0;
    while i < parts.len()
        invariant
            v@ == s@,
            v.len() > 0,
            ends_nl == (s@.last() == '\n'),
            parts@.len() == p.len(),
            p == raw_lines(s@),
            forall|k: int| 0 <= k < parts@.len() ==> #[trigger] parts@[k]@ == p[k],
            i <= parts.len(),
            out@.len() == i,
            forall|k: int| 0 <= k < i ==> #[trigger] out@[k]@ == lines_of(s@)[k],
        decreases parts.len() - i,
    {
        let piece = chars_of(parts[i].as_str());
        let terminated = i + 1 < parts.len() || ends_nl;
        if terminated && piece.len() > 0 && piece[piece.len() - 1] == '\r' {
            let mut t: Vec<char> = Vec::new();
            let mut k: usize = 0;
            while k + 1 < piece.len()
                invariant
                    k + 1 <= piece.len(),
                    t@ == piece@.take(k as int),
                decreases piece.len() - k,
            {
                t.push(piece[k]);
                k = k + 1;
                proof {
                    assert(t@ =~= piece@.take(k as int));
                }
            }
            proof {
                assert(t@ =~= piece@.drop_last());
            }
            out.push(string_of(&t));
        } else {
            out.push(string_of(&piece));
        }
        i = i + 1;
    }
    out
}


// ------------------------------------------------------------ byte slices

/// `str::get(start..end)`: the characters between two byte offsets of `s`,
/// or nothing when they are out of order, out of range or not both
/// character boundaries.
pub open spec fn slice_spec(s: Seq<char>, start: usize, end: usize) -> Seq<char> {
    let b = encode_utf8(s);
    if start <= end && end <= str_len(s) && is_char_boundary(b, start as int) && is_char_boundary(b, end as int) {
        decode_utf8(b.subrange(start as int, end as int))
    } else {
        Seq::empty()
    }
}

pub fn byte_slice(s: &str, start: usize, end: usize) -> (r: &str)
    ensures
        r@ == slice_spec(s@, start, end),
{
    proof {
        reveal_strlit("");
        vstd::utf8::encode_utf8_valid_utf8(s@);
    }
    if start <= end && end <= s.len() && s.is_char_boundary(start) && s.is_char_boundary(end) {
        if start == end {
            proof {
                assert(s.spec_bytes().subrange(start as int, end as int) =~= Seq::<u8>::empty());
                vstd::utf8::encode_utf8_decode_utf8(Seq::<char>::empty());
                assert(encode_utf8(Seq::<char>::empty()) =~= Seq::<u8>::empty());
            }
            return "";
        }
        let (head, _) = s.split_at(end);
        proof {
            vstd::utf8::encode_utf8_valid_utf8(head@);
            assert(head.spec_bytes() =~= s.spec_bytes().subrange(0, end as int));
            vstd::utf8::is_char_boundary_iff_not_is_continuation_byte(s.spec_bytes(), start as int);
            vstd::utf8::is_char_boundary_iff_not_is_continuation_byte(head.spec_bytes(), start as int);
            assert(head.spec_bytes()[start as int] == s.spec_bytes()[start as int]);
        }
        let (_, piece) = head.split_at(start);
        proof {
            assert(piece.spec_bytes() =~= s.spec_bytes().subrange(start as int, end as int));
            vstd::utf8::encode_utf8_decode_utf8(piece@);
        }
        piece
    } else {
        ""
    }
}

/// What `str::len` gives for a string with these characters: the length of
/// its UTF-8 encoding.
pub open spec fn str_len(w: Seq<char>) -> usize {
    encode_utf8(w).len() as usize
}

} // verus!
