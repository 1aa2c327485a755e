//! Characters and strings: the predicates and conversions the rest of the
//! library is written against.
use vstd::prelude::*;

verus! {

/// Unicode `White_Space`, the property `char::is_whitespace` decides: the
/// controls U+0009 to U+000D, the space, U+0085, U+00A0, U+1680, U+2000 to
/// U+200A, U+2028, U+2029, U+202F, U+205F and U+3000.
pub open spec fn unicode_whitespace(c: char) -> bool {
    ||| '\u{9}' <= c <= '\u{d}'
    ||| c == ' '
    ||| c == '\u{85}'
    ||| c == '\u{a0}'
    ||| c == '\u{1680}'
    ||| '\u{2000}' <= c <= '\u{200a}'
    ||| c == '\u{2028}'
    ||| c == '\u{2029}'
    ||| c == '\u{202f}'
    ||| c == '\u{205f}'
    ||| c == '\u{3000}'
}

/// Whether `c` is whitespace (`char::is_whitespace`).
pub fn is_whitespace(c: char) -> (r: bool)
    ensures
        r == unicode_whitespace(c),
{
    ('\u{9}' <= c && c <= '\u{d}') || c == ' ' || c == '\u{85}' || c == '\u{a0}' || c
        == '\u{1680}' || ('\u{2000}' <= c && c <= '\u{200a}') || c == '\u{2028}' || c
        == '\u{2029}' || c == '\u{202f}' || c == '\u{205f}' || c == '\u{3000}'
}

/// Unicode alphabetic-or-numeric, as `char::is_alphanumeric` decides it for a
/// character outside ASCII that is not whitespace.
pub uninterp spec fn unicode_alphanumeric(c: char) -> bool;

/// What `char::is_alphanumeric` answers: within ASCII exactly the letters and
/// the digits; beyond it false for whitespace and otherwise the Unicode
/// property `unicode_alphanumeric`.
pub open spec fn char_alphanumeric(c: char) -> bool {
    if c <= '\u{7f}' {
        spec_ascii_alnum(c)
    } else if unicode_whitespace(c) {
        false
    } else {
        unicode_alphanumeric(c)
    }
}

/// `char::is_alphanumeric`: within ASCII the result is true exactly for the
/// letters and the digits; no whitespace character is alphanumeric (the Unicode
/// `White_Space` characters are separators and controls, neither alphabetic nor
/// numeric); for any other character the result is the Unicode
/// alphabetic-or-numeric property of `c`, which this library names
/// `unicode_alphanumeric` and does not spell out.
#[verifier::external_body]
pub fn is_alphanumeric(c: char) -> (r: bool)
    ensures
        c <= '\u{7f}' ==> r == spec_ascii_alnum(c),
        unicode_whitespace(c) ==> !r,
        '\u{7f}' < c && !unicode_whitespace(c) ==> r == unicode_alphanumeric(c),
{
    c.is_alphanumeric()
}

/// Whether every character of `s` is ASCII.
pub open spec fn ascii_chars(s: Seq<char>) -> bool {
    forall|i: int| 0 <= i < s.len() ==> #[trigger] s[i] <= '\u{7f}'
}

/// `char::to_ascii_uppercase`: `a` to `z` become `A` to `Z`, the rest stays.
pub open spec fn ascii_upper_char(c: char) -> char {
    if 'a' <= c <= 'z' {
        (c as int - 32) as char
    } else {
        c
    }
}

/// `char::to_ascii_lowercase`: `A` to `Z` become `a` to `z`, the rest stays.
pub open spec fn ascii_lower_char(c: char) -> char {
    if 'A' <= c <= 'Z' {
        (c as int + 32) as char
    } else {
        c
    }
}

/// The upper-case form of a string that is not all ASCII (`str::to_uppercase`,
/// full Unicode case mapping).
pub uninterp spec fn unicode_upper(s: Seq<char>) -> Seq<char>;

/// The lower-case form of a string that is not all ASCII (`str::to_lowercase`,
/// full Unicode case mapping).
pub uninterp spec fn unicode_lower(s: Seq<char>) -> Seq<char>;

/// What `str::to_uppercase` gives: on an ASCII string each letter upper-cased
/// and the rest unchanged, otherwise the Unicode mapping `unicode_upper`.
pub open spec fn spec_to_upper(s: Seq<char>) -> Seq<char> {
    if ascii_chars(s) {
        s.map_values(|c: char| ascii_upper_char(c))
    } else {
        unicode_upper(s)
    }
}

/// What `str::to_lowercase` gives: on an ASCII string each letter lower-cased
/// and the rest unchanged, otherwise the Unicode mapping `unicode_lower`.
pub open spec fn spec_to_lower(s: Seq<char>) -> Seq<char> {
    if ascii_chars(s) {
        s.map_values(|c: char| ascii_lower_char(c))
    } else {
        unicode_lower(s)
    }
}

/// `str::to_uppercase`: on a string of ASCII characters the result changes
/// exactly the letters `a` to `z`, into `A` to `Z`; on any other string it is the
/// Unicode upper-case mapping of `s`, named `unicode_upper` and not spelled out
/// here.
#[verifier::external_body]
pub fn to_uppercase(s: &str) -> (r: String)
    ensures
        ascii_chars(s@) ==> r@ == s@.map_values(|c: char| ascii_upper_char(c)),
        !ascii_chars(s@) ==> r@ == unicode_upper(s@),
{
    s.to_uppercase()
}

/// `str::to_lowercase`: on a string of ASCII characters the result changes
/// exactly the letters `A` to `Z`, into `a` to `z`; on any other string it is the
/// Unicode lower-case mapping of `s`, named `unicode_lower` and not spelled out
/// here.
#[verifier::external_body]
pub fn to_lowercase(s: &str) -> (r: String)
    ensures
        ascii_chars(s@) ==> r@ == s@.map_values(|c: char| ascii_lower_char(c)),
        !ascii_chars(s@) ==> r@ == unicode_lower(s@),
{
    s.to_lowercase()
}

/// `char::is_ascii_alphanumeric`.
pub open spec fn spec_ascii_alnum(c: char) -> bool {
    ('0' <= c <= '9') || ('A' <= c <= 'Z') || ('a' <= c <= 'z')
}

/// `char::is_ascii_alphanumeric`.
pub fn is_ascii_alphanumeric(c: char) -> (r: bool)
    ensures
        r == spec_ascii_alnum(c),
{
    ('0' <= c && c <= '9') || ('A' <= c && c <= 'Z') || ('a' <= c && c <= 'z')
}

/// Whether `w` occurs in `h` at position `i`.
pub open spec fn occurs_at(h: Seq<char>, w: Seq<char>, i: int) -> bool {
    0 <= i && i + w.len() <= h.len() && h.subrange(i, i + w.len()) == w
}

/// Whether `v[i..i + w.len()]` equals `w`.
pub fn matches_at(v: &Vec<char>, w: &Vec<char>, i: usize) -> (r: bool)
    ensures
        r == occurs_at(v@, w@, i as int),
{
    if i > v.len() || w.len() > v.len() - i {
        return false;
    }
    let mut j: usize = 0;
    while j < w.len()
        invariant
            j <= w.len(),
            i + w.len() <= v.len(),
            forall|k: int| 0 <= k < j ==> v@[i + k] == w@[k],
        decreases w.len() - j,
    {
        if v[i + j] != w[j] {
            assert(v@.subrange(i as int, i + w.len())[j as int] != w@[j as int]);
            return false;
        }
        j = j + 1;
    }
    assert(v@.subrange(i as int, i + w.len()) =~= w@);
    true
}

/// Whether `w` occurs somewhere in `h` (`str::contains`).
pub open spec fn has_substring(h: Seq<char>, w: Seq<char>) -> bool {
    exists|i: int| occurs_at(h, w, i)
}

/// Whether `w` occurs somewhere in `v`.
pub fn contains_chars(v: &Vec<char>, w: &Vec<char>) -> (r: bool)
    ensures
        r == has_substring(v@, w@),
{
    if w.len() > v.len() {
        return false;
    }
    let last = v.len() - w.len();
    let mut i: usize = 0;
    while i < last
        invariant
            i <= last,
            last == v.len() - w.len(),
            w.len() <= v.len(),
            forall|j: int| 0 <= j < i ==> !occurs_at(v@, w@, j),
        decreases last - i,
    {
        if matches_at(v, w, i) {
            return true;
        }
        i = i + 1;
    }
    if matches_at(v, w, last) {
        return true;
    }
    assert forall|j: int| !occurs_at(v@, w@, j) by {
        if 0 <= j < i {
        }
    }
    false
}

/// Builds a `String` from its characters (`FromIterator<char>` for `String`):
/// the string holds exactly the given characters in order.
#[verifier::external_body]
pub fn string_from_chars(v: &Vec<char>) -> (r: String)
    ensures
        r@ == v@,
{
    v.iter().collect()
}

/// Whether two string slices hold the same characters (`==` on `str`).
pub fn str_eq(a: &str, b: &str) -> (r: bool)
    ensures
        r == (a@ == b@),
{
    let x = chars_of(a);
    let y = chars_of(b);
    if x.len() != y.len() {
        assert(a@.len() != b@.len());
        return false;
    }
    let mut i: usize = 0;
    while i < x.len()
        invariant
            i <= x.len(),
            x.len() == y.len(),
            x@ == a@,
            y@ == b@,
            forall|k: int| 0 <= k < i ==> x@[k] == y@[k],
        decreases x.len() - i,
    {
        if x[i] != y[i] {
            assert(x@[i as int] != y@[i as int]);
            assert(a@ != b@);
            return false;
        }
        i = i + 1;
    }
    assert(x@ =~= y@);
    true
}

/// The characters of a string slice, in order.
pub fn chars_of(s: &str) -> (r: Vec<char>)
    ensures
        r@ == s@,
{
    broadcast use vstd::string::group_string_axioms;

    let mut out: Vec<char> = Vec::new();
    let mut it = s.chars();
    loop
        invariant
            out@ + vstd::std_specs::iter::IteratorSpec::remaining(&it) == s@,
        ensures
            out@ == s@,
        decreases s@.len() - out@.len(),
    {
        match it.next() {
            Some(c) => {
                out.push(c);
            },
            None => {
                break ;
            },
        }
    }
    out
}

/// The position of the first character at or after `i` that is not whitespace
/// (the length of `s` if there is none).
pub open spec fn skip_ws(s: Seq<char>, i: int) -> int
    decreases s.len() - i,
{
    if 0 <= i < s.len() && unicode_whitespace(s[i]) {
        skip_ws(s, i + 1)
    } else {
        i
    }
}

/// The end of `s[lo..hi]` once trailing whitespace is dropped (never below `lo`).
pub open spec fn trim_back(s: Seq<char>, lo: int, hi: int) -> int
    decreases hi - lo,
{
    if lo < hi && unicode_whitespace(s[hi - 1]) {
        trim_back(s, lo, hi - 1)
    } else {
        hi
    }
}

/// `str::trim`: `s` without leading and trailing whitespace.
pub open spec fn spec_trim(s: Seq<char>) -> Seq<char> {
    let a = skip_ws(s, 0);
    s.subrange(a, trim_back(s, a, s.len() as int))
}

pub proof fn lemma_skip_ws_bounds(s: Seq<char>, i: int)
    requires
        0 <= i <= s.len(),
    ensures
        i <= skip_ws(s, i) <= s.len(),
        skip_ws(s, i) < s.len() ==> !unicode_whitespace(s[skip_ws(s, i)]),
    decreases s.len() - i,
{
    if i < s.len() && unicode_whitespace(s[i]) {
        lemma_skip_ws_bounds(s, i + 1);
    }
}

pub proof fn lemma_trim_back_bounds(s: Seq<char>, lo: int, hi: int)
    requires
        0 <= lo <= hi <= s.len(),
    ensures
        lo <= trim_back(s, lo, hi) <= hi,
    decreases hi - lo,
{
    if lo < hi && unicode_whitespace(s[hi - 1]) {
        lemma_trim_back_bounds(s, lo, hi - 1);
    }
}

/// The position of the first non-whitespace character at or after `pos`.
pub fn skip_whitespace(chars: &Vec<char>, pos: usize) -> (r: usize)
    requires
        pos <= chars.len(),
    ensures
        r == skip_ws(chars@, pos as int),
        pos <= r <= chars.len(),
{
    proof {
        lemma_skip_ws_bounds(chars@, pos as int);
    }
    let mut i = pos;
    while i < chars.len() && is_whitespace(chars[i])
        invariant
            pos <= i <= chars.len(),
            skip_ws(chars@, i as int) == skip_ws(chars@, pos as int),
        decreases chars.len() - i,
    {
        i = i + 1;
    }
    i
}

/// The characters `v[lo..hi]`.
pub fn copy_range(v: &Vec<char>, lo: usize, hi: usize) -> (r: Vec<char>)
    requires
        lo <= hi <= v.len(),
    ensures
        r@ == v@.subrange(lo as int, hi as int),
{
    let mut out: Vec<char> = Vec::new();
    let mut i = lo;
    while i < hi
        invariant
            lo <= i <= hi <= v.len(),
            out@ == v@.subrange(lo as int, i as int),
        decreases hi - i,
    {
        out.push(v[i]);
        i = i + 1;
    }
    out
}

/// `str::trim_end`: `s` without trailing whitespace.
pub open spec fn spec_trim_end(s: Seq<char>) -> Seq<char> {
    s.subrange(0, trim_back(s, 0, s.len() as int))
}

/// `str::trim_end` on a character vector.
pub fn trim_end_chars(v: &Vec<char>) -> (r: Vec<char>)
    ensures
        r@ == spec_trim_end(v@),
{
    let mut b = v.len();
    proof {
        lemma_trim_back_bounds(v@, 0, b as int);
    }
    while 0 < b && is_whitespace(v[b - 1])
        invariant
            b <= v.len(),
            trim_back(v@, 0, b as int) == trim_back(v@, 0, v.len() as int),
        decreases b,
    {
        b = b - 1;
    }
    copy_range(v, 0, b)
}

/// `str::trim` on a character vector.
pub fn trim_chars(v: &Vec<char>) -> (r: Vec<char>)
    ensures
        r@ == spec_trim(v@),
{
    let a = skip_whitespace(v, 0);
    let mut b = v.len();
    proof {
        lemma_trim_back_bounds(v@, a as int, b as int);
    }
    while a < b && is_whitespace(v[b - 1])
        invariant
            a <= b <= v.len(),
            trim_back(v@, a as int, b as int) == trim_back(v@, a as int, v.len() as int),
        decreases b - a,
    {
        b = b - 1;
    }
    copy_range(v, a, b)
}

/// Whether every character is an ASCII digit.
pub open spec fn all_digits(d: Seq<char>) -> bool {
    forall|i: int| 0 <= i < d.len() ==> '0' <= #[trigger] d[i] <= '9'
}

/// The number written by a string of ASCII digits.
pub open spec fn digits_value(d: Seq<char>) -> int
    decreases d.len(),
{
    if d.len() == 0 {
        0
    } else {
        digits_value(d.drop_last()) * 10 + (d.last() as int - '0' as int)
    }
}

/// `str::parse::<i64>`: an optional `+` or `-`, then one or more ASCII digits,
/// whose value must fit in `i64`.
pub open spec fn spec_parse_i64(s: Seq<char>) -> Option<i64> {
    let neg = s.len() > 0 && s[0] == '-';
    let d = if s.len() > 0 && (s[0] == '-' || s[0] == '+') {
        s.drop_first()
    } else {
        s
    };
    let v = if neg {
        -digits_value(d)
    } else {
        digits_value(d)
    };
    if d.len() == 0 || !all_digits(d) || v < i64::MIN || v > i64::MAX {
        None
    } else {
        Some(v as i64)
    }
}

proof fn lemma_digits_value_nonneg(d: Seq<char>)
    requires
        all_digits(d),
    ensures
        digits_value(d) >= 0,
    decreases d.len(),
{
    if d.len() > 0 {
        assert(all_digits(d.drop_last()));
        lemma_digits_value_nonneg(d.drop_last());
    }
}

proof fn lemma_digits_value_mono(d: Seq<char>, k: int)
    requires
        all_digits(d),
        0 <= k <= d.len(),
    ensures
        digits_value(d.take(k)) <= digits_value(d),
    decreases d.len(),
{
    if k < d.len() {
        assert(all_digits(d.drop_last()));
        assert(d.drop_last().take(k) =~= d.take(k));
        lemma_digits_value_mono(d.drop_last(), k);
        lemma_digits_value_nonneg(d.drop_last());
    } else {
        assert(d.take(k) =~= d);
    }
}

/// Parses a decimal `i64` as `str::parse::<i64>` does.
pub fn parse_i64(s: &str) -> (r: Option<i64>)
    ensures
        r == spec_parse_i64(s@),
{
    let c = chars_of(s);
    let ghost sv = c@;
    let neg = c.len() > 0 && c[0] == '-';
    let start: usize = if c.len() > 0 && (c[0] == '-' || c[0] == '+') {
        1
    } else {
        0
    };
    let ghost d = if c.len() > 0 && (c@[0] == '-' || c@[0] == '+') {
        sv.drop_first()
    } else {
        sv
    };
    assert(d =~= sv.subrange(start as int, sv.len() as int));
    if start >= c.len() {
        return None;
    }
    // accumulate towards the sign, so that i64::MIN is reachable
    let mut acc: i64 = 0;
    let mut i: usize = start;
    while i < c.len()
        invariant
            start <= i <= c.len(),
            start < c.len(),
            sv == c@,
            sv == s@,
            neg == (sv.len() > 0 && sv[0] == '-'),
            d == (if sv.len() > 0 && (sv[0] == '-' || sv[0] == '+') {
                sv.drop_first()
            } else {
                sv
            }),
            d =~= sv.subrange(start as int, sv.len() as int),
            all_digits(d.take(i - start)),
            acc == (if neg {
                -digits_value(d.take(i - start))
            } else {
                digits_value(d.take(i - start))
            }),
        decreases c.len() - i,
    {
        let ch = c[i];
        if !('0' <= ch && ch <= '9') {
            assert(d[i - start] == ch);
            assert(!all_digits(d));
            return None;
        }
        let digit: i64 = (ch as u32 - '0' as u32) as i64;
        proof {
            let t = d.take(i - start + 1);
            assert(t.drop_last() =~= d.take(i - start));
            assert(t.last() == ch);
            assert(all_digits(t));
        }
        let next = if neg {
            match acc.checked_mul(10) {
                Some(m) => m.checked_sub(digit),
                None => None,
            }
        } else {
            match acc.checked_mul(10) {
                Some(m) => m.checked_add(digit),
                None => None,
            }
        };
        match next {
            Some(v) => {
                acc = v;
            },
            None => {
                proof {
                    // the digits so far already leave i64; so does the whole number
                    let t = d.take(i - start + 1);
                    assert(digits_value(t) == digits_value(d.take(i - start)) * 10 + digit);
                    if all_digits(d) {
                        lemma_digits_value_mono(d, i - start + 1);
                        lemma_digits_value_nonneg(d.take(i - start));
                    }
                }
                return None;
            },
        }
        i = i + 1;
    }
    proof {
        assert(d.take(i - start) =~= d);
    }
    Some(acc)
}

/// The ASCII digit for `d` in `0..10`.
pub open spec fn digit_char(d: int) -> char {
    (d + '0' as int) as char
}

/// The decimal digits of a natural number, without leading zeros.
pub open spec fn nat_digits(n: nat) -> Seq<char>
    decreases n,
{
    if n < 10 {
        seq![digit_char(n as int)]
    } else {
        nat_digits(n / 10).push(digit_char((n % 10) as int))
    }
}

/// The decimal text of an integer, with a `-` for a negative one
/// (`Display` for the integer types).
pub open spec fn decimal_text(n: int) -> Seq<char> {
    if n < 0 {
        seq!['-'] + nat_digits((-n) as nat)
    } else {
        nat_digits(n as nat)
    }
}

proof fn lemma_nat_digits_unfold(n: nat)
    requires
        n >= 10,
    ensures
        nat_digits(n) == nat_digits(n / 10).push(digit_char((n % 10) as int)),
{
}

/// The decimal digits of `m`.
pub fn u64_digits(m: u64) -> (r: Vec<char>)
    ensures
        r@ == nat_digits(m as nat),
{
    // digits from the least significant one, then reversed
    let mut rev: Vec<char> = Vec::new();
    let mut x = m;
    loop
        invariant_except_break
            nat_digits(m as nat) == nat_digits(x as nat) + rev@.reverse(),
        ensures
            nat_digits(m as nat) == rev@.reverse(),
        decreases x,
    {
        let d = x % 10;
        let c = (48u8 + d as u8) as char;
        assert(c == digit_char(d as int));
        if x < 10 {
            let ghost before = rev@;
            rev.push(c);
            proof {
                assert(nat_digits(x as nat) == seq![c]);
                assert(rev@.reverse() =~= seq![c] + before.reverse());
                assert(nat_digits(m as nat) =~= rev@.reverse());
            }
            break;
        }
        let ghost before = rev@;
        rev.push(c);
        proof {
            lemma_nat_digits_unfold(x as nat);
            assert(rev@.reverse() =~= seq![c] + before.reverse());
            assert(nat_digits(x as nat) + before.reverse() =~= nat_digits((x / 10) as nat)
                + rev@.reverse());
        }
        x = x / 10;
    }
    let mut out: Vec<char> = Vec::new();
    let mut i = rev.len();
    while i > 0
        invariant
            i <= rev.len(),
            out@ =~= rev@.subrange(i as int, rev.len() as int).reverse(),
        decreases i,
    {
        i = i - 1;
        out.push(rev[i]);
        assert(out@ =~= rev@.subrange(i as int, rev.len() as int).reverse());
    }
    assert(rev@.subrange(0, rev.len() as int) =~= rev@);
    out
}

/// The decimal text of `n` (`i64::to_string`).
pub fn i64_to_string(n: i64) -> (r: String)
    ensures
        r@ == decimal_text(n as int),
{
    if n < 0 {
        let m: u64 = (0i128 - n as i128) as u64;
        let d = u64_digits(m);
        let mut v: Vec<char> = Vec::new();
        v.push('-');
        let mut i: usize = 0;
        while i < d.len()
            invariant
                i <= d.len(),
                v@ =~= seq!['-'] + d@.take(i as int),
            decreases d.len() - i,
        {
            v.push(d[i]);
            i = i + 1;
        }
        assert(d@.take(i as int) =~= d@);
        string_from_chars(&v)
    } else {
        let d = u64_digits(n as u64);
        string_from_chars(&d)
    }
}

/// The decimal text of `n` (`usize::to_string`).
pub fn usize_to_string(n: usize) -> (r: String)
    ensures
        r@ == nat_digits(n as nat),
{
    let d = u64_digits(n as u64);
    string_from_chars(&d)
}

/// The order of `String`: lexicographic by character (the same as by UTF-8 bytes).
pub open spec fn chars_lt(a: Seq<char>, b: Seq<char>) -> bool
    decreases a.len(),
{
    if a.len() == 0 {
        b.len() > 0
    } else if b.len() == 0 {
        false
    } else if a[0] != b[0] {
        a[0] < b[0]
    } else {
        chars_lt(a.drop_first(), b.drop_first())
    }
}

pub proof fn lemma_chars_lt_transitive(a: Seq<char>, b: Seq<char>, c: Seq<char>)
    requires
        chars_lt(a, b),
        chars_lt(b, c),
    ensures
        chars_lt(a, c),
    decreases a.len(),
{
    if a.len() > 0 && b.len() > 0 && c.len() > 0 && a[0] == b[0] && b[0] == c[0] {
        lemma_chars_lt_transitive(a.drop_first(), b.drop_first(), c.drop_first());
    }
}

pub proof fn lemma_chars_lt_total(a: Seq<char>, b: Seq<char>)
    ensures
        a == b || chars_lt(a, b) || chars_lt(b, a),
        !(chars_lt(a, b) && chars_lt(b, a)),
    decreases a.len(),
{
    if a.len() > 0 && b.len() > 0 {
        lemma_chars_lt_total(a.drop_first(), b.drop_first());
        if a[0] == b[0] && a.drop_first() == b.drop_first() {
            assert forall|i: int| 0 <= i < a.len() implies a[i] == b[i] by {
                if i > 0 {
                    assert(a[i] == a.drop_first()[i - 1]);
                    assert(b[i] == b.drop_first()[i - 1]);
                }
            }
            assert(a =~= b);
        }
    } else if a.len() == 0 && b.len() == 0 {
        assert(a =~= b);
    }
}

/// Whether `a` sorts before `b` as strings.
pub fn str_lt(a: &str, b: &str) -> (r: bool)
    ensures
        r == chars_lt(a@, b@),
{
    let x = chars_of(a);
    let y = chars_of(b);
    let mut i: usize = 0;
    assert(x@.skip(0) =~= x@);
    assert(y@.skip(0) =~= y@);
    while i < x.len() && i < y.len() && x[i] == y[i]
        invariant
            i <= x.len(),
            i <= y.len(),
            chars_lt(x@, y@) == chars_lt(x@.skip(i as int), y@.skip(i as int)),
        decreases x.len() - i,
    {
        assert(x@.skip(i as int).drop_first() =~= x@.skip(i + 1));
        assert(y@.skip(i as int).drop_first() =~= y@.skip(i + 1));
        i = i + 1;
    }
    assert(x@.skip(0) =~= x@);
    assert(y@.skip(0) =~= y@);
    if i == x.len() {
        i < y.len()
    } else if i == y.len() {
        false
    } else {
        x[i] < y[i]
    }
}

} // verus!
