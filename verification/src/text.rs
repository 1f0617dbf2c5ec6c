//! Character-level helpers: whitespace classification, scanning for a
//! character, splitting into whitespace-separated words, decimal
//! rendering and reading of integers, and building `String`s.

use vstd::prelude::*;

verus! {

/// Trusted: `String::push` appends `ch` to the end of the string, as the
/// standard library documents it; nothing else of the string changes.
pub assume_specification[ String::push ](s: &mut String, ch: char)
    ensures
        final(s)@ == old(s)@.push(ch),
;

// ---------------------------------------------------------------------
// Character classes
// ---------------------------------------------------------------------

/// The characters that have the Unicode `White_Space` property, which is
/// what `char::is_whitespace` (and so `str::trim` and
/// `str::split_whitespace`) tests for.
pub open spec fn is_ws(c: char) -> bool {
    ||| c == '\t'
    ||| c == '\n'
    ||| c == '\u{0B}'
    ||| c == '\u{0C}'
    ||| c == '\r'
    ||| c == ' '
    ||| c == '\u{85}'
    ||| c == '\u{A0}'
    ||| c == '\u{1680}'
    ||| ('\u{2000}' <= c && c <= '\u{200A}')
    ||| c == '\u{2028}'
    ||| c == '\u{2029}'
    ||| c == '\u{202F}'
    ||| c == '\u{205F}'
    ||| c == '\u{3000}'
}

pub fn is_whitespace(c: char) -> (r: bool)
    ensures
        r == is_ws(c),
{
    c == '\t' || c == '\n' || c == '\u{0B}' || c == '\u{0C}' || c == '\r' || c == ' ' || c
        == '\u{85}' || c == '\u{A0}' || c == '\u{1680}' || ('\u{2000}' <= c && c <= '\u{200A}')
        || c == '\u{2028}' || c == '\u{2029}' || c == '\u{202F}' || c == '\u{205F}' || c
        == '\u{3000}'
}

pub open spec fn is_ascii_digit(c: char) -> bool {
    '0' <= c && c <= '9'
}

pub open spec fn is_ascii_alpha(c: char) -> bool {
    ('a' <= c && c <= 'z') || ('A' <= c && c <= 'Z')
}

/// A character that may start a register name.
pub open spec fn is_ident_start(c: char) -> bool {
    is_ascii_alpha(c) || c == '_'
}

/// A character that may continue a register name.
pub open spec fn is_ident_continue(c: char) -> bool {
    is_ascii_alpha(c) || is_ascii_digit(c) || c == '_'
}

pub fn ident_start(c: char) -> (r: bool)
    ensures
        r == is_ident_start(c),
{
    ('a' <= c && c <= 'z') || ('A' <= c && c <= 'Z') || c == '_'
}

pub fn ident_continue(c: char) -> (r: bool)
    ensures
        r == is_ident_continue(c),
{
    ('a' <= c && c <= 'z') || ('A' <= c && c <= 'Z') || ('0' <= c && c <= '9') || c == '_'
}

// ---------------------------------------------------------------------
// Scanning
// ---------------------------------------------------------------------

/// The index of the first occurrence of `c` in `s`, or `s.len()` if `c`
/// does not occur.
pub open spec fn first_index(s: Seq<char>, c: char) -> nat
    decreases s.len(),
{
    if s.len() == 0 {
        0
    } else if s[0] == c {
        0
    } else {
        1 + first_index(s.drop_first(), c)
    }
}

pub proof fn lemma_first_index(s: Seq<char>, c: char)
    ensures
        first_index(s, c) <= s.len(),
        first_index(s, c) < s.len() ==> s[first_index(s, c) as int] == c,
        forall|k: int| 0 <= k < first_index(s, c) ==> s[k] != c,
    decreases s.len(),
{
    if s.len() > 0 && s[0] != c {
        lemma_first_index(s.drop_first(), c);
        assert forall|k: int| 0 <= k < first_index(s, c) implies s[k] != c by {
            if k > 0 {
                assert(s[k] == s.drop_first()[k - 1]);
            }
        }
    }
}

/// `first_index` is determined by the two facts that define it.
pub proof fn lemma_first_index_unique(s: Seq<char>, c: char, n: nat)
    requires
        n <= s.len(),
        n < s.len() ==> s[n as int] == c,
        forall|k: int| 0 <= k < n ==> s[k] != c,
    ensures
        first_index(s, c) == n,
    decreases s.len(),
{
    if s.len() > 0 && s[0] != c {
        assert forall|k: int| 0 <= k < n - 1 implies s.drop_first()[k] != c by {
            assert(s.drop_first()[k] == s[k + 1]);
        }
        if n > 0 {
            lemma_first_index_unique(s.drop_first(), c, (n - 1) as nat);
        }
    }
}

/// Scan `v[start..end)` for `c`; the result is `start` plus the index of
/// its first occurrence in that range, or `end`.
pub fn find_char(v: &Vec<char>, start: usize, end: usize, c: char) -> (r: usize)
    requires
        start <= end <= v.len(),
    ensures
        r == start + first_index(v@.subrange(start as int, end as int), c),
        start <= r <= end,
{
    let mut i = start;
    while i < end && v[i] != c
        invariant
            start <= i <= end <= v.len(),
            forall|k: int| start <= k < i ==> v@[k] != c,
        decreases end - i,
    {
        i += 1;
    }
    proof {
        let s = v@.subrange(start as int, end as int);
        assert forall|k: int| 0 <= k < i - start implies s[k] != c by {
            assert(s[k] == v@[start + k]);
        }
        lemma_first_index_unique(s, c, (i - start) as nat);
    }
    i
}

/// The number of non-whitespace characters at the front of `s`.
pub open spec fn word_len(s: Seq<char>) -> nat
    decreases s.len(),
{
    if s.len() == 0 || is_ws(s[0]) {
        0
    } else {
        1 + word_len(s.drop_first())
    }
}

pub proof fn lemma_word_len(s: Seq<char>)
    ensures
        word_len(s) <= s.len(),
        s.len() > 0 && !is_ws(s[0]) ==> word_len(s) > 0,
    decreases s.len(),
{
    if s.len() > 0 && !is_ws(s[0]) {
        lemma_word_len(s.drop_first());
    }
}

/// The whitespace-separated words of `s`, in order: what
/// `str::split_whitespace` yields.
pub open spec fn split_ws(s: Seq<char>) -> Seq<Seq<char>>
    decreases s.len(),
{
    if s.len() == 0 {
        seq![]
    } else if is_ws(s[0]) {
        split_ws(s.drop_first())
    } else {
        let n = word_len(s);
        if 0 < n <= s.len() {
            seq![s.take(n as int)] + split_ws(s.skip(n as int))
        } else {
            seq![]
        }
    }
}

/// The words of one source line: whatever precedes the first `#` on the
/// line, split at whitespace.
pub open spec fn line_words(line: Seq<char>) -> Seq<Seq<char>> {
    split_ws(line.take(first_index(line, '#') as int))
}

/// A `String` holding exactly the characters `v[start..end)`.
pub fn string_of(v: &Vec<char>, start: usize, end: usize) -> (r: String)
    requires
        start <= end <= v.len(),
    ensures
        r@ == v@.subrange(start as int, end as int),
{
    let mut s = String::new();
    let mut i = start;
    while i < end
        invariant
            start <= i <= end <= v.len(),
            s@ == v@.subrange(start as int, i as int),
        decreases end - i,
    {
        s.push(v[i]);
        proof {
            assert(v@.subrange(start as int, i + 1) =~= v@.subrange(start as int, i as int).push(
                v@[i as int],
            ));
        }
        i += 1;
    }
    s
}

/// The characters of `s`, in order.
pub fn chars_of(s: &str) -> (v: Vec<char>)
    ensures
        v@ == s@,
{
    let mut v: Vec<char> = Vec::new();
    for c in it: s.chars()
        invariant
            v@ == it.seq().take(it.index() as int),
    {
        v.push(c);
    }
    v
}

/// Whether two string slices hold the same characters.
pub fn str_eq(a: &str, b: &str) -> (r: bool)
    ensures
        r == (a@ == b@),
{
    let va = chars_of(a);
    let vb = chars_of(b);
    if va.len() != vb.len() {
        return false;
    }
    let mut i: usize = 0;
    while i < va.len()
        invariant
            va@ == a@,
            vb@ == b@,
            va.len() == vb.len(),
            i <= va.len(),
            forall|k: int| 0 <= k < i ==> va@[k] == vb@[k],
        decreases va.len() - i,
    {
        if va[i] != vb[i] {
            return false;
        }
        i += 1;
    }
    assert(va@ =~= vb@);
    true
}

/// The words of the line `v[start..end)`, as `String`s.
pub fn words_of_line(v: &Vec<char>, start: usize, end: usize) -> (r: Vec<String>)
    requires
        start <= end <= v.len(),
    ensures
        r@.map_values(|w: String| w@) == line_words(v@.subrange(start as int, end as int)),
{
    let ghost line = v@.subrange(start as int, end as int);
    let stop = find_char(v, start, end, '#');
    proof {
        assert(line.take(first_index(line, '#') as int) =~= v@.subrange(start as int, stop as int));
    }
    let mut words: Vec<String> = Vec::new();
    let mut i = start;
    while i < stop
        invariant
            start <= i <= stop <= end <= v.len(),
            line_words(line) == words@.map_values(|w: String| w@) + split_ws(
                v@.subrange(i as int, stop as int),
            ),
        decreases stop - i,
    {
        let ghost rest = v@.subrange(i as int, stop as int);
        if is_whitespace(v[i]) {
            proof {
                assert(rest.drop_first() =~= v@.subrange(i + 1, stop as int));
            }
            i += 1;
        } else {
            let mut j = i;
            while j < stop && !is_whitespace(v[j])
                invariant
                    i <= j <= stop <= v.len(),
                    word_len(rest) == (j - i) + word_len(v@.subrange(j as int, stop as int)),
                decreases stop - j,
            {
                proof {
                    assert(v@.subrange(j as int, stop as int).drop_first() =~= v@.subrange(
                        j + 1,
                        stop as int,
                    ));
                }
                j += 1;
            }
            proof {
                lemma_word_len(rest);
                assert(rest.take(j - i) =~= v@.subrange(i as int, j as int));
                assert(rest.skip(j - i) =~= v@.subrange(j as int, stop as int));
            }
            let w = string_of(v, i, j);
            let ghost before = words@.map_values(|w: String| w@);
            words.push(w);
            proof {
                assert(words@.map_values(|w: String| w@) =~= before.push(w@));
                assert(before.push(w@) + split_ws(v@.subrange(j as int, stop as int)) =~= before
                    + (seq![w@] + split_ws(v@.subrange(j as int, stop as int))));
            }
            i = j;
        }
    }
    proof {
        assert(v@.subrange(stop as int, stop as int) =~= Seq::<char>::empty());
        assert(words@.map_values(|w: String| w@) + Seq::<Seq<char>>::empty() =~= words@.map_values(
            |w: String| w@,
        ));
    }
    words
}

// ---------------------------------------------------------------------
// Decimal numbers
// ---------------------------------------------------------------------

/// The character for the decimal digit `d`.
pub open spec fn digit_char(d: nat) -> char {
    (d + 48) as char
}

/// The value of the decimal digit character `c`.
pub open spec fn digit_value(c: char) -> nat {
    (c as int - 48) as nat
}

/// The decimal rendering of `n`, with no leading zeros.
pub open spec fn nat_text(n: nat) -> Seq<char>
    decreases n,
{
    if n < 10 {
        seq![digit_char(n)]
    } else {
        nat_text(n / 10).push(digit_char(n % 10))
    }
}

/// The decimal rendering of `i`, with a leading `-` when it is negative.
pub open spec fn int_text(i: int) -> Seq<char> {
    if i < 0 {
        seq!['-'] + nat_text((-i) as nat)
    } else {
        nat_text(i as nat)
    }
}

fn digit(d: u64) -> (c: char)
    requires
        d < 10,
    ensures
        c == digit_char(d as nat),
{
    let b: u8 = (d as u8) + 48;
    b as char
}

/// The decimal rendering of `n`.
pub fn u64_text(n: u64) -> (r: String)
    ensures
        r@ == nat_text(n as nat),
{
    let mut digits: Vec<char> = Vec::new();
    let mut m = n;
    while m >= 10
        invariant
            nat_text(n as nat) == nat_text(m as nat) + digits@,
        decreases m,
    {
        let ghost old_digits = digits@;
        digits.insert(0, digit(m % 10));
        proof {
            assert(nat_text(m as nat) == nat_text((m / 10) as nat).push(digit_char((m % 10) as nat)));
            assert(nat_text(m as nat) + old_digits =~= nat_text((m / 10) as nat) + digits@);
        }
        m = m / 10;
    }
    let ghost old_digits = digits@;
    digits.insert(0, digit(m));
    proof {
        assert(digits@ =~= nat_text(m as nat) + old_digits);
    }
    string_of(&digits, 0, digits.len())
}

/// The decimal rendering of `n`.
pub fn usize_text(n: usize) -> (r: String)
    ensures
        r@ == nat_text(n as nat),
{
    u64_text(n as u64)
}

/// The decimal rendering of `n`, with a leading `-` when it is negative.
pub fn i64_text(n: i64) -> (r: String)
    ensures
        r@ == int_text(n as int),
{
    if n < 0 {
        let m: u64 = if n == i64::MIN {
            9223372036854775808u64
        } else {
            (-n) as u64
        };
        let mut s = String::new();
        s.push('-');
        let digits = u64_text(m);
        s.append(digits.as_str());
        assert(s@ =~= seq!['-'] + nat_text((-n) as nat));
        s
    } else {
        u64_text(n as u64)
    }
}

/// Whether every character of `s` is an ASCII digit.
pub open spec fn all_digits(s: Seq<char>) -> bool {
    forall|k: int| 0 <= k < s.len() ==> is_ascii_digit(#[trigger] s[k])
}

/// The value of a string of decimal digits.
pub open spec fn digits_value(s: Seq<char>) -> nat
    decreases s.len(),
{
    if s.len() == 0 {
        0
    } else {
        digits_value(s.drop_last()) * 10 + digit_value(s.last())
    }
}

/// What `str::parse::<i64>` gives: an optional `+` or `-` sign followed
/// by one or more ASCII digits, whose value must lie in the range of
/// `i64`.
pub open spec fn parse_i64(s: Seq<char>) -> Option<i64> {
    if s.len() == 0 {
        None
    } else {
        let neg = s[0] == '-';
        let body = if s[0] == '-' || s[0] == '+' {
            s.drop_first()
        } else {
            s
        };
        if body.len() == 0 || !all_digits(body) {
            None
        } else {
            let v: int = if neg {
                -(digits_value(body) as int)
            } else {
                digits_value(body) as int
            };
            if i64::MIN <= v <= i64::MAX {
                Some(v as i64)
            } else {
                None
            }
        }
    }
}

proof fn lemma_digits_value_grows(s: Seq<char>, k: int)
    requires
        0 <= k <= s.len(),
        all_digits(s),
    ensures
        digits_value(s.take(k)) <= digits_value(s),
    decreases s.len() - k,
{
    if k < s.len() {
        lemma_digits_value_grows(s, k + 1);
        assert(s.take(k + 1).drop_last() =~= s.take(k));
        let a = digits_value(s.take(k));
        assert(digits_value(s.take(k + 1)) == a * 10 + digit_value(s[k]));
        assert(a <= a * 10 + digit_value(s[k])) by (nonlinear_arith)
            requires
                a >= 0,
                digit_value(s[k]) >= 0,
        ;
    } else {
        assert(s.take(k) =~= s);
    }
}

/// Read an `i64` written in decimal, as `str::parse::<i64>` does.
pub fn read_i64(v: &Vec<char>) -> (r: Option<i64>)
    ensures
        r == parse_i64(v@),
{
    if v.len() == 0 {
        return None;
    }
    let neg = v[0] == '-';
    let start: usize = if v[0] == '-' || v[0] == '+' {
        1
    } else {
        0
    };
    let ghost body = v@.skip(start as int);
    proof {
        if start == 1 {
            assert(body =~= v@.drop_first());
        } else {
            assert(body =~= v@);
        }
    }
    if start == v.len() {
        return None;
    }
    let limit: u64 = 9223372036854775808u64;
    let mut mag: u64 = 0;
    let mut i = start;
    while i < v.len()
        invariant
            start <= i <= v.len(),
            0 < v.len(),
            start < v.len(),
            neg == (v@[0] == '-'),
            body == v@.skip(start as int),
            body == (if v@[0] == '-' || v@[0] == '+' { v@.drop_first() } else { v@ }),
            limit == 9223372036854775808u64,
            mag <= limit,
            all_digits(body.take(i - start)),
            mag == digits_value(body.take(i - start)),
        decreases v.len() - i,
    {
        let c = v[i];
        if !('0' <= c && c <= '9') {
            proof {
                assert(body[i - start] == c);
                assert(!is_ascii_digit(body[i - start]));
            }
            return None;
        }
        let d: u64 = (c as u32 - 48) as u64;
        proof {
            assert(body.take(i - start + 1).drop_last() =~= body.take(i - start));
            assert(body.take(i - start + 1).last() == c);
            assert forall|k: int| 0 <= k < i - start + 1 implies is_ascii_digit(
                #[trigger] body.take(i - start + 1)[k],
            ) by {
                if k < i - start {
                    assert(body.take(i - start + 1)[k] == body.take(i - start)[k]);
                }
            }
        }
        if mag > (limit - d) / 10 {
            // Whatever follows, the value no longer fits.
            proof {
                assert(mag * 10 + d > limit) by (nonlinear_arith)
                    requires
                        mag > (limit - d) / 10,
                        d < 10,
                        limit == 9223372036854775808u64,
                ;
                let t = body.take(i - start + 1);
                assert(digits_value(t) == mag * 10 + d);
                if all_digits(body) {
                    lemma_digits_value_grows(body, i - start + 1);
                }
            }
            return None;
        }
        proof {
            assert(mag * 10 + d <= limit) by (nonlinear_arith)
                requires
                    mag <= (limit - d) / 10,
                    d < 10,
                    limit == 9223372036854775808u64,
            ;
        }
        mag = mag * 10 + d;
        i += 1;
    }
    proof {
        assert(body.take(i - start) =~= body);
    }
    if neg {
        if mag == limit {
            Some(i64::MIN)
        } else {
            Some(-(mag as i64))
        }
    } else {
        if mag == limit {
            None
        } else {
            Some(mag as i64)
        }
    }
}

// ---------------------------------------------------------------------
// Facts for reading back what was written
// ---------------------------------------------------------------------

/// A non-empty word with no whitespace and no `#` in it.
pub open spec fn plain_word(w: Seq<char>) -> bool {
    &&& w.len() > 0
    &&& forall|k: int| 0 <= k < w.len() ==> !is_ws(#[trigger] w[k]) && w[k] != '#'
}

proof fn lemma_word_len_plain(w: Seq<char>, rest: Seq<char>)
    requires
        forall|k: int| 0 <= k < w.len() ==> !is_ws(#[trigger] w[k]),
    ensures
        word_len(w + rest) == w.len() + word_len(rest),
    decreases w.len(),
{
    if w.len() == 0 {
        assert(w + rest =~= rest);
    } else {
        assert((w + rest)[0] == w[0]);
        assert((w + rest).drop_first() =~= w.drop_first() + rest);
        assert forall|k: int| 0 <= k < w.drop_first().len() implies !is_ws(
            #[trigger] w.drop_first()[k],
        ) by {
            assert(w.drop_first()[k] == w[k + 1]);
        }
        lemma_word_len_plain(w.drop_first(), rest);
    }
}

/// A plain word followed by whitespace, or by nothing, is split off whole.
pub proof fn lemma_split_word(w: Seq<char>, rest: Seq<char>)
    requires
        plain_word(w),
        rest.len() == 0 || is_ws(rest[0]),
    ensures
        split_ws(w + rest) == seq![w] + split_ws(rest),
{
    let s = w + rest;
    lemma_word_len_plain(w, rest);
    assert(word_len(rest) == 0);
    assert(s[0] == w[0]);
    assert(s.take(w.len() as int) =~= w);
    assert(s.skip(w.len() as int) =~= rest);
}

/// Leading whitespace does not count.
pub proof fn lemma_split_ws_skip(c: char, rest: Seq<char>)
    requires
        is_ws(c),
    ensures
        split_ws(seq![c] + rest) == split_ws(rest),
{
    assert((seq![c] + rest).drop_first() =~= rest);
}

/// A text with no `#` in it is all words.
pub proof fn lemma_line_words_no_comment(s: Seq<char>)
    requires
        forall|k: int| 0 <= k < s.len() ==> s[k] != '#',
    ensures
        line_words(s) == split_ws(s),
{
    lemma_first_index_unique(s, '#', s.len());
    assert(s.take(s.len() as int) =~= s);
}

proof fn lemma_digit_char(d: nat)
    requires
        d < 10,
    ensures
        is_ascii_digit(digit_char(d)),
        digit_value(digit_char(d)) == d,
{
    assert((d + 48) as char as int == d + 48);
}

/// The decimal text of `n` is a non-empty string of digits whose value
/// is `n`.
pub proof fn lemma_nat_text(n: nat)
    ensures
        nat_text(n).len() > 0,
        all_digits(nat_text(n)),
        digits_value(nat_text(n)) == n,
    decreases n,
{
    if n < 10 {
        lemma_digit_char(n);
        let s = nat_text(n);
        assert(s.drop_last() =~= Seq::<char>::empty());
        assert(digits_value(Seq::<char>::empty()) == 0);
    } else {
        lemma_nat_text(n / 10);
        lemma_digit_char(n % 10);
        let s = nat_text(n);
        let t = nat_text(n / 10);
        assert(s.drop_last() =~= t);
        assert(s.last() == digit_char(n % 10));
        assert(digits_value(s) == digits_value(t) * 10 + digit_value(digit_char(n % 10)));
        assert((n / 10) * 10 + n % 10 == n) by (nonlinear_arith);
        assert forall|k: int| 0 <= k < s.len() implies is_ascii_digit(#[trigger] s[k]) by {
            if k < t.len() {
                assert(s[k] == t[k]);
            }
        }
    }
}

/// The decimal text of an integer reads back as that integer.
pub proof fn lemma_int_text_parses(i: i64)
    ensures
        parse_i64(int_text(i as int)) == Some(i),
        plain_word(int_text(i as int)),
        forall|k: int| 0 <= k < int_text(i as int).len() ==> (#[trigger] int_text(i as int)[k])
            != '\n',
{
    let s = int_text(i as int);
    if i < 0 {
        lemma_nat_text((-i) as nat);
        let t = nat_text((-i) as nat);
        assert(s[0] == '-');
        assert(s.drop_first() =~= t);
        assert forall|k: int| 0 <= k < s.len() implies !is_ws(#[trigger] s[k]) && s[k] != '#'
            && s[k] != '\n' by {
            if k > 0 {
                assert(s[k] == t[k - 1]);
                assert(is_ascii_digit(t[k - 1]));
            }
        }
    } else {
        lemma_nat_text(i as nat);
        assert(is_ascii_digit(s[0]));
        assert forall|k: int| 0 <= k < s.len() implies !is_ws(#[trigger] s[k]) && s[k] != '#'
            && s[k] != '\n' by {
            assert(is_ascii_digit(s[k]));
        }
    }
}

} // verus!
