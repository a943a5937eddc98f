//! Character-level text processing: the grammar of floating-point number
//! literals, splitting postfix input on whitespace, and scanning infix input
//! into fragments (runs of digits, runs of letters, or single symbols).

use vstd::prelude::*;

verus! {

/// One of the ASCII whitespace characters: space, tab, line feed, form feed
/// or carriage return. Postfix input is split on exactly these.
pub open spec fn is_space(c: char) -> bool {
    c == ' ' || c == '\t' || c == '\n' || c == '\r' || c == '\u{c}'
}

pub open spec fn is_digit(c: char) -> bool {
    '0' <= c && c <= '9'
}

pub open spec fn is_letter(c: char) -> bool {
    ('a' <= c && c <= 'z') || ('A' <= c && c <= 'Z')
}

/// ASCII lower-casing of a single character.
pub open spec fn lower(c: char) -> char {
    if 'A' <= c && c <= 'Z' {
        ((c as u32) + 32) as char
    } else {
        c
    }
}

pub fn space_exec(c: char) -> (r: bool)
    ensures
        r == is_space(c),
{
    c == ' ' || c == '\t' || c == '\n' || c == '\r' || c == '\u{c}'
}

pub fn digit_exec(c: char) -> (r: bool)
    ensures
        r == is_digit(c),
{
    '0' <= c && c <= '9'
}

pub fn letter_exec(c: char) -> (r: bool)
    ensures
        r == is_letter(c),
{
    ('a' <= c && c <= 'z') || ('A' <= c && c <= 'Z')
}

/// The first position at or after `i` that does not hold a digit.
pub open spec fn digit_end(s: Seq<char>, i: int) -> int
    decreases s.len() - i,
{
    if 0 <= i < s.len() && is_digit(s[i]) {
        digit_end(s, i + 1)
    } else {
        i
    }
}

pub proof fn lemma_digit_end(s: Seq<char>, i: int)
    requires
        0 <= i <= s.len(),
    ensures
        i <= digit_end(s, i) <= s.len(),
        forall|j: int| i <= j < digit_end(s, i) ==> is_digit(s[j]),
        digit_end(s, i) < s.len() ==> !is_digit(s[digit_end(s, i)]),
    decreases s.len() - i,
{
    if i < s.len() && is_digit(s[i]) {
        lemma_digit_end(s, i + 1);
    }
}

/// True when the characters from `i` on spell the word `w`, compared
/// ASCII-case-insensitively.
pub open spec fn spells_from(s: Seq<char>, i: int, w: Seq<char>) -> bool {
    s.len() - i == w.len() && forall|j: int| 0 <= j < w.len() ==> lower(s[i + j]) == w[j]
}

/// The three keywords that `f64` parsing accepts besides decimal forms,
/// in any letter case: `inf`, `infinity` and `nan`.
pub open spec fn is_special_from(s: Seq<char>, i: int) -> bool {
    ||| spells_from(s, i, seq!['i', 'n', 'f'])
    ||| spells_from(s, i, seq!['i', 'n', 'f', 'i', 'n', 'i', 't', 'y'])
    ||| spells_from(s, i, seq!['n', 'a', 'n'])
}

/// The exponent part of a decimal literal, read from position `k` to the end:
/// `e` or `E`, an optional sign, then at least one digit.
pub open spec fn is_exponent_from(s: Seq<char>, k: int) -> bool {
    k < s.len() && (s[k] == 'e' || s[k] == 'E') && {
        let k2 = if k + 1 < s.len() && (s[k + 1] == '+' || s[k + 1] == '-') {
            k + 2
        } else {
            k + 1
        };
        k2 < s.len() && digit_end(s, k2) == s.len()
    }
}

/// A decimal literal read from position `i` to the end: digits, optionally a
/// point with more digits, optionally an exponent; at least one digit must
/// appear before any exponent.
pub open spec fn is_decimal_from(s: Seq<char>, i: int) -> bool {
    let d1 = digit_end(s, i);
    let dot = d1 < s.len() && s[d1] == '.';
    let m = if dot {
        digit_end(s, d1 + 1)
    } else {
        d1
    };
    let has_digit = d1 > i || (dot && m > d1 + 1);
    has_digit && (m == s.len() || is_exponent_from(s, m))
}

pub open spec fn is_unsigned_number_from(s: Seq<char>, i: int) -> bool {
    is_special_from(s, i) || is_decimal_from(s, i)
}

/// The exact set of texts that parse as a floating-point literal: an optional
/// sign, then either a decimal form or one of the special keywords. This is
/// the grammar that `str::parse::<f64>` documents.
pub open spec fn is_number_text(s: Seq<char>) -> bool {
    if s.len() > 0 && (s[0] == '+' || s[0] == '-') {
        is_unsigned_number_from(s, 1)
    } else {
        is_unsigned_number_from(s, 0)
    }
}

fn lower_exec(c: char) -> (r: char)
    ensures
        r == lower(c),
{
    if 'A' <= c && c <= 'Z' {
        ((c as u8) + 32) as char
    } else {
        c
    }
}

fn digit_end_exec(s: &str, n: usize, i: usize) -> (r: usize)
    requires
        n == s@.len(),
        i <= n,
    ensures
        r == digit_end(s@, i as int),
        i <= r <= n,
{
    let mut j = i;
    while j < n && digit_exec(s.get_char(j))
        invariant
            i <= j <= n,
            n == s@.len(),
            digit_end(s@, i as int) == digit_end(s@, j as int),
        decreases n - j,
    {
        j = j + 1;
    }
    j
}

fn spells_exec(s: &str, n: usize, i: usize, w: &Vec<char>) -> (r: bool)
    requires
        n == s@.len(),
        i <= n,
    ensures
        r == spells_from(s@, i as int, w@),
{
    if n - i != w.len() {
        return false;
    }
    let mut j: usize = 0;
    while j < w.len()
        invariant
            0 <= j <= w@.len(),
            i <= n == s@.len(),
            n - i == w@.len(),
            forall|k: int| 0 <= k < j ==> lower(s@[i + k]) == w@[k],
        decreases w@.len() - j,
    {
        if lower_exec(s.get_char(i + j)) != w[j] {
            return false;
        }
        j = j + 1;
    }
    true
}

fn special_exec(s: &str, n: usize, i: usize) -> (r: bool)
    requires
        n == s@.len(),
        i <= n,
    ensures
        r == is_special_from(s@, i as int),
{
    let inf = vec!['i', 'n', 'f'];
    let infinity = vec!['i', 'n', 'f', 'i', 'n', 'i', 't', 'y'];
    let nan = vec!['n', 'a', 'n'];
    spells_exec(s, n, i, &inf) || spells_exec(s, n, i, &infinity) || spells_exec(s, n, i, &nan)
}

fn exponent_exec(s: &str, n: usize, k: usize) -> (r: bool)
    requires
        n == s@.len(),
        k <= n,
    ensures
        r == is_exponent_from(s@, k as int),
{
    if k >= n {
        return false;
    }
    let c = s.get_char(k);
    if c != 'e' && c != 'E' {
        return false;
    }
    let k2 = if k + 1 < n {
        let c1 = s.get_char(k + 1);
        if c1 == '+' || c1 == '-' {
            k + 2
        } else {
            k + 1
        }
    } else {
        k + 1
    };
    if k2 >= n {
        return false;
    }
    digit_end_exec(s, n, k2) == n
}

fn decimal_exec(s: &str, n: usize, i: usize) -> (r: bool)
    requires
        n == s@.len(),
        i <= n,
    ensures
        r == is_decimal_from(s@, i as int),
{
    let d1 = digit_end_exec(s, n, i);
    let dot = d1 < n && s.get_char(d1) == '.';
    let m = if dot {
        proof {
            lemma_digit_end(s@, i as int);
        }
        digit_end_exec(s, n, d1 + 1)
    } else {
        d1
    };
    let has_digit = d1 > i || (dot && m > d1 + 1);
    has_digit && (m == n || exponent_exec(s, n, m))
}

/// Decides membership in the floating-point literal grammar, character by
/// character, with no parsing of the numeric value itself.
pub fn is_number_fragment(s: &str) -> (r: bool)
    ensures
        r == is_number_text(s@),
{
    let n = s.unicode_len();
    if n > 0 {
        let c0 = s.get_char(0);
        if c0 == '+' || c0 == '-' {
            return special_exec(s, n, 1) || decimal_exec(s, n, 1);
        }
    }
    special_exec(s, n, 0) || decimal_exec(s, n, 0)
}

/// The first position at or after `i` that holds a space (or the end).
pub open spec fn word_end(s: Seq<char>, i: int) -> int
    decreases s.len() - i,
{
    if 0 <= i < s.len() && !is_space(s[i]) {
        word_end(s, i + 1)
    } else {
        i
    }
}

pub proof fn lemma_word_end(s: Seq<char>, i: int)
    requires
        0 <= i <= s.len(),
    ensures
        i <= word_end(s, i) <= s.len(),
        forall|j: int| i <= j < word_end(s, i) ==> !is_space(s[j]),
        word_end(s, i) < s.len() ==> is_space(s[word_end(s, i)]),
    decreases s.len() - i,
{
    if i < s.len() && !is_space(s[i]) {
        lemma_word_end(s, i + 1);
    }
}

/// The maximal runs of non-space characters, in order: what splitting on
/// ASCII whitespace yields.
pub open spec fn words(s: Seq<char>) -> Seq<Seq<char>>
    decreases s.len(),
{
    if s.len() == 0 {
        seq![]
    } else if is_space(s[0]) {
        words(s.skip(1))
    } else {
        let e = word_end(s, 0);
        proof {
            lemma_word_end(s, 1);
        }
        seq![s.take(e)] + words(s.skip(e))
    }
}

proof fn lemma_word_end_extend(a: Seq<char>, rest: Seq<char>, i: int)
    requires
        0 <= i <= a.len(),
        rest.len() > 0,
        is_space(rest[0]),
    ensures
        word_end(a + rest, i) == word_end(a, i),
    decreases a.len() - i,
{
    if i < a.len() {
        assert((a + rest)[i] == a[i]);
        if !is_space(a[i]) {
            lemma_word_end_extend(a, rest, i + 1);
        }
    } else {
        assert((a + rest)[i] == rest[0]);
    }
}

/// Splitting respects concatenation at an inserted space: the words of
/// `a ++ " " ++ b` are the words of `a` followed by the words of `b`.
pub proof fn lemma_words_concat(a: Seq<char>, b: Seq<char>)
    ensures
        words(a + seq![' '] + b) == words(a) + words(b),
    decreases a.len(),
{
    let c = a + seq![' '] + b;
    if a.len() == 0 {
        assert(c[0] == ' ');
        assert(c.skip(1) =~= b);
        assert(words(a) + words(b) =~= words(b));
    } else if is_space(a[0]) {
        assert(c[0] == a[0]);
        assert(c.skip(1) =~= a.skip(1) + seq![' '] + b);
        lemma_words_concat(a.skip(1), b);
    } else {
        assert(c[0] == a[0]);
        lemma_word_end(a, 0);
        lemma_word_end(a, 1);
        assert(seq![' '] + b =~= (seq![' '] + b));
        assert(c =~= a + (seq![' '] + b));
        lemma_word_end_extend(a, seq![' '] + b, 0);
        let e = word_end(a, 0);
        assert(c.take(e) =~= a.take(e));
        assert(c.skip(e) =~= a.skip(e) + seq![' '] + b);
        lemma_words_concat(a.skip(e), b);
        assert(seq![a.take(e)] + (words(a.skip(e)) + words(b)) =~= (seq![a.take(e)] + words(
            a.skip(e),
        )) + words(b));
    }
}

/// A nonempty text without spaces splits into itself alone.
pub proof fn lemma_words_single(s: Seq<char>)
    requires
        s.len() > 0,
        forall|i: int| 0 <= i < s.len() ==> !is_space(#[trigger] s[i]),
    ensures
        words(s) == seq![s],
{
    lemma_word_end(s, 0);
    let e = word_end(s, 0);
    assert(!is_space(s[0]));
    assert(e == s.len());
    assert(s.take(e) =~= s);
    assert(s.skip(e) =~= Seq::<char>::empty());
    assert(words(s) == seq![s.take(e)] + words(s.skip(e)));
    assert(words(s.skip(e)) =~= Seq::<Seq<char>>::empty());
    assert(seq![s.take(e)] + Seq::<Seq<char>>::empty() =~~= seq![s]);
}

/// A number literal is nonempty and contains no whitespace at all.
pub proof fn lemma_number_no_space(s: Seq<char>)
    requires
        is_number_text(s),
    ensures
        s.len() > 0,
        forall|i: int| 0 <= i < s.len() ==> !is_space(#[trigger] s[i]),
{
    if s.len() > 0 && (s[0] == '+' || s[0] == '-') {
        lemma_unsigned_no_space(s, 1);
    } else {
        lemma_unsigned_no_space(s, 0);
    }
}

proof fn lemma_unsigned_no_space(s: Seq<char>, i: int)
    requires
        0 <= i <= s.len(),
        is_unsigned_number_from(s, i),
    ensures
        s.len() > i,
        forall|j: int| i <= j < s.len() ==> !is_space(#[trigger] s[j]),
{
    if is_special_from(s, i) {
        assert forall|j: int| i <= j < s.len() implies !is_space(s[j]) by {
            if is_space(s[j]) {
                assert(lower(s[j]) == s[j]);
                if spells_from(s, i, seq!['i', 'n', 'f']) {
                    assert(lower(s[i + (j - i)]) == seq!['i', 'n', 'f'][j - i]);
                } else if spells_from(s, i, seq!['i', 'n', 'f', 'i', 'n', 'i', 't', 'y']) {
                    assert(lower(s[i + (j - i)]) == seq!['i', 'n', 'f', 'i', 'n', 'i', 't', 'y'][j
                        - i]);
                } else {
                    assert(lower(s[i + (j - i)]) == seq!['n', 'a', 'n'][j - i]);
                }
            }
        }
    } else {
        let d1 = digit_end(s, i);
        lemma_digit_end(s, i);
        let dot = d1 < s.len() && s[d1] == '.';
        let m = if dot {
            digit_end(s, d1 + 1)
        } else {
            d1
        };
        if dot {
            lemma_digit_end(s, d1 + 1);
        }
        assert forall|j: int| i <= j < s.len() implies !is_space(s[j]) by {
            if j >= m {
                let k2 = if m + 1 < s.len() && (s[m + 1] == '+' || s[m + 1] == '-') {
                    m + 2
                } else {
                    m + 1
                };
                lemma_digit_end(s, k2);
                assert(is_exponent_from(s, m));
            }
        }
    }
}

/// The first position at or after `i` that does not hold an ASCII letter.
pub open spec fn letter_end(s: Seq<char>, i: int) -> int
    decreases s.len() - i,
{
    if 0 <= i < s.len() && is_letter(s[i]) {
        letter_end(s, i + 1)
    } else {
        i
    }
}

pub proof fn lemma_letter_end(s: Seq<char>, i: int)
    requires
        0 <= i <= s.len(),
    ensures
        i <= letter_end(s, i) <= s.len(),
        forall|j: int| i <= j < letter_end(s, i) ==> is_letter(s[j]),
        letter_end(s, i) < s.len() ==> !is_letter(s[letter_end(s, i)]),
    decreases s.len() - i,
{
    if i < s.len() && is_letter(s[i]) {
        lemma_letter_end(s, i + 1);
    }
}

/// Whitespace as the infix scanner skips it: the ASCII split set and the
/// vertical tab.
pub open spec fn is_scan_space(c: char) -> bool {
    is_space(c) || c == '\u{b}'
}

pub fn scan_space_exec(c: char) -> (r: bool)
    ensures
        r == is_scan_space(c),
{
    space_exec(c) || c == '\u{b}'
}

/// Where the fragment starting at the non-space character `s[0]` ends: a run
/// of digits, a run of ASCII letters, or a single symbol.
pub open spec fn fragment_end(s: Seq<char>) -> int {
    if s.len() > 0 && is_digit(s[0]) {
        digit_end(s, 0)
    } else if s.len() > 0 && is_letter(s[0]) {
        letter_end(s, 0)
    } else {
        1
    }
}

/// The fragments of infix input, in order: runs of digits, runs of ASCII
/// letters, and single non-space symbols; whitespace separates fragments and
/// is dropped.
pub open spec fn fragments(s: Seq<char>) -> Seq<Seq<char>>
    decreases s.len(),
{
    if s.len() == 0 {
        seq![]
    } else if is_scan_space(s[0]) {
        fragments(s.skip(1))
    } else {
        let e = fragment_end(s);
        proof {
            lemma_digit_end(s, 1);
            lemma_letter_end(s, 1);
        }
        seq![s.take(e)] + fragments(s.skip(e))
    }
}

pub proof fn lemma_word_end_shift(s: Seq<char>, d: int, i: int)
    requires
        0 <= d <= i <= s.len(),
    ensures
        word_end(s.skip(d), i - d) == word_end(s, i) - d,
    decreases s.len() - i,
{
    if i < s.len() && !is_space(s[i]) {
        lemma_word_end_shift(s, d, i + 1);
    }
}

pub proof fn lemma_digit_end_shift(s: Seq<char>, d: int, i: int)
    requires
        0 <= d <= i <= s.len(),
    ensures
        digit_end(s.skip(d), i - d) == digit_end(s, i) - d,
    decreases s.len() - i,
{
    if i < s.len() && is_digit(s[i]) {
        lemma_digit_end_shift(s, d, i + 1);
    }
}

pub proof fn lemma_letter_end_shift(s: Seq<char>, d: int, i: int)
    requires
        0 <= d <= i <= s.len(),
    ensures
        letter_end(s.skip(d), i - d) == letter_end(s, i) - d,
    decreases s.len() - i,
{
    if i < s.len() && is_letter(s[i]) {
        lemma_letter_end_shift(s, d, i + 1);
    }
}

fn word_end_exec(s: &str, n: usize, i: usize) -> (r: usize)
    requires
        n == s@.len(),
        i <= n,
    ensures
        r == word_end(s@, i as int),
        i <= r <= n,
{
    let mut j = i;
    while j < n && !space_exec(s.get_char(j))
        invariant
            i <= j <= n,
            n == s@.len(),
            word_end(s@, i as int) == word_end(s@, j as int),
        decreases n - j,
    {
        j = j + 1;
    }
    j
}

fn letter_end_exec(s: &str, n: usize, i: usize) -> (r: usize)
    requires
        n == s@.len(),
        i <= n,
    ensures
        r == letter_end(s@, i as int),
        i <= r <= n,
{
    let mut j = i;
    while j < n && letter_exec(s.get_char(j))
        invariant
            i <= j <= n,
            n == s@.len(),
            letter_end(s@, i as int) == letter_end(s@, j as int),
        decreases n - j,
    {
        j = j + 1;
    }
    j
}

/// Splits on runs of ASCII whitespace; what remains are the words of postfix
/// input.
pub fn split_words(s: &str) -> (r: Vec<String>)
    ensures
        r@.map_values(|w: String| w@) == words(s@),
{
    let n = s.unicode_len();
    let mut out: Vec<String> = Vec::new();
    let mut i: usize = 0;
    proof {
        assert(s@.skip(0) =~= s@);
        assert(out@.map_values(|w: String| w@) + words(s@) =~= words(s@));
    }
    while i < n
        invariant
            i <= n == s@.len(),
            out@.map_values(|w: String| w@) + words(s@.skip(i as int)) == words(s@),
        decreases n - i,
    {
        if space_exec(s.get_char(i)) {
            proof {
                assert(s@.skip(i as int).skip(1) =~= s@.skip(i + 1));
            }
            i = i + 1;
        } else {
            let e = word_end_exec(s, n, i);
            proof {
                lemma_word_end(s@, i + 1);
                lemma_word_end_shift(s@, i as int, i as int);
            }
            let frag = s.substring_char(i, e);
            let word = String::from_str(frag);
            proof {
                let tail = s@.skip(i as int);
                assert(tail.take(e - i) =~= s@.subrange(i as int, e as int));
                assert(tail.skip(e - i) =~= s@.skip(e as int));
                assert(out@.push(word).map_values(|w: String| w@) =~= out@.map_values(
                    |w: String| w@,
                ).push(word@));
                assert(out@.map_values(|w: String| w@).push(word@) + words(s@.skip(e as int))
                    =~= out@.map_values(|w: String| w@) + (seq![word@] + words(s@.skip(e as int))));
            }
            out.push(word);
            i = e;
        }
    }
    proof {
        assert(words(s@.skip(n as int)) =~= Seq::<Seq<char>>::empty());
        assert(out@.map_values(|w: String| w@) + Seq::<Seq<char>>::empty() =~= out@.map_values(
            |w: String| w@,
        ));
    }
    out
}

/// Scans infix input into its fragments: digit runs, letter runs and single
/// symbols, with whitespace dropped.
pub fn split_fragments(s: &str) -> (r: Vec<String>)
    ensures
        r@.map_values(|w: String| w@) == fragments(s@),
{
    let n = s.unicode_len();
    let mut out: Vec<String> = Vec::new();
    let mut i: usize = 0;
    proof {
        assert(s@.skip(0) =~= s@);
        assert(out@.map_values(|w: String| w@) + fragments(s@) =~= fragments(s@));
    }
    while i < n
        invariant
            i <= n == s@.len(),
            out@.map_values(|w: String| w@) + fragments(s@.skip(i as int)) == fragments(s@),
        decreases n - i,
    {
        let c = s.get_char(i);
        if scan_space_exec(c) {
            proof {
                assert(s@.skip(i as int).skip(1) =~= s@.skip(i + 1));
            }
            i = i + 1;
        } else {
            let e = if digit_exec(c) {
                proof {
                    lemma_digit_end(s@, i + 1);
                    lemma_digit_end_shift(s@, i as int, i as int);
                }
                digit_end_exec(s, n, i)
            } else if letter_exec(c) {
                proof {
                    lemma_letter_end(s@, i + 1);
                    lemma_letter_end_shift(s@, i as int, i as int);
                }
                letter_end_exec(s, n, i)
            } else {
                i + 1
            };
            let frag = s.substring_char(i, e);
            let word = String::from_str(frag);
            proof {
                let tail = s@.skip(i as int);
                assert(tail.take(e - i) =~= s@.subrange(i as int, e as int));
                assert(tail.skip(e - i) =~= s@.skip(e as int));
                assert(out@.push(word).map_values(|w: String| w@) =~= out@.map_values(
                    |w: String| w@,
                ).push(word@));
                assert(out@.map_values(|w: String| w@).push(word@) + fragments(s@.skip(e as int))
                    =~= out@.map_values(|w: String| w@) + (seq![word@] + fragments(
                    s@.skip(e as int),
                )));
            }
            out.push(word);
            i = e;
        }
    }
    proof {
        assert(fragments(s@.skip(n as int)) =~= Seq::<Seq<char>>::empty());
        assert(out@.map_values(|w: String| w@) + Seq::<Seq<char>>::empty() =~= out@.map_values(
            |w: String| w@,
        ));
    }
    out
}

} // verus!
