//! Text handling for kernel interface files: whitespace, trimming, words, lines,
//! decimal numbers.

use vstd::prelude::*;

verus! {

/// The characters of `s`, in order.
pub fn chars_of(s: &str) -> (r: Vec<char>)
    ensures
        r@ == s@,
{
    let mut r: Vec<char> = Vec::new();
    for c in it: s.chars()
        invariant
            r@ == it.seq().take(it.index() as int),
            it.seq() == s@,
    {
        r.push(c);
    }
    r
}

/// The views of a sequence of character vectors.
pub open spec fn views(v: Seq<Vec<char>>) -> Seq<Seq<char>> {
    v.map_values(|w: Vec<char>| w@)
}

proof fn lemma_views_push(v: Seq<Vec<char>>, w: Vec<char>)
    ensures
        views(v.push(w)) == views(v).push(w@),
{
    assert(views(v.push(w)) =~= views(v).push(w@));
}

/// Unicode `White_Space`, as `char::is_whitespace` and `str::trim` use it.
pub open spec fn is_whitespace(c: char) -> bool {
    let v = c as u32;
    (0x9 <= v && v <= 0xd) || v == 0x20 || v == 0x85 || v == 0xa0 || v == 0x1680 || (0x2000 <= v
        && v <= 0x200a) || v == 0x2028 || v == 0x2029 || v == 0x202f || v == 0x205f || v == 0x3000
}

/// Whether `c` is a Unicode whitespace character.
pub fn is_whitespace_char(c: char) -> (r: bool)
    ensures
        r == is_whitespace(c),
{
    let v = c as u32;
    (0x9 <= v && v <= 0xd) || v == 0x20 || v == 0x85 || v == 0xa0 || v == 0x1680 || (0x2000 <= v
        && v <= 0x200a) || v == 0x2028 || v == 0x2029 || v == 0x202f || v == 0x205f || v == 0x3000
}

/// `s` without its leading whitespace.
pub open spec fn trim_start(s: Seq<char>) -> Seq<char>
    decreases s.len(),
{
    if s.len() > 0 && is_whitespace(s[0]) {
        trim_start(s.drop_first())
    } else {
        s
    }
}

/// `s` without its trailing whitespace.
pub open spec fn trim_end(s: Seq<char>) -> Seq<char>
    decreases s.len(),
{
    if s.len() > 0 && is_whitespace(s.last()) {
        trim_end(s.drop_last())
    } else {
        s
    }
}

/// `s` without leading and trailing whitespace (`str::trim`).
pub open spec fn trim(s: Seq<char>) -> Seq<char> {
    trim_end(trim_start(s))
}

proof fn lemma_trim_start_skip(s: Seq<char>, i: int)
    requires
        0 <= i <= s.len(),
        forall|k: int| 0 <= k < i ==> is_whitespace(#[trigger] s[k]),
    ensures
        trim_start(s) == trim_start(s.skip(i)),
    decreases i,
{
    if i > 0 {
        assert(s.drop_first().skip(i - 1) =~= s.skip(i));
        lemma_trim_start_skip(s.drop_first(), i - 1);
    } else {
        assert(s.skip(0) =~= s);
    }
}

proof fn lemma_trim_end_take(s: Seq<char>, j: int)
    requires
        0 <= j <= s.len(),
        forall|k: int| j <= k < s.len() ==> is_whitespace(#[trigger] s[k]),
    ensures
        trim_end(s) == trim_end(s.take(j)),
    decreases s.len() - j,
{
    if j < s.len() {
        assert(s.drop_last().take(j) =~= s.take(j));
        lemma_trim_end_take(s.drop_last(), j);
    } else {
        assert(s.take(j) =~= s);
    }
}

/// `s` without leading and trailing whitespace.
pub fn trimmed(s: &[char]) -> (r: Vec<char>)
    ensures
        r@ == trim(s@),
{
    let n = s.len();
    let mut i: usize = 0;
    while i < n && is_whitespace_char(s[i])
        invariant
            i <= n,
            n == s@.len(),
            forall|k: int| 0 <= k < i ==> is_whitespace(#[trigger] s@[k]),
        decreases n - i,
    {
        i = i + 1;
    }
    proof {
        lemma_trim_start_skip(s@, i as int);
        assert(trim_start(s@.skip(i as int)) == s@.skip(i as int));
    }
    let mut j: usize = n;
    while j > i && is_whitespace_char(s[j - 1])
        invariant
            i <= j <= n,
            n == s@.len(),
            forall|k: int| j <= k < n ==> is_whitespace(#[trigger] s@[k]),
        decreases j,
    {
        j = j - 1;
    }
    let ghost rest = s@.skip(i as int);
    proof {
        assert forall|k: int| (j - i) <= k < rest.len() implies is_whitespace(#[trigger] rest[k]) by {
            assert(rest[k] == s@[k + i]);
        }
        lemma_trim_end_take(rest, j - i);
        let t = rest.take(j - i);
        if t.len() > 0 {
            assert(t.last() == s@[j - 1]);
        }
        assert(trim_end(t) == t);
    }
    let mut r: Vec<char> = Vec::new();
    let mut k: usize = i;
    while k < j
        invariant
            i <= k <= j <= n,
            n == s@.len(),
            r@ == s@.subrange(i as int, k as int),
        decreases j - k,
    {
        r.push(s[k]);
        k = k + 1;
    }
    assert(r@ =~= rest.take(j - i));
    r
}

/// `s` starts with `prefix`.
pub open spec fn starts_with(s: Seq<char>, prefix: Seq<char>) -> bool {
    prefix.len() <= s.len() && s.take(prefix.len() as int) == prefix
}

/// `s` ends with `suffix`.
pub open spec fn ends_with(s: Seq<char>, suffix: Seq<char>) -> bool {
    suffix.len() <= s.len() && s.skip(s.len() - suffix.len()) == suffix
}

/// Whether `a` and `b` hold the same characters.
pub fn same_chars(a: &[char], b: &[char]) -> (r: bool)
    ensures
        r == (a@ == b@),
{
    if a.len() != b.len() {
        return false;
    }
    let mut i: usize = 0;
    while i < a.len()
        invariant
            i <= a@.len(),
            a@.len() == b@.len(),
            forall|k: int| 0 <= k < i ==> a@[k] == b@[k],
        decreases a@.len() - i,
    {
        if a[i] != b[i] {
            return false;
        }
        i = i + 1;
    }
    assert(a@ =~= b@);
    true
}

/// Whether `s` starts with `prefix`.
pub fn has_prefix(s: &[char], prefix: &[char]) -> (r: bool)
    ensures
        r == starts_with(s@, prefix@),
{
    if prefix.len() > s.len() {
        return false;
    }
    let mut i: usize = 0;
    while i < prefix.len()
        invariant
            i <= prefix@.len() <= s@.len(),
            forall|k: int| 0 <= k < i ==> s@[k] == prefix@[k],
        decreases prefix@.len() - i,
    {
        if s[i] != prefix[i] {
            assert(s@.take(prefix@.len() as int)[i as int] == s@[i as int]);
            return false;
        }
        i = i + 1;
    }
    assert(s@.take(prefix@.len() as int) =~= prefix@);
    true
}

/// Whether `s` ends with `suffix`.
pub fn has_suffix(s: &[char], suffix: &[char]) -> (r: bool)
    ensures
        r == ends_with(s@, suffix@),
{
    if suffix.len() > s.len() {
        return false;
    }
    let off = s.len() - suffix.len();
    let mut i: usize = 0;
    while i < suffix.len()
        invariant
            i <= suffix@.len() <= s@.len(),
            off as int + suffix@.len() == s@.len(),
            s@.len() == s.len(),
            forall|k: int| 0 <= k < i ==> s@[off + k] == suffix@[k],
        decreases suffix@.len() - i,
    {
        if s[off + i] != suffix[i] {
            assert(s@.skip(off as int)[i as int] == s@[off + i]);
            return false;
        }
        i = i + 1;
    }
    assert(s@.skip(off as int) =~= suffix@);
    true
}

/// Whether `c` occurs in `s`.
pub fn has_char(s: &[char], c: char) -> (r: bool)
    ensures
        r == s@.contains(c),
{
    let mut i: usize = 0;
    while i < s.len()
        invariant
            i <= s@.len(),
            forall|k: int| 0 <= k < i ==> s@[k] != c,
        decreases s@.len() - i,
    {
        if s[i] == c {
            return true;
        }
        i = i + 1;
    }
    false
}

/// Length of the run of non-whitespace characters that starts `s`.
pub open spec fn word_len(s: Seq<char>) -> nat
    decreases s.len(),
{
    if s.len() == 0 || is_whitespace(s[0]) {
        0
    } else {
        1 + word_len(s.drop_first())
    }
}

pub proof fn lemma_word_len_bounds(s: Seq<char>)
    ensures
        word_len(s) <= s.len(),
        s.len() > 0 && !is_whitespace(s[0]) ==> word_len(s) >= 1,
    decreases s.len(),
{
    if s.len() > 0 && !is_whitespace(s[0]) {
        lemma_word_len_bounds(s.drop_first());
    }
}

/// The whitespace-separated words of `s` (`str::split_whitespace`).
pub open spec fn words(s: Seq<char>) -> Seq<Seq<char>>
    decreases s.len(),
{
    if s.len() == 0 {
        seq![]
    } else if is_whitespace(s[0]) {
        words(s.drop_first())
    } else {
        proof {
            lemma_word_len_bounds(s);
        }
        seq![s.take(word_len(s) as int)] + words(s.skip(word_len(s) as int))
    }
}

proof fn lemma_word_len_exact(s: Seq<char>, m: int)
    requires
        0 <= m <= s.len(),
        forall|k: int| 0 <= k < m ==> !is_whitespace(#[trigger] s[k]),
        m == s.len() || is_whitespace(s[m]),
    ensures
        word_len(s) == m,
    decreases m,
{
    if m > 0 {
        assert forall|k: int| 0 <= k < m - 1 implies !is_whitespace(#[trigger] s.drop_first()[k]) by {
            assert(s.drop_first()[k] == s[k + 1]);
        }
        if m < s.len() {
            assert(is_whitespace(s.drop_first()[m - 1]));
        }
        lemma_word_len_exact(s.drop_first(), m - 1);
    }
}

/// The whitespace-separated words of `s`.
pub fn words_of(s: &[char]) -> (r: Vec<Vec<char>>)
    ensures
        views(r@) == words(s@),
{
    let n = s.len();
    let mut out: Vec<Vec<char>> = Vec::new();
    let mut i: usize = 0;
    assert(s@.skip(0) =~= s@);
    while i < n
        invariant
            i <= n,
            n == s@.len(),
            views(out@) + words(s@.skip(i as int)) == words(s@),
        decreases n - i,
    {
        let ghost t = s@.skip(i as int);
        if is_whitespace_char(s[i]) {
            assert(t.drop_first() =~= s@.skip(i + 1));
            i = i + 1;
        } else {
            let mut w: Vec<char> = Vec::new();
            let mut j: usize = i;
            while j < n && !is_whitespace_char(s[j])
                invariant
                    i <= j <= n,
                    n == s@.len(),
                    w@ == s@.subrange(i as int, j as int),
                    forall|k: int| i <= k < j ==> !is_whitespace(#[trigger] s@[k]),
                decreases n - j,
            {
                w.push(s[j]);
                j = j + 1;
            }
            proof {
                assert forall|k: int| 0 <= k < j - i implies !is_whitespace(#[trigger] t[k]) by {
                    assert(t[k] == s@[k + i]);
                }
                if j < n {
                    assert(t[j - i] == s@[j as int]);
                }
                lemma_word_len_exact(t, j - i);
                assert(t.take(j - i) =~= w@);
                assert(t.skip(j - i) =~= s@.skip(j as int));
                lemma_views_push(out@, w);
                assert(views(out@.push(w)) + words(s@.skip(j as int)) =~= views(out@) + words(t));
            }
            out.push(w);
            i = j;
        }
    }
    assert(views(out@) + words(s@.skip(n as int)) =~= views(out@));
    out
}

/// Length of the text before the first line feed of `s`.
pub open spec fn line_len(s: Seq<char>) -> nat
    decreases s.len(),
{
    if s.len() == 0 || s[0] == '\n' {
        0
    } else {
        1 + line_len(s.drop_first())
    }
}

pub proof fn lemma_line_len_bounds(s: Seq<char>)
    ensures
        line_len(s) <= s.len(),
    decreases s.len(),
{
    if s.len() > 0 && s[0] != '\n' {
        lemma_line_len_bounds(s.drop_first());
    }
}

proof fn lemma_line_len_exact(s: Seq<char>, m: int)
    requires
        0 <= m <= s.len(),
        forall|k: int| 0 <= k < m ==> #[trigger] s[k] != '\n',
        m == s.len() || s[m] == '\n',
    ensures
        line_len(s) == m,
    decreases m,
{
    if m > 0 {
        assert forall|k: int| 0 <= k < m - 1 implies #[trigger] s.drop_first()[k] != '\n' by {
            assert(s.drop_first()[k] == s[k + 1]);
        }
        if m < s.len() {
            assert(s.drop_first()[m - 1] == s[m]);
        }
        lemma_line_len_exact(s.drop_first(), m - 1);
    }
}

/// A line ended by a line feed, without a carriage return that ends it.
pub open spec fn strip_cr(line: Seq<char>) -> Seq<char> {
    if line.len() > 0 && line.last() == '\r' {
        line.drop_last()
    } else {
        line
    }
}

/// The lines of `s` (`str::lines`): split at line feeds, a carriage return before a
/// line feed dropped, no empty line after a final line feed.
pub open spec fn lines(s: Seq<char>) -> Seq<Seq<char>>
    decreases s.len(),
{
    if s.len() == 0 {
        seq![]
    } else {
        proof {
            lemma_line_len_bounds(s);
        }
        if line_len(s) < s.len() {
            seq![strip_cr(s.take(line_len(s) as int))] + lines(s.skip(line_len(s) + 1int))
        } else {
            seq![s]
        }
    }
}

/// The lines of `s`.
pub fn lines_of(s: &[char]) -> (r: Vec<Vec<char>>)
    ensures
        views(r@) == lines(s@),
{
    let n = s.len();
    let mut out: Vec<Vec<char>> = Vec::new();
    let mut i: usize = 0;
    assert(s@.skip(0) =~= s@);
    while i < n
        invariant
            i <= n,
            n == s@.len(),
            views(out@) + lines(s@.skip(i as int)) == lines(s@),
        decreases n - i,
    {
        let ghost t = s@.skip(i as int);
        let mut w: Vec<char> = Vec::new();
        let mut j: usize = i;
        while j < n && s[j] != '\n'
            invariant
                i <= j <= n,
                n == s@.len(),
                w@ == s@.subrange(i as int, j as int),
                forall|k: int| i <= k < j ==> #[trigger] s@[k] != '\n',
            decreases n - j,
        {
            w.push(s[j]);
            j = j + 1;
        }
        proof {
            assert forall|k: int| 0 <= k < j - i implies #[trigger] t[k] != '\n' by {
                assert(t[k] == s@[k + i]);
            }
            if j < n {
                assert(t[j - i] == s@[j as int]);
            }
            lemma_line_len_exact(t, j - i);
            assert(t.take(j - i) =~= w@);
        }
        if j < n {
            if w.len() > 0 && w[w.len() - 1] == '\r' {
                w.pop();
            }
            proof {
                assert(t.skip(j - i + 1) =~= s@.skip(j + 1));
                lemma_views_push(out@, w);
                assert(views(out@.push(w)) + lines(s@.skip(j + 1)) =~= views(out@) + lines(t));
            }
            out.push(w);
            i = j + 1;
        } else {
            proof {
                assert(t =~= w@);
                lemma_views_push(out@, w);
                assert(lines(s@.skip(n as int)) =~= Seq::<Seq<char>>::empty());
                assert(views(out@.push(w)) + lines(s@.skip(n as int)) =~= views(out@) + lines(t));
            }
            out.push(w);
            i = n;
        }
    }
    assert(views(out@) + lines(s@.skip(n as int)) =~= views(out@));
    out
}

/// Why a text is not an unsigned decimal number (as `core::num::IntErrorKind` says it).
#[derive(Clone, Copy, Debug, PartialEq, Eq, Structural)]
pub enum IntParseError {
    /// The text is empty.
    Empty,
    /// A character is not a decimal digit.
    InvalidDigit,
    /// The number is above the largest value of the target type.
    PosOverflow,
}

/// `c` is an ASCII decimal digit.
pub open spec fn is_digit(c: char) -> bool {
    48 <= (c as u32) && (c as u32) <= 57
}

/// The value of an ASCII decimal digit.
pub open spec fn digit_value(c: char) -> nat {
    (c as u32 - 48) as nat
}

/// The value of a run of decimal digits, read from the left, with the first problem
/// met on the way: a character that is not a digit, or a value above `max`.
pub open spec fn digits_value(d: Seq<char>, max: nat) -> Result<nat, IntParseError>
    decreases d.len(),
{
    if d.len() == 0 {
        Ok(0)
    } else {
        match digits_value(d.drop_last(), max) {
            Err(e) => Err(e),
            Ok(v) => if !is_digit(d.last()) {
                Err(IntParseError::InvalidDigit)
            } else if v * 10 + digit_value(d.last()) > max {
                Err(IntParseError::PosOverflow)
            } else {
                Ok(v * 10 + digit_value(d.last()))
            },
        }
    }
}

/// Unsigned decimal parsing as `str::parse` does it for an unsigned integer type whose
/// largest value is `max`: an optional leading `+`, then one or more digits.
pub open spec fn parse_unsigned(s: Seq<char>, max: nat) -> Result<nat, IntParseError> {
    if s.len() == 0 {
        Err(IntParseError::Empty)
    } else if s.len() == 1 && (s[0] == '+' || s[0] == '-') {
        Err(IntParseError::InvalidDigit)
    } else if s[0] == '+' {
        digits_value(s.drop_first(), max)
    } else {
        digits_value(s, max)
    }
}

fn digits_from(s: &[char], start: usize, max: u64) -> (r: Result<u64, IntParseError>)
    requires
        start <= s@.len(),
    ensures
        match digits_value(s@.skip(start as int), max as nat) {
            Ok(v) => r == Ok::<u64, IntParseError>(v as u64),
            Err(e) => r == Err::<u64, IntParseError>(e),
        },
{
    let n = s.len();
    let mut acc: u64 = 0;
    let mut i: usize = start;
    let ghost d = s@.skip(start as int);
    assert(d.take(0) =~= Seq::<char>::empty());
    while i < n
        invariant
            start <= i <= n,
            n == s@.len(),
            d == s@.skip(start as int),
            digits_value(d.take(i - start), max as nat) == Ok::<nat, IntParseError>(acc as nat),
        decreases n - i,
    {
        let c = s[i];
        let ghost p = d.take(i - start + 1);
        assert(p.drop_last() =~= d.take(i - start));
        assert(p.last() == c);
        let code = c as u32;
        if code < 48 || code > 57 {
            proof {
                assert(digits_value(p, max as nat) == Err::<nat, IntParseError>(IntParseError::InvalidDigit));
                lemma_digits_tail_err(d, (i - start + 1) as int, max as nat);
            }
            return Err(IntParseError::InvalidDigit);
        }
        let dv = (code - 48) as u64;
        let next: u128 = acc as u128 * 10 + dv as u128;
        if next > max as u128 {
            proof {
                assert(digits_value(p, max as nat) == Err::<nat, IntParseError>(IntParseError::PosOverflow));
                lemma_digits_tail_err(d, (i - start + 1) as int, max as nat);
            }
            return Err(IntParseError::PosOverflow);
        }
        assert(digits_value(p, max as nat) == Ok::<nat, IntParseError>(next as nat));
        acc = next as u64;
        i = i + 1;
    }
    assert(d.take(n - start) =~= d);
    Ok(acc)
}

/// A failure in a prefix is the failure of the whole run.
proof fn lemma_digits_tail_err(d: Seq<char>, k: int, max: nat)
    requires
        0 <= k <= d.len(),
        digits_value(d.take(k), max) is Err,
    ensures
        digits_value(d, max) == digits_value(d.take(k), max),
    decreases d.len() - k,
{
    if k < d.len() {
        assert(d.drop_last().take(k) =~= d.take(k));
        lemma_digits_tail_err(d.drop_last(), k, max);
    } else {
        assert(d.take(k) =~= d);
    }
}

/// Parses an unsigned decimal number no greater than `max` (see `parse_unsigned`).
pub fn parse_decimal(s: &[char], max: u64) -> (r: Result<u64, IntParseError>)
    ensures
        match parse_unsigned(s@, max as nat) {
            Ok(v) => r == Ok::<u64, IntParseError>(v as u64),
            Err(e) => r == Err::<u64, IntParseError>(e),
        },
{
    let n = s.len();
    if n == 0 {
        return Err(IntParseError::Empty);
    }
    if n == 1 && (s[0] == '+' || s[0] == '-') {
        return Err(IntParseError::InvalidDigit);
    }
    if s[0] == '+' {
        assert(s@.skip(1) =~= s@.drop_first());
        digits_from(s, 1, max)
    } else {
        assert(s@.skip(0) =~= s@);
        digits_from(s, 0, max)
    }
}

/// The character of a decimal digit.
pub open spec fn digit_char(d: nat) -> char {
    (d + 48) as char
}

/// The decimal representation of `n`, without leading zeros.
pub open spec fn decimal(n: nat) -> Seq<char>
    decreases n,
{
    if n < 10 {
        seq![digit_char(n)]
    } else {
        decimal(n / 10).push(digit_char(n % 10))
    }
}

/// Appends the decimal representation of `n` to `out`.
pub fn push_decimal(n: u64, out: &mut Vec<char>)
    ensures
        final(out)@ == old(out)@ + decimal(n as nat),
    decreases n,
{
    if n < 10 {
        out.push(((n + 48) as u8) as char);
        assert(old(out)@ + decimal(n as nat) =~= old(out)@.push(digit_char(n as nat)));
    } else {
        push_decimal(n / 10, out);
        let d = n % 10;
        out.push(((d + 48) as u8) as char);
        assert(old(out)@ + decimal(n as nat) =~= old(out)@ + decimal((n / 10) as nat) + seq![
            digit_char((n % 10) as nat),
        ]);
    }
}


/// Every character of `d` is an ASCII decimal digit.
pub open spec fn all_digits(d: Seq<char>) -> bool {
    forall|i: int| 0 <= i < d.len() ==> is_digit(#[trigger] d[i])
}

/// The value of a run of decimal digits, with no bound.
pub open spec fn digits_nat(d: Seq<char>) -> nat
    decreases d.len(),
{
    if d.len() == 0 {
        0
    } else {
        digits_nat(d.drop_last()) * 10 + digit_value(d.last())
    }
}

/// `10^n`.
pub open spec fn pow10(n: nat) -> nat
    decreases n,
{
    if n == 0 {
        1
    } else {
        10 * pow10((n - 1) as nat)
    }
}

/// A run of digits whose value is at most `max` parses to that value.
pub proof fn lemma_digits_value_exact(d: Seq<char>, max: nat)
    requires
        all_digits(d),
        digits_nat(d) <= max,
    ensures
        digits_value(d, max) == Ok::<nat, IntParseError>(digits_nat(d)),
    decreases d.len(),
{
    if d.len() > 0 {
        assert(is_digit(d[d.len() - 1]));
        lemma_digits_value_exact(d.drop_last(), max);
    }
}

/// The value of two runs of digits put together.
pub proof fn lemma_digits_nat_append(a: Seq<char>, b: Seq<char>)
    ensures
        digits_nat(a + b) == digits_nat(a) * pow10(b.len()) + digits_nat(b),
    decreases b.len(),
{
    if b.len() == 0 {
        assert(a + b =~= a);
        assert(pow10(0) == 1);
        assert(digits_nat(a) * 1 == digits_nat(a));
    } else {
        assert((a + b).drop_last() =~= a + b.drop_last());
        assert(digits_nat(b) == digits_nat(b.drop_last()) * 10 + digit_value(b.last()));
        assert((a + b).last() == b.last());
        lemma_digits_nat_append(a, b.drop_last());
        let k = b.len();
        assert(pow10(k) == 10 * pow10((k - 1) as nat));
        assert(digits_nat(a + b) == (digits_nat(a) * pow10((k - 1) as nat) + digits_nat(
            b.drop_last(),
        )) * 10 + digit_value(b.last()));
        assert((digits_nat(a) * pow10((k - 1) as nat) + digits_nat(b.drop_last())) * 10
            == digits_nat(a) * (10 * pow10((k - 1) as nat)) + digits_nat(b.drop_last()) * 10)
            by (nonlinear_arith);
    }
}

/// Leading zeros do not change the value of a run of digits.
pub proof fn lemma_digits_nat_zeros(k: nat, d: Seq<char>)
    ensures
        digits_nat(Seq::new(k, |i: int| '0') + d) == digits_nat(d),
        all_digits(d) ==> all_digits(Seq::new(k, |i: int| '0') + d),
    decreases k,
{
    let z = Seq::new(k, |i: int| '0');
    lemma_digits_nat_append(z, d);
    lemma_zeros_value(k);
    assert(0 * pow10(d.len()) == 0) by (nonlinear_arith);
    if all_digits(d) {
        assert forall|i: int| 0 <= i < (z + d).len() implies is_digit(#[trigger] (z + d)[i]) by {
            if i >= k {
                assert((z + d)[i] == d[i - k]);
            }
        }
    }
}

proof fn lemma_zeros_value(k: nat)
    ensures
        digits_nat(Seq::new(k, |i: int| '0')) == 0,
    decreases k,
{
    if k > 0 {
        assert(Seq::new(k, |i: int| '0').drop_last() =~= Seq::new((k - 1) as nat, |i: int| '0'));
        lemma_zeros_value((k - 1) as nat);
    }
}

/// The decimal representation of `n` is a run of digits whose value is `n`.
pub proof fn lemma_decimal_value(n: nat)
    ensures
        all_digits(decimal(n)),
        digits_nat(decimal(n)) == n,
        1 <= decimal(n).len(),
    decreases n,
{
    if n < 10 {
        let c = digit_char(n);
        assert(c as u32 == n + 48);
        assert(decimal(n) == seq![c]);
        assert(decimal(n).drop_last() =~= Seq::<char>::empty());
        assert(decimal(n).last() == c);
        assert(digit_value(c) == n);
        assert(digits_nat(Seq::<char>::empty()) == 0);
        assert(digits_nat(decimal(n)) == digits_nat(decimal(n).drop_last()) * 10 + digit_value(
            decimal(n).last(),
        ));
    } else {
        lemma_decimal_value(n / 10);
        let d = decimal(n);
        assert(d.drop_last() =~= decimal(n / 10));
        let c = digit_char(n % 10);
        assert(c as u32 == n % 10 + 48);
        assert(d.last() == c);
        assert(digit_value(c) == n % 10);
        assert(digits_nat(d) == digits_nat(decimal(n / 10)) * 10 + n % 10);
        assert((n / 10) * 10 + n % 10 == n);
        assert forall|i: int| 0 <= i < d.len() implies is_digit(#[trigger] d[i]) by {
            if i < d.len() - 1 {
                assert(d[i] == decimal(n / 10)[i]);
            }
        }
    }
}

/// A run of `k` digits is below `10^k`.
pub proof fn lemma_digits_nat_bound(d: Seq<char>)
    requires
        all_digits(d),
    ensures
        digits_nat(d) < pow10(d.len()),
    decreases d.len(),
{
    if d.len() > 0 {
        assert(is_digit(d[d.len() - 1]));
        lemma_digits_nat_bound(d.drop_last());
        let k = d.len();
        assert(digits_nat(d.drop_last()) + 1 <= pow10((k - 1) as nat));
        assert(digits_nat(d.drop_last()) * 10 + 10 <= pow10((k - 1) as nat) * 10) by (nonlinear_arith)
            requires
                digits_nat(d.drop_last()) + 1 <= pow10((k - 1) as nat),
        ;
    }
}


/// A number written in decimal parses back to itself (when it is within the bound).
pub proof fn lemma_decimal_parses_back(n: nat, max: nat)
    requires
        n <= max,
    ensures
        parse_unsigned(decimal(n), max) == Ok::<nat, IntParseError>(n),
{
    lemma_decimal_value(n);
    lemma_digits_value_exact(decimal(n), max);
    assert(is_digit(decimal(n)[0]));
}
} // verus!
