//! Text utilities for the line-oriented source grammar: splitting the source
//! into lines, trimming and tokenizing a line, and base-16 address parsing.
//!
//! Every executable function here is proved against a spec function over
//! `Seq<char>`; those spec functions are what the parser's contract is
//! ultimately stated over.

use vstd::prelude::*;
use vstd::string::StrSliceExecFns;
use vstd::string::StringExecFns;

verus! {

/// ASCII whitespace, the delimiter set of the source grammar.
pub open spec fn is_space(c: char) -> bool {
    c == ' ' || c == '\t' || c == '\n' || c == '\r' || c == '\x0b' || c == '\x0c'
}

/// Executable whitespace test.
#[verifier::when_used_as_spec(is_space)]
pub fn space(c: char) -> (b: bool)
    ensures
        b == is_space(c),
{
    c == ' ' || c == '\t' || c == '\n' || c == '\r' || c == '\x0b' || c == '\x0c'
}

/// Index of the first occurrence of `c` in `s`, or -1 if absent.
pub open spec fn find_char(s: Seq<char>, c: char) -> int
    decreases s.len(),
{
    if s.len() == 0 {
        -1
    } else if s[0] == c {
        0
    } else {
        let r = find_char(s.drop_first(), c);
        if r < 0 {
            -1
        } else {
            r + 1
        }
    }
}

/// If `c` is absent before index `k`, then `k` (in range and holding `c`)
/// is where `find_char` points; and if `c` is absent altogether, `find_char`
/// is -1.
pub proof fn lemma_find_char_at(s: Seq<char>, c: char, k: int)
    requires
        0 <= k <= s.len(),
        forall|i: int| 0 <= i < k ==> s[i] != c,
        k == s.len() || s[k] == c,
    ensures
        k < s.len() ==> find_char(s, c) == k,
        k == s.len() ==> find_char(s, c) == -1,
    decreases k,
{
    if k == 0 {
        if s.len() > 0 && k == s.len() {
        }
    } else {
        assert(s[0] != c);
        assert(forall|i: int| 0 <= i < k - 1 ==> s.drop_first()[i] == s[i + 1] && s[i + 1] != c);
        if k < s.len() {
            assert(s.drop_first()[k - 1] == s[k]);
        }
        lemma_find_char_at(s.drop_first(), c, k - 1);
    }
}

/// A line with its leading whitespace removed.
pub open spec fn trim(s: Seq<char>) -> Seq<char>
    decreases s.len(),
{
    if s.len() > 0 && is_space(s[0]) {
        trim(s.drop_first())
    } else {
        s
    }
}

/// If the first `k` characters are whitespace and the `k`-th is not (or the
/// line ends there), trimming drops exactly `k` characters.
pub proof fn lemma_trim_at(s: Seq<char>, k: int)
    requires
        0 <= k <= s.len(),
        forall|i: int| 0 <= i < k ==> is_space(s[i]),
        k == s.len() || !is_space(s[k]),
    ensures
        trim(s) == s.skip(k),
    decreases k,
{
    if k == 0 {
        assert(s.skip(0) =~= s);
    } else {
        assert(is_space(s[0]));
        assert(forall|i: int|
            0 <= i < k - 1 ==> s.drop_first()[i] == s[i + 1] && is_space(s[i + 1]));
        if k < s.len() {
            assert(s.drop_first()[k - 1] == s[k]);
        }
        lemma_trim_at(s.drop_first(), k - 1);
        assert(s.drop_first().skip(k - 1) =~= s.skip(k));
    }
}

/// Executable trim of leading whitespace.
pub fn trim_exec<'a>(s: &'a str) -> (r: &'a str)
    ensures
        r@ == trim(s@),
{
    let n = s.unicode_len();
    let mut i: usize = 0;
    while i < n && space(s.get_char(i))
        invariant
            n == s@.len(),
            0 <= i <= n,
            forall|j: int| 0 <= j < i ==> is_space(s@[j]),
        decreases n - i,
    {
        i += 1;
    }
    proof {
        lemma_trim_at(s@, i as int);
    }
    s.substring_char(i, n)
}

/// Length of the leading run of non-whitespace characters.
pub open spec fn token_len(s: Seq<char>) -> int
    decreases s.len(),
{
    if s.len() == 0 || is_space(s[0]) {
        0
    } else {
        1 + token_len(s.drop_first())
    }
}

/// The first whitespace-delimited token of a (trimmed) line.
pub open spec fn token(s: Seq<char>) -> Seq<char> {
    s.take(token_len(s))
}

/// What remains of the line after the first token, trimmed.
pub open spec fn after_token(s: Seq<char>) -> Seq<char> {
    trim(s.skip(token_len(s)))
}

/// If the first `k` characters are non-whitespace and the `k`-th is
/// whitespace (or the line ends there), the leading token has length `k`.
pub proof fn lemma_token_len_at(s: Seq<char>, k: int)
    requires
        0 <= k <= s.len(),
        forall|i: int| 0 <= i < k ==> !is_space(s[i]),
        k == s.len() || is_space(s[k]),
    ensures
        token_len(s) == k,
    decreases k,
{
    if k == 0 {
    } else {
        assert(!is_space(s[0]));
        assert(forall|i: int|
            0 <= i < k - 1 ==> s.drop_first()[i] == s[i + 1] && !is_space(s[i + 1]));
        if k < s.len() {
            assert(s.drop_first()[k - 1] == s[k]);
        }
        lemma_token_len_at(s.drop_first(), k - 1);
    }
}

/// Executable split of a line into its first whitespace-delimited token and
/// the trimmed remainder.
pub fn split_token<'a>(s: &'a str) -> (r: (&'a str, &'a str))
    ensures
        r.0@ == token(s@),
        r.1@ == after_token(s@),
{
    let n = s.unicode_len();
    let mut i: usize = 0;
    while i < n && !space(s.get_char(i))
        invariant
            n == s@.len(),
            0 <= i <= n,
            forall|j: int| 0 <= j < i ==> !is_space(s@[j]),
        decreases n - i,
    {
        i += 1;
    }
    proof {
        lemma_token_len_at(s@, i as int);
    }
    let head = s.substring_char(0, i);
    let rest = trim_exec(s.substring_char(i, n));
    proof {
        assert(s@.subrange(0, i as int) =~= s@.take(i as int));
        assert(s@.subrange(i as int, n as int) =~= s@.skip(i as int));
    }
    (head, rest)
}

/// The part of a line before its first space character (the whole line if it
/// has no space). Mnemonic position of an instruction line.
pub open spec fn head_before_space(s: Seq<char>) -> Seq<char> {
    let i = find_char(s, ' ');
    if i >= 0 {
        s.take(i)
    } else {
        s
    }
}

/// The part of a line after its first space character, verbatim; `None` if
/// the line has no space. Operand position of an instruction line.
pub open spec fn tail_after_space(s: Seq<char>) -> Option<Seq<char>> {
    let i = find_char(s, ' ');
    if i >= 0 {
        Some(s.skip(i + 1))
    } else {
        Option::None
    }
}

/// Executable split of an instruction line at its first space character.
pub fn split_first_space<'a>(s: &'a str) -> (r: (&'a str, Option<&'a str>))
    ensures
        r.0@ == head_before_space(s@),
        match r.1 {
            Some(t) => tail_after_space(s@) == Some(t@),
            Option::None => tail_after_space(s@) is None,
        },
{
    let n = s.unicode_len();
    let mut i: usize = 0;
    while i < n && s.get_char(i) != ' '
        invariant
            n == s@.len(),
            0 <= i <= n,
            forall|j: int| 0 <= j < i ==> s@[j] != ' ',
        decreases n - i,
    {
        i += 1;
    }
    proof {
        lemma_find_char_at(s@, ' ', i as int);
    }
    if i < n {
        let head = s.substring_char(0, i);
        let tail = s.substring_char(i + 1, n);
        proof {
            assert(s@.subrange(0, i as int) =~= s@.take(i as int));
            assert(s@.subrange(i + 1 as int, n as int) =~= s@.skip(i + 1 as int));
        }
        (head, Some(tail))
    } else {
        (s, Option::None)
    }
}

/// Character-by-character equality of two string slices.
pub fn str_eq(a: &str, b: &str) -> (r: bool)
    ensures
        r == (a@ == b@),
{
    let alen = a.unicode_len();
    let blen = b.unicode_len();
    if alen != blen {
        return false;
    }
    let mut i: usize = 0;
    while i < alen
        invariant
            alen == a@.len(),
            alen == b@.len(),
            0 <= i <= alen,
            forall|j: int| 0 <= j < i ==> a@[j] == b@[j],
        decreases alen - i,
    {
        if a.get_char(i) != b.get_char(i) {
            return false;
        }
        i += 1;
    }
    proof {
        assert(a@ =~= b@);
    }
    true
}

/// A line with one trailing carriage return removed, as a `\r\n` terminator
/// leaves one on the segment before the newline.
pub open spec fn strip_cr(l: Seq<char>) -> Seq<char> {
    if l.len() > 0 && l.last() == '\r' {
        l.drop_last()
    } else {
        l
    }
}

/// The source text split into lines: terminators are `\n` or `\r\n`, and a
/// final terminator produces no extra empty line. A lone `\r` not followed
/// by `\n` stays part of its line.
pub open spec fn lines_of(s: Seq<char>) -> Seq<Seq<char>>
    decreases s.len(),
{
    let i = find_char(s, '\n');
    if 0 <= i && i < s.len() {
        seq![strip_cr(s.take(i))] + lines_of(s.skip(i + 1))
    } else if s.len() == 0 {
        Seq::empty()
    } else {
        seq![s]
    }
}

/// Executable strip of one trailing carriage return.
pub fn strip_cr_exec<'a>(l: &'a str) -> (r: &'a str)
    ensures
        r@ == strip_cr(l@),
{
    let n = l.unicode_len();
    if n > 0 && l.get_char(n - 1) == '\r' {
        let r = l.substring_char(0, n - 1);
        proof {
            assert(l@.subrange(0, n - 1 as int) =~= l@.drop_last());
        }
        r
    } else {
        l
    }
}

/// Executable line splitter, proved to produce exactly `lines_of` the input.
pub fn split_lines(s: &str) -> (r: Vec<String>)
    ensures
        r.deep_view() == lines_of(s@),
{
    let n = s.unicode_len();
    let mut out: Vec<String> = Vec::new();
    let mut start: usize = 0;
    let mut i: usize = 0;
    proof {
        assert(s@.skip(0) =~= s@);
    }
    while i < n
        invariant
            n == s@.len(),
            0 <= start <= i <= n,
            forall|j: int| start <= j < i ==> s@[j] != '\n',
            lines_of(s@) == out.deep_view() + lines_of(s@.skip(start as int)),
        decreases n - i,
    {
        if s.get_char(i) == '\n' {
            let ghost t = s@.skip(start as int);
            proof {
                assert(forall|j: int| 0 <= j < i - start ==> t[j] == s@[start + j] && s@[start + j]
                    != '\n');
                assert(t[i - start] == s@[i as int]);
                lemma_find_char_at(t, '\n', i - start);
                assert(t.take(i - start) =~= s@.subrange(start as int, i as int));
                assert(t.skip(i - start + 1) =~= s@.skip(i + 1 as int));
            }
            let line = strip_cr_exec(s.substring_char(start, i));
            let owned = String::from_str(line);
            out.push(owned);
            proof {
                assert(out.deep_view() =~= out.deep_view().take(out.deep_view().len() - 1).push(
                    line@,
                ));
                assert(lines_of(s@) =~= out.deep_view() + lines_of(s@.skip(i + 1 as int)));
            }
            start = i + 1;
        }
        i += 1;
    }
    let ghost t = s@.skip(start as int);
    proof {
        assert(forall|j: int| 0 <= j < t.len() ==> t[j] == s@[start + j] && s@[start + j] != '\n');
        lemma_find_char_at(t, '\n', t.len() as int);
    }
    if start < n {
        let tail = s.substring_char(start, n);
        proof {
            assert(tail@ =~= t);
            assert(lines_of(t) =~= seq![t]);
        }
        out.push(tail.to_owned());
        proof {
            assert(out.deep_view() =~= out.deep_view().take(out.deep_view().len() - 1).push(t));
            assert(out.deep_view() =~= lines_of(s@));
        }
    } else {
        proof {
            assert(t =~= Seq::<char>::empty());
            assert(lines_of(t) =~= Seq::<Seq<char>>::empty());
            assert(out.deep_view() =~= lines_of(s@));
        }
    }
    out
}

/// A hexadecimal digit of either case.
pub open spec fn is_hex_digit(c: char) -> bool {
    (48 <= c as u32 && c as u32 <= 57) || (97 <= c as u32 && c as u32 <= 102) || (65 <= c as u32
        && c as u32 <= 70)
}

/// The numeric value of a hexadecimal digit (0 on any other character).
pub open spec fn hex_val(c: char) -> nat {
    if 48 <= c as u32 && c as u32 <= 57 {
        (c as u32 - 48) as nat
    } else if 97 <= c as u32 && c as u32 <= 102 {
        (c as u32 - 87) as nat
    } else if 65 <= c as u32 && c as u32 <= 70 {
        (c as u32 - 55) as nat
    } else {
        0
    }
}

/// Every character of `s` is a hexadecimal digit.
pub open spec fn all_hex(s: Seq<char>) -> bool {
    forall|i: int| 0 <= i < s.len() ==> is_hex_digit(s[i])
}

/// The base-16 value of a digit string.
pub open spec fn hex_value(s: Seq<char>) -> nat
    decreases s.len(),
{
    if s.len() == 0 {
        0
    } else {
        hex_value(s.drop_last()) * 16 + hex_val(s.last())
    }
}

/// An address token with one optional leading `0x` removed; the token is
/// parsed base-16 either way.
pub open spec fn strip_hex_prefix(s: Seq<char>) -> Seq<char> {
    if s.len() >= 2 && s[0] == '0' && s[1] == 'x' {
        s.skip(2)
    } else {
        s
    }
}

/// An address token is well-formed when, after the optional `0x`, it is a
/// nonempty string of hex digits whose value fits in 32 bits.
pub open spec fn hex_ok(s: Seq<char>) -> bool {
    let d = strip_hex_prefix(s);
    d.len() > 0 && all_hex(d) && hex_value(d) <= u32::MAX
}

/// The 32-bit value of a well-formed address token.
pub open spec fn hex_u32(s: Seq<char>) -> u32 {
    hex_value(strip_hex_prefix(s)) as u32
}

/// The value of a digit string only grows as digits are appended.
pub proof fn lemma_hex_value_prefix(s: Seq<char>, k: int)
    requires
        0 <= k <= s.len(),
    ensures
        hex_value(s) >= hex_value(s.take(k)),
    decreases s.len() - k,
{
    if k == s.len() {
        assert(s.take(k) =~= s);
    } else {
        assert(s.take(k + 1).drop_last() =~= s.take(k));
        assert(s.take(k + 1).last() == s[k]);
        assert(hex_value(s.take(k + 1)) == hex_value(s.take(k)) * 16 + hex_val(s[k]));
        lemma_hex_value_prefix(s, k + 1);
    }
}

/// Executable classification of one hexadecimal digit.
pub fn hex_digit(c: char) -> (r: Option<u8>)
    ensures
        match r {
            Some(v) => is_hex_digit(c) && v as nat == hex_val(c) && v < 16,
            Option::None => !is_hex_digit(c),
        },
{
    let u = c as u32;
    if 48 <= u && u <= 57 {
        Some((u - 48) as u8)
    } else if 97 <= u && u <= 102 {
        Some((u - 87) as u8)
    } else if 65 <= u && u <= 70 {
        Some((u - 55) as u8)
    } else {
        Option::None
    }
}

/// Executable base-16 address parser: succeeds exactly on well-formed
/// tokens, returning their 32-bit value.
pub fn parse_hex(s: &str) -> (r: Option<u32>)
    ensures
        match r {
            Some(v) => hex_ok(s@) && v == hex_u32(s@),
            Option::None => !hex_ok(s@),
        },
{
    let n = s.unicode_len();
    let start: usize = if n >= 2 && s.get_char(0) == '0' && s.get_char(1) == 'x' {
        2
    } else {
        0
    };
    let ghost d = strip_hex_prefix(s@);
    proof {
        assert(d =~= s@.skip(start as int));
    }
    if start == n {
        return Option::None;
    }
    let mut acc: u32 = 0;
    let mut i: usize = start;
    proof {
        assert(d.take(0) =~= Seq::<char>::empty());
    }
    while i < n
        invariant
            n == s@.len(),
            start <= i <= n,
            start < n,
            d == s@.skip(start as int),
            d == strip_hex_prefix(s@),
            all_hex(d.take(i - start)),
            acc as nat == hex_value(d.take(i - start)),
        decreases n - i,
    {
        proof {
            assert(d[i - start] == s@[i as int]);
        }
        match hex_digit(s.get_char(i)) {
            Option::None => {
                return Option::None;
            },
            Some(dv) => {
                let wide: u64 = acc as u64 * 16 + dv as u64;
                proof {
                    assert(d.take(i - start + 1).drop_last() =~= d.take(i - start));
                    assert(d.take(i - start + 1).last() == d[i - start]);
                    assert(hex_value(d.take(i - start + 1)) == hex_value(d.take(i - start)) * 16
                        + hex_val(d[i - start]));
                }
                if wide > 0xFFFF_FFFFu64 {
                    proof {
                        lemma_hex_value_prefix(d, i - start + 1);
                    }
                    return Option::None;
                }
                acc = wide as u32;
            },
        }
        i += 1;
    }
    proof {
        assert(d.take(n - start) =~= d);
    }
    Some(acc)
}

} // verus!
