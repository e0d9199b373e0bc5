//! Character-level text primitives shared by the scenario formats: line
//! splitting, field splitting, decimal and hexadecimal numbers.

use vstd::prelude::*;
use vstd::std_specs::iter::IteratorSpec;
use std::string::FromUtf8Error;

verus! {

broadcast use vstd::string::group_string_axioms;

// ---------------------------------------------------------------------------
// Specifications
// ---------------------------------------------------------------------------
/// Index of the first occurrence of `c` in `s`, or `-1` when there is none.
pub open spec fn first_index(s: Seq<char>, c: char) -> int
    decreases s.len(),
{
    if s.len() == 0 {
        -1
    } else if s[0] == c {
        0
    } else {
        let p = first_index(s.drop_first(), c);
        if p < 0 {
            -1
        } else {
            p + 1
        }
    }
}

/// A line without its terminating carriage return, if it has one.
pub open spec fn strip_cr(line: Seq<char>) -> Seq<char> {
    if line.len() > 0 && line.last() == '\r' {
        line.drop_last()
    } else {
        line
    }
}

/// The lines of a text, as `str::lines` yields them: split at `\n`, a `\r`
/// directly before the `\n` removed, and no empty line after a final `\n`.
pub open spec fn lines(s: Seq<char>) -> Seq<Seq<char>>
    decreases s.len(),
{
    if s.len() == 0 {
        seq![]
    } else {
        let p = first_index(s, '\n');
        if p < 0 {
            seq![s]
        } else {
            proof {
                lemma_first_index(s, '\n');
            }
            seq![strip_cr(s.take(p))] + lines(s.skip(p + 1))
        }
    }
}

/// The separators of `str::split_ascii_whitespace`.
pub open spec fn is_ascii_ws(c: char) -> bool {
    c == ' ' || c == '\t' || c == '\n' || c == '\x0C' || c == '\r'
}

/// Number of leading characters of `s` that are not ASCII whitespace.
pub open spec fn word_len(s: Seq<char>) -> nat
    decreases s.len(),
{
    if s.len() == 0 || is_ascii_ws(s[0]) {
        0
    } else {
        1 + word_len(s.drop_first())
    }
}

/// The non-empty runs of non-whitespace characters, as
/// `str::split_ascii_whitespace` yields them.
pub open spec fn fields(s: Seq<char>) -> Seq<Seq<char>>
    decreases s.len(),
{
    if s.len() == 0 {
        seq![]
    } else if is_ascii_ws(s[0]) {
        fields(s.drop_first())
    } else {
        let w = word_len(s);
        proof {
            lemma_word_len(s);
        }
        seq![s.take(w as int)] + fields(s.skip(w as int))
    }
}

/// The pieces of `s` between occurrences of `sep`, as `str::split` yields them
/// (always at least one piece).
pub open spec fn split_on(s: Seq<char>, sep: char) -> Seq<Seq<char>>
    decreases s.len(),
{
    let p = first_index(s, sep);
    if p < 0 {
        seq![s]
    } else {
        proof {
            lemma_first_index(s, sep);
        }
        seq![s.take(p)] + split_on(s.skip(p + 1), sep)
    }
}

/// `str::split_once`: the text before and after the first `sep`.
pub open spec fn split_once(s: Seq<char>, sep: char) -> Option<(Seq<char>, Seq<char>)> {
    let p = first_index(s, sep);
    if p < 0 {
        None
    } else {
        Some((s.take(p), s.skip(p + 1)))
    }
}

/// Whether `s` begins with `prefix`.
pub open spec fn has_prefix(s: Seq<char>, prefix: Seq<char>) -> bool {
    prefix.len() <= s.len() && s.take(prefix.len() as int) == prefix
}

/// Whether `s` ends with `suffix`.
pub open spec fn has_suffix(s: Seq<char>, suffix: Seq<char>) -> bool {
    suffix.len() <= s.len() && s.skip(s.len() - suffix.len()) == suffix
}

/// Unicode `White_Space`, the characters that `str::trim` removes.
pub open spec fn is_unicode_ws(c: char) -> bool {
    ||| ('\t' <= c && c <= '\r')
    ||| c == ' '
    ||| c == '\u{85}'
    ||| c == '\u{A0}'
    ||| c == '\u{1680}'
    ||| ('\u{2000}' <= c && c <= '\u{200A}')
    ||| c == '\u{2028}'
    ||| c == '\u{2029}'
    ||| c == '\u{202F}'
    ||| c == '\u{205F}'
    ||| c == '\u{3000}'
}

/// Whether a line is empty once trimmed.
pub open spec fn is_blank(line: Seq<char>) -> bool {
    forall|i: int| 0 <= i < line.len() ==> is_unicode_ws(#[trigger] line[i])
}

pub open spec fn is_digit(c: char) -> bool {
    '0' <= c && c <= '9'
}

pub open spec fn digit_value(c: char) -> int {
    c as int - '0' as int
}

pub open spec fn all_digits(s: Seq<char>) -> bool {
    forall|i: int| 0 <= i < s.len() ==> is_digit(#[trigger] s[i])
}

/// The number that a string of decimal digits denotes.
pub open spec fn digits_value(s: Seq<char>) -> int
    decreases s.len(),
{
    if s.len() == 0 {
        0
    } else {
        digits_value(s.drop_last()) * 10 + digit_value(s.last())
    }
}

/// The digits of an unsigned number in `FromStr` syntax: one optional `+`.
pub open spec fn unsigned_digits(s: Seq<char>) -> Seq<char> {
    if s.len() > 0 && s[0] == '+' {
        s.drop_first()
    } else {
        s
    }
}

/// Whether `s` is an unsigned number in `FromStr` syntax, whatever its size.
pub open spec fn is_unsigned_syntax(s: Seq<char>) -> bool {
    unsigned_digits(s).len() > 0 && all_digits(unsigned_digits(s))
}

/// The value of an unsigned number in `FromStr` syntax, when it is at most
/// `max` (what `str::parse` gives for an unsigned type whose maximum is `max`).
pub open spec fn parse_unsigned(s: Seq<char>, max: int) -> Option<int> {
    if is_unsigned_syntax(s) && digits_value(unsigned_digits(s)) <= max {
        Some(digits_value(unsigned_digits(s)))
    } else {
        None
    }
}

pub open spec fn digit_char(d: nat) -> char {
    (d + '0' as nat) as char
}

/// The decimal notation of `n`, as `Display` writes it.
pub open spec fn decimal(n: nat) -> Seq<char>
    decreases n,
{
    if n < 10 {
        seq![digit_char(n)]
    } else {
        decimal(n / 10).push(digit_char(n % 10))
    }
}

/// A lower-case hexadecimal digit's value.
pub open spec fn hex_value(c: char) -> Option<u8> {
    if '0' <= c && c <= '9' {
        Some((c as int - '0' as int) as u8)
    } else if 'a' <= c && c <= 'f' {
        Some((c as int - 'a' as int + 10) as u8)
    } else {
        None
    }
}

pub open spec fn hex_digit(d: int) -> char {
    if d < 10 {
        (d + '0' as int) as char
    } else {
        (d - 10 + 'a' as int) as char
    }
}

/// The two lower-case hexadecimal digits of a byte, as `{:02x}` writes them.
pub open spec fn hex_byte(b: u8) -> Seq<char> {
    seq![hex_digit(b as int / 16), hex_digit(b as int % 16)]
}

/// The lower-case hexadecimal notation of a byte string.
pub open spec fn hex_string(bytes: Seq<u8>) -> Seq<char>
    decreases bytes.len(),
{
    if bytes.len() == 0 {
        seq![]
    } else {
        hex_string(bytes.drop_last()) + hex_byte(bytes.last())
    }
}

/// Whether every character of `s` is a lower-case hexadecimal digit.
pub open spec fn all_hex(s: Seq<char>) -> bool {
    forall|i: int| 0 <= i < s.len() ==> (#[trigger] hex_value(s[i])) is Some
}

/// The bytes that `len` characters of lower-case hexadecimal denote, two
/// characters per byte.
pub open spec fn hex_decoded(s: Seq<char>) -> Seq<u8> {
    Seq::new(
        s.len() / 2,
        |i: int| (hex_value(s[2 * i])->0 * 16 + hex_value(s[2 * i + 1])->0) as u8,
    )
}

// ---------------------------------------------------------------------------
// Lemmas
// ---------------------------------------------------------------------------
pub proof fn lemma_first_index(s: Seq<char>, c: char)
    ensures
        -1 <= first_index(s, c) < s.len(),
        first_index(s, c) >= 0 ==> s[first_index(s, c)] == c,
        forall|j: int|
            0 <= j < (if first_index(s, c) < 0 {
                s.len() as int
            } else {
                first_index(s, c)
            }) ==> s[j] != c,
    decreases s.len(),
{
    if s.len() > 0 && s[0] != c {
        lemma_first_index(s.drop_first(), c);
        let p = first_index(s.drop_first(), c);
        assert forall|j: int|
            0 <= j < (if first_index(s, c) < 0 {
                s.len() as int
            } else {
                first_index(s, c)
            }) implies s[j] != c by {
            if j > 0 {
                assert(s[j] == s.drop_first()[j - 1]);
            }
        }
    }
}

pub proof fn lemma_word_len(s: Seq<char>)
    ensures
        word_len(s) <= s.len(),
        s.len() > 0 && !is_ascii_ws(s[0]) ==> word_len(s) > 0,
        forall|j: int| 0 <= j < word_len(s) ==> !is_ascii_ws(#[trigger] s[j]),
        word_len(s) < s.len() ==> is_ascii_ws(s[word_len(s) as int]),
    decreases s.len(),
{
    if s.len() > 0 && !is_ascii_ws(s[0]) {
        lemma_word_len(s.drop_first());
        assert forall|j: int| 0 <= j < word_len(s) implies !is_ascii_ws(#[trigger] s[j]) by {
            if j > 0 {
                assert(s[j] == s.drop_first()[j - 1]);
            }
        }
    }
}

/// `first_index` is the position of the first occurrence.
pub proof fn lemma_first_index_at(s: Seq<char>, c: char, p: int)
    requires
        0 <= p < s.len(),
        s[p] == c,
        forall|j: int| 0 <= j < p ==> s[j] != c,
    ensures
        first_index(s, c) == p,
    decreases s.len(),
{
    if p > 0 {
        assert(s.drop_first()[p - 1] == s[p]);
        assert forall|j: int| 0 <= j < p - 1 implies s.drop_first()[j] != c by {
            assert(s.drop_first()[j] == s[j + 1]);
        }
        lemma_first_index_at(s.drop_first(), c, p - 1);
    }
}

/// No occurrence gives `-1`.
pub proof fn lemma_first_index_none(s: Seq<char>, c: char)
    requires
        forall|j: int| 0 <= j < s.len() ==> s[j] != c,
    ensures
        first_index(s, c) == -1,
    decreases s.len(),
{
    if s.len() > 0 {
        assert forall|j: int| 0 <= j < s.len() - 1 implies s.drop_first()[j] != c by {
            assert(s.drop_first()[j] == s[j + 1]);
        }
        lemma_first_index_none(s.drop_first(), c);
    }
}

// ---------------------------------------------------------------------------
// Executable primitives
// ---------------------------------------------------------------------------
/// Collects the characters of `s` into a vector.
pub fn chars_of(s: &str) -> (out: Vec<char>)
    ensures
        out@ == s@,
{
    let mut out: Vec<char> = Vec::new();
    for c in it: s.chars()
        invariant
            out@ == it.seq().take(it.index() as int),
            it.seq() == s@,
    {
        out.push(c);
    }
    out
}

/// Copies `v[from..to]`.
pub fn copy_range(v: &Vec<char>, from: usize, to: usize) -> (out: Vec<char>)
    requires
        from <= to <= v.len(),
    ensures
        out@ == v@.subrange(from as int, to as int),
{
    let mut out: Vec<char> = Vec::new();
    let mut i: usize = from;
    while i < to
        invariant
            from <= i <= to <= v.len(),
            out@ == v@.subrange(from as int, i as int),
        decreases to - i,
    {
        out.push(v[i]);
        i += 1;
    }
    out
}

/// Whether two character strings are equal.
pub fn chars_equal(a: &Vec<char>, b: &Vec<char>) -> (r: bool)
    ensures
        r == (a@ == b@),
{
    if a.len() != b.len() {
        return false;
    }
    let mut i: usize = 0;
    while i < a.len()
        invariant
            a.len() == b.len(),
            i <= a.len(),
            forall|j: int| 0 <= j < i ==> a@[j] == b@[j],
        decreases a.len() - i,
    {
        if a[i] != b[i] {
            return false;
        }
        i += 1;
    }
    assert(a@ =~= b@);
    true
}

/// Whether `s` equals the literal text `lit`.
pub fn equals_str(s: &Vec<char>, lit: &str) -> (r: bool)
    ensures
        r == (s@ == lit@),
{
    let l = chars_of(lit);
    chars_equal(s, &l)
}

/// `s` without `prefix`, when `s` begins with it.
pub fn strip_prefix(s: &Vec<char>, prefix: &Vec<char>) -> (r: Option<Vec<char>>)
    ensures
        r is Some <==> has_prefix(s@, prefix@),
        r matches Some(rest) ==> rest@ == s@.skip(prefix@.len() as int),
{
    if prefix.len() > s.len() {
        return None;
    }
    let mut i: usize = 0;
    while i < prefix.len()
        invariant
            prefix.len() <= s.len(),
            i <= prefix.len(),
            forall|j: int| 0 <= j < i ==> s@[j] == prefix@[j],
        decreases prefix.len() - i,
    {
        if s[i] != prefix[i] {
            assert(s@.take(prefix.len() as int)[i as int] != prefix@[i as int]);
            return None;
        }
        i += 1;
    }
    assert(s@.take(prefix.len() as int) =~= prefix@);
    Some(copy_range(s, prefix.len(), s.len()))
}

/// `s` without the literal prefix `lit`, when `s` begins with it.
pub fn strip_prefix_str(s: &Vec<char>, lit: &str) -> (r: Option<Vec<char>>)
    ensures
        r is Some <==> has_prefix(s@, lit@),
        r matches Some(rest) ==> rest@ == s@.skip(lit@.len() as int),
{
    let p = chars_of(lit);
    strip_prefix(s, &p)
}

/// `s` without `suffix`, when `s` ends with it.
pub fn strip_suffix_char(s: &Vec<char>, suffix: char) -> (r: Option<Vec<char>>)
    ensures
        r is Some <==> has_suffix(s@, seq![suffix]),
        r matches Some(rest) ==> rest@ == s@.drop_last(),
{
    if s.len() == 0 {
        return None;
    }
    if s[s.len() - 1] != suffix {
        assert(s@.skip(s.len() - 1)[0] == s@[s.len() - 1]);
        return None;
    }
    assert(s@.skip(s.len() - 1) =~= seq![suffix]);
    Some(copy_range(s, 0, s.len() - 1))
}

/// Position of the first `c` in `s`.
pub fn find_char(s: &Vec<char>, c: char) -> (r: Option<usize>)
    ensures
        match r {
            Some(p) => first_index(s@, c) == p as int,
            None => first_index(s@, c) == -1,
        },
{
    let mut i: usize = 0;
    while i < s.len()
        invariant
            i <= s.len(),
            forall|j: int| 0 <= j < i ==> s@[j] != c,
        decreases s.len() - i,
    {
        if s[i] == c {
            proof {
                lemma_first_index_at(s@, c, i as int);
            }
            return Some(i);
        }
        i += 1;
    }
    proof {
        lemma_first_index_none(s@, c);
    }
    None
}


proof fn lemma_lines_step(s: Seq<char>, st: int, i: int)
    requires
        0 <= st <= i < s.len(),
        s[i] == '\n',
        forall|j: int| st <= j < i ==> s[j] != '\n',
    ensures
        lines(s.skip(st)) == seq![strip_cr(s.subrange(st, i))] + lines(s.skip(i + 1)),
{
    let t = s.skip(st);
    assert forall|j: int| 0 <= j < i - st implies t[j] != '\n' by {
        assert(t[j] == s[st + j]);
    }
    lemma_first_index_at(t, '\n', i - st);
    assert(t.take(i - st) =~= s.subrange(st, i));
    assert(t.skip(i - st + 1) =~= s.skip(i + 1));
}

proof fn lemma_lines_last(s: Seq<char>, st: int)
    requires
        0 <= st <= s.len(),
        forall|j: int| st <= j < s.len() ==> s[j] != '\n',
    ensures
        st < s.len() ==> lines(s.skip(st)) == seq![s.skip(st)],
        st == s.len() ==> lines(s.skip(st)) == Seq::<Seq<char>>::empty(),
{
    let t = s.skip(st);
    assert forall|j: int| 0 <= j < t.len() implies t[j] != '\n' by {
        assert(t[j] == s[st + j]);
    }
    lemma_first_index_none(t, '\n');
    if st == s.len() {
        assert(t.len() == 0);
    }
}

/// Splits a text into its lines, as `str::lines` does.
pub fn split_lines(s: &Vec<char>) -> (out: Vec<Vec<char>>)
    ensures
        out.deep_view() == lines(s@),
{
    let mut out: Vec<Vec<char>> = Vec::new();
    let mut st: usize = 0;
    let mut i: usize = 0;
    assert(s@.skip(0) =~= s@);
    while i < s.len()
        invariant
            st <= i <= s.len(),
            forall|j: int| st <= j < i ==> s@[j] != '\n',
            out.deep_view() + lines(s@.skip(st as int)) == lines(s@),
        decreases s.len() - i,
    {
        if s[i] == '\n' {
            proof {
                lemma_lines_step(s@, st as int, i as int);
            }
            let mut line = copy_range(s, st, i);
            if line.len() > 0 && line[line.len() - 1] == '\r' {
                line.pop();
            }
            assert(line@ == strip_cr(s@.subrange(st as int, i as int)));
            let ghost before = out.deep_view();
            assert(line.deep_view() =~= line@);
            out.push(line);
            assert(out.deep_view() =~= before.push(line@));
            assert(out.deep_view() + lines(s@.skip(i + 1)) =~= before + lines(s@.skip(st as int)));
            st = i + 1;
        }
        i += 1;
    }
    proof {
        lemma_lines_last(s@, st as int);
    }
    if st < s.len() {
        let line = copy_range(s, st, s.len());
        assert(line@ =~= s@.skip(st as int));
        let ghost before = out.deep_view();
        assert(line.deep_view() =~= line@);
        out.push(line);
        assert(out.deep_view() =~= before.push(line@));
        assert(out.deep_view() =~= before + lines(s@.skip(st as int)));
    } else {
        assert(out.deep_view() =~= out.deep_view() + lines(s@.skip(st as int)));
    }
    out
}

pub proof fn lemma_word_len_at(s: Seq<char>, w: int)
    requires
        0 <= w <= s.len(),
        forall|j: int| 0 <= j < w ==> !is_ascii_ws(s[j]),
        w == s.len() || is_ascii_ws(s[w]),
    ensures
        word_len(s) == w,
    decreases s.len(),
{
    if w > 0 {
        assert forall|j: int| 0 <= j < w - 1 implies !is_ascii_ws(s.drop_first()[j]) by {
            assert(s.drop_first()[j] == s[j + 1]);
        }
        if w < s.len() {
            assert(s.drop_first()[w - 1] == s[w]);
        }
        lemma_word_len_at(s.drop_first(), w - 1);
    }
}

/// Splits `s` at runs of ASCII whitespace, as `str::split_ascii_whitespace` does.
pub fn split_fields(s: &Vec<char>) -> (out: Vec<Vec<char>>)
    ensures
        out.deep_view() == fields(s@),
{
    let mut out: Vec<Vec<char>> = Vec::new();
    let mut i: usize = 0;
    assert(s@.skip(0) =~= s@);
    while i < s.len()
        invariant
            i <= s.len(),
            out.deep_view() + fields(s@.skip(i as int)) == fields(s@),
        decreases s.len() - i,
    {
        let c = s[i];
        if c == ' ' || c == '\t' || c == '\n' || c == '\x0C' || c == '\r' {
            assert(s@.skip(i as int).drop_first() =~= s@.skip(i + 1));
            i += 1;
        } else {
            let mut e: usize = i + 1;
            while e < s.len() && !(s[e] == ' ' || s[e] == '\t' || s[e] == '\n' || s[e] == '\x0C'
                || s[e] == '\r')
                invariant
                    i < e <= s.len(),
                    forall|j: int| i <= j < e ==> !is_ascii_ws(s@[j]),
                decreases s.len() - e,
            {
                e += 1;
            }
            let t = Ghost(s@.skip(i as int));
            proof {
                assert forall|j: int| 0 <= j < e - i implies !is_ascii_ws(t@[j]) by {
                    assert(t@[j] == s@[i + j]);
                }
                if e < s.len() {
                    assert(t@[e - i] == s@[e as int]);
                }
                lemma_word_len_at(t@, e - i);
                assert(t@.take(e - i) =~= s@.subrange(i as int, e as int));
                assert(t@.skip(e - i) =~= s@.skip(e as int));
            }
            let word = copy_range(s, i, e);
            let ghost before = out.deep_view();
            assert(word.deep_view() =~= word@);
            out.push(word);
            assert(out.deep_view() =~= before.push(word@));
            assert(out.deep_view() + fields(s@.skip(e as int)) =~= before + fields(t@));
            i = e;
        }
    }
    assert(s@.skip(i as int).len() == 0);
    assert(out.deep_view() =~= out.deep_view() + fields(s@.skip(i as int)));
    out
}

proof fn lemma_split_step(s: Seq<char>, sep: char, st: int, i: int)
    requires
        0 <= st <= i < s.len(),
        s[i] == sep,
        forall|j: int| st <= j < i ==> s[j] != sep,
    ensures
        split_on(s.skip(st), sep) == seq![s.subrange(st, i)] + split_on(s.skip(i + 1), sep),
{
    let t = s.skip(st);
    assert forall|j: int| 0 <= j < i - st implies t[j] != sep by {
        assert(t[j] == s[st + j]);
    }
    lemma_first_index_at(t, sep, i - st);
    assert(t.take(i - st) =~= s.subrange(st, i));
    assert(t.skip(i - st + 1) =~= s.skip(i + 1));
}

/// Splits `s` at every `sep`, as `str::split` with a character does.
pub fn split_char(s: &Vec<char>, sep: char) -> (out: Vec<Vec<char>>)
    ensures
        out.deep_view() == split_on(s@, sep),
{
    let mut out: Vec<Vec<char>> = Vec::new();
    let mut st: usize = 0;
    let mut i: usize = 0;
    assert(s@.skip(0) =~= s@);
    while i < s.len()
        invariant
            st <= i <= s.len(),
            forall|j: int| st <= j < i ==> s@[j] != sep,
            out.deep_view() + split_on(s@.skip(st as int), sep) == split_on(s@, sep),
        decreases s.len() - i,
    {
        if s[i] == sep {
            proof {
                lemma_split_step(s@, sep, st as int, i as int);
            }
            let piece = copy_range(s, st, i);
            let ghost before = out.deep_view();
            assert(piece.deep_view() =~= piece@);
            out.push(piece);
            assert(out.deep_view() =~= before.push(piece@));
            assert(out.deep_view() + split_on(s@.skip(i + 1), sep) =~= before + split_on(
                s@.skip(st as int),
                sep,
            ));
            st = i + 1;
        }
        i += 1;
    }
    let t = Ghost(s@.skip(st as int));
    proof {
        assert forall|j: int| 0 <= j < t@.len() implies t@[j] != sep by {
            assert(t@[j] == s@[st + j]);
        }
        lemma_first_index_none(t@, sep);
    }
    let piece = copy_range(s, st, s.len());
    assert(piece@ =~= t@);
    let ghost before = out.deep_view();
    assert(piece.deep_view() =~= piece@);
    out.push(piece);
    assert(out.deep_view() =~= before.push(piece@));
    assert(out.deep_view() =~= before + split_on(t@, sep));
    out
}

/// The text before and after the first `sep`, as `str::split_once` gives them.
pub fn split_once_char(s: &Vec<char>, sep: char) -> (r: Option<(Vec<char>, Vec<char>)>)
    ensures
        match r {
            Some((a, b)) => split_once(s@, sep) == Some((a@, b@)),
            None => split_once(s@, sep) is None,
        },
{
    match find_char(s, sep) {
        Some(p) => {
            proof {
                lemma_first_index(s@, sep);
            }
            let a = copy_range(s, 0, p);
            let b = copy_range(s, p + 1, s.len());
            assert(a@ =~= s@.take(p as int));
            assert(b@ =~= s@.skip(p + 1));
            Some((a, b))
        },
        None => None,
    }
}

/// Whether a line is empty once trimmed of Unicode whitespace.
pub fn line_is_blank(line: &Vec<char>) -> (r: bool)
    ensures
        r == is_blank(line@),
{
    let mut i: usize = 0;
    while i < line.len()
        invariant
            i <= line.len(),
            forall|j: int| 0 <= j < i ==> is_unicode_ws(#[trigger] line@[j]),
        decreases line.len() - i,
    {
        let c = line[i];
        let ws = ('\t' <= c && c <= '\r') || c == ' ' || c == '\u{85}' || c == '\u{A0}' || c
            == '\u{1680}' || ('\u{2000}' <= c && c <= '\u{200A}') || c == '\u{2028}' || c
            == '\u{2029}' || c == '\u{202F}' || c == '\u{205F}' || c == '\u{3000}';
        if !ws {
            return false;
        }
        i += 1;
    }
    true
}


// ---------------------------------------------------------------------------
// Decimal numbers
// ---------------------------------------------------------------------------
/// Why a number failed to parse, as `core::num::IntErrorKind` names it.
#[derive(Clone, Copy, Debug, PartialEq, Eq)]
pub enum NumberError {
    Empty,
    InvalidDigit,
    PosOverflow,
}

/// The text that `ParseIntError` displays for each kind.
pub open spec fn number_error_text(e: NumberError) -> Seq<char> {
    match e {
        NumberError::Empty => "cannot parse integer from empty string"@,
        NumberError::InvalidDigit => "invalid digit found in string"@,
        NumberError::PosOverflow => "number too large to fit in target type"@,
    }
}

impl NumberError {
    /// The text that `ParseIntError` displays for this kind.
    pub fn message(&self) -> (r: &'static str)
        ensures
            r@ == number_error_text(*self),
    {
        match self {
            NumberError::Empty => "cannot parse integer from empty string",
            NumberError::InvalidDigit => "invalid digit found in string",
            NumberError::PosOverflow => "number too large to fit in target type",
        }
    }
}

/// The index of the first character of `s` that is not a decimal digit, or
/// its length when there is none.
pub open spec fn first_non_digit(s: Seq<char>) -> int
    decreases s.len(),
{
    if s.len() == 0 || !is_digit(s[0]) {
        0
    } else {
        1 + first_non_digit(s.drop_first())
    }
}

/// The error that `str::parse` reports for an unsigned type whose maximum is
/// `max`: the digits are read from the left, and the first bad digit or the
/// first digit that overflows decides.
pub open spec fn number_error(s: Seq<char>, max: int) -> NumberError {
    let d = unsigned_digits(s);
    if s.len() == 0 {
        NumberError::Empty
    } else if d.len() > 0 && digits_value(d.take(first_non_digit(d))) > max {
        NumberError::PosOverflow
    } else {
        NumberError::InvalidDigit
    }
}

proof fn lemma_first_non_digit(s: Seq<char>, i: int)
    requires
        0 <= i <= s.len(),
        all_digits(s.take(i)),
    ensures
        i <= first_non_digit(s) <= s.len(),
        all_digits(s.take(first_non_digit(s))),
        first_non_digit(s) < s.len() ==> !is_digit(s[first_non_digit(s)]),
        i < s.len() && !is_digit(s[i]) ==> first_non_digit(s) == i,
    decreases s.len(),
{
    if s.len() > 0 && is_digit(s[0]) {
        let t = s.drop_first();
        let j = if i > 0 { i - 1 } else { 0 };
        assert(all_digits(t.take(j))) by {
            assert forall|k: int| 0 <= k < t.take(j).len() implies is_digit(#[trigger] t.take(j)[k]) by {
                assert(t.take(j)[k] == s.take(i)[k + 1]);
            }
        }
        lemma_first_non_digit(t, j);
        let f = first_non_digit(t);
        assert forall|k: int| 0 <= k < s.take(f + 1).len() implies is_digit(#[trigger] s.take(f + 1)[k]) by {
            if k > 0 {
                assert(s.take(f + 1)[k] == t.take(f)[k - 1]);
            }
        }
        if f < t.len() {
            assert(s[f + 1] == t[f]);
        }
        if i < s.len() && !is_digit(s[i]) {
            assert(i > 0);
            assert(t[i - 1] == s[i]);
        }
    } else {
        if i > 0 {
            assert(s.take(i)[0] == s[0]);
        }
        assert(s.take(0) =~= Seq::<char>::empty());
    }
}

proof fn lemma_digits_value_take(d: Seq<char>, i: int)
    requires
        0 <= i < d.len(),
    ensures
        digits_value(d.take(i + 1)) == digits_value(d.take(i)) * 10 + digit_value(d[i]),
{
    assert(d.take(i + 1).drop_last() =~= d.take(i));
}

/// A digit string's value does not shrink as digits are appended.
pub proof fn lemma_digits_value_prefix(d: Seq<char>, i: int)
    requires
        0 <= i <= d.len(),
        all_digits(d),
    ensures
        0 <= digits_value(d.take(i)) <= digits_value(d),
    decreases d.len() - i,
{
    if i < d.len() {
        lemma_digits_value_take(d, i);
        lemma_digits_value_prefix(d, i + 1);
        assert(is_digit(d[i]));
    } else {
        assert(d.take(i) =~= d);
        lemma_digits_value_nonneg(d);
    }
}

pub proof fn lemma_digits_value_nonneg(d: Seq<char>)
    requires
        all_digits(d),
    ensures
        digits_value(d) >= 0,
    decreases d.len(),
{
    if d.len() > 0 {
        lemma_digits_value_nonneg(d.drop_last());
        assert(is_digit(d.last()));
    }
}

/// Parses an unsigned number no larger than `max`, as `str::parse` does for
/// an unsigned integer type whose maximum is `max`.
pub fn parse_unsigned_max(s: &Vec<char>, max: u64) -> (r: Result<u64, NumberError>)
    ensures
        match r {
            Ok(v) => parse_unsigned(s@, max as int) == Some(v as int),
            Err(e) => parse_unsigned(s@, max as int) is None && e == number_error(s@, max as int),
        },
{
    if s.len() == 0 {
        return Err(NumberError::Empty);
    }
    let start: usize = if s[0] == '+' {
        1
    } else {
        0
    };
    let ghost d = unsigned_digits(s@);
    assert(d =~= s@.skip(start as int));
    if start == s.len() {
        assert(d.len() == 0);
        return Err(NumberError::InvalidDigit);
    }
    assert(d.len() > 0);
    let mut acc: u64 = 0;
    let mut k: usize = start;
    assert(d.take(0) =~= Seq::<char>::empty());
    while k < s.len()
        invariant
            start <= k <= s.len(),
            d == s@.skip(start as int),
            d == unsigned_digits(s@),
            d.len() > 0,
            all_digits(d.take(k - start)),
            acc as int == digits_value(d.take(k - start)),
            acc <= max,
        decreases s.len() - k,
    {
        let ghost i = k - start;
        assert(d[i] == s@[k as int]);
        if !('0' <= s[k] && s[k] <= '9') {
            proof {
                lemma_first_non_digit(d, i);
            }
            return Err(NumberError::InvalidDigit);
        }
        proof {
            lemma_digits_value_take(d, i);
            assert(all_digits(d.take(i + 1))) by {
                assert forall|j: int| 0 <= j < d.take(i + 1).len() implies is_digit(#[trigger] d.take(i + 1)[j]) by {
                    if j < i {
                        assert(d.take(i + 1)[j] == d.take(i)[j]);
                    }
                }
            }
        }
        let digit = (s[k] as u32 - '0' as u32) as u64;
        if digit > max || acc > (max - digit) / 10 {
            proof {
                assert(acc * 10 + digit > max) by (nonlinear_arith)
                    requires
                        digit > max || acc > (max - digit) / 10,
                        acc >= 0,
                ;
                lemma_first_non_digit(d, i + 1);
                let f = first_non_digit(d);
                lemma_digits_value_prefix(d.take(f), i + 1);
                assert(d.take(f).take(i + 1) =~= d.take(i + 1));
                assert(!is_unsigned_syntax(s@) || digits_value(d) > max) by {
                    if is_unsigned_syntax(s@) {
                        assert(f == d.len());
                        assert(d.take(f) =~= d);
                    }
                }
            }
            return Err(NumberError::PosOverflow);
        }
        proof {
            assert(acc * 10 + digit <= max) by (nonlinear_arith)
                requires
                    acc <= (max - digit) / 10,
                    digit <= max,
            ;
        }
        acc = acc * 10 + digit;
        k += 1;
    }
    assert(d.take(k - start) =~= d);
    Ok(acc)
}

/// The decimal digits of `n`.
pub fn decimal_chars(n: u64) -> (out: Vec<char>)
    ensures
        out@ == decimal(n as nat),
    decreases n,
{
    let d = ((n % 10) as u8 + 48u8) as char;
    if n < 10 {
        let mut v: Vec<char> = Vec::new();
        v.push(d);
        assert(v@ =~= seq![digit_char(n as nat)]);
        v
    } else {
        let mut v = decimal_chars(n / 10);
        v.push(d);
        v
    }
}

// ---------------------------------------------------------------------------
// Hexadecimal block identifiers
// ---------------------------------------------------------------------------
/// Number of bytes in the UTF-8 encoding of `c`.
pub open spec fn utf8_width(c: char) -> int {
    if c <= '\x7F' {
        1
    } else if 'ࠀ' > c {
        2
    } else if '𐀀' > c {
        3
    } else {
        4
    }
}

/// A length, or `usize::MAX` if it is larger.
pub open spec fn capped_len(n: int) -> int {
    if n <= usize::MAX {
        n
    } else {
        usize::MAX as int
    }
}

/// Number of bytes in the UTF-8 encoding of `s` (what `str::len` reports).
pub open spec fn utf8_len(s: Seq<char>) -> int
    decreases s.len(),
{
    if s.len() == 0 {
        0
    } else {
        utf8_len(s.drop_last()) + utf8_width(s.last())
    }
}

proof fn lemma_utf8_len_ge(s: Seq<char>)
    ensures
        utf8_len(s) >= s.len(),
        utf8_len(s) == s.len() ==> forall|j: int| 0 <= j < s.len() ==> s[j] <= '\x7F',
        (forall|j: int| 0 <= j < s.len() ==> s[j] <= '\x7F') ==> utf8_len(s) == s.len(),
    decreases s.len(),
{
    if s.len() > 0 {
        lemma_utf8_len_ge(s.drop_last());
        assert forall|j: int| 0 <= j < s.len() - 1 implies s.drop_last()[j] == s[j] by {}
    }
}

/// The UTF-8 length of `s`, saturating at `usize::MAX`.
pub fn utf8_length(s: &Vec<char>) -> (n: usize)
    ensures
        n == capped_len(utf8_len(s@)),
{
    let mut n: usize = 0;
    let mut i: usize = 0;
    while i < s.len()
        invariant
            i <= s.len(),
            utf8_len(s@.take(i as int)) <= usize::MAX ==> n == utf8_len(s@.take(i as int)),
            utf8_len(s@.take(i as int)) > usize::MAX ==> n == usize::MAX,
        decreases s.len() - i,
    {
        assert(s@.take(i + 1).drop_last() =~= s@.take(i as int));
        assert(s@.take(i + 1).last() == s@[i as int]);
        let c = s[i];
        let w: usize = if c <= '\x7F' {
            1
        } else if 'ࠀ' > c {
            2
        } else if '𐀀' > c {
            3
        } else {
            4
        };
        assert(w as int == utf8_width(s@[i as int]));
        n = if n > usize::MAX - w {
            usize::MAX
        } else {
            n + w
        };
        i += 1;
    }
    assert(s@.take(i as int) =~= s@);
    n
}

/// The first byte of the UTF-8 encoding of `c`.
/// The first byte of the UTF-8 encoding of `c`.
pub open spec fn utf8_first_byte(c: char) -> u8 {
    let v = c as u32;
    if v < 0x80 {
        v as u8
    } else if v < 0x800 {
        (0xC0 | (v >> 6)) as u8
    } else if v < 0x10000 {
        (0xE0 | (v >> 12)) as u8
    } else {
        (0xF0 | (v >> 18)) as u8
    }
}

pub fn first_utf8_byte(c: char) -> (b: u8)
    ensures
        b == utf8_first_byte(c),
{
    let v = c as u32;
    if v < 0x80 {
        v as u8
    } else if v < 0x800 {
        (0xC0 | (v >> 6)) as u8
    } else if v < 0x10000 {
        (0xE0 | (v >> 12)) as u8
    } else {
        (0xF0 | (v >> 18)) as u8
    }
}

/// The value of a lower-case hexadecimal digit.
pub fn hex_nibble(c: char) -> (r: Option<u8>)
    ensures
        r == hex_value(c),
{
    if '0' <= c && c <= '9' {
        Some((c as u32 - '0' as u32) as u8)
    } else if 'a' <= c && c <= 'f' {
        Some((c as u32 - 'a' as u32 + 10) as u8)
    } else {
        None
    }
}


/// Decodes 64 lower-case hexadecimal characters into 32 bytes.
/// The complaint about a block identifier that is not sixty-four lower-case
/// hexadecimal digits: its length in bytes when that is wrong, otherwise the
/// first byte that is no such digit.
pub open spec fn block_id_error(s: Seq<char>) -> Seq<char> {
    if utf8_len(s) != 64 {
        "invalid block ID length: "@ + decimal(capped_len(utf8_len(s)) as nat)
    } else {
        "invalid hexadecimal digit: "@ + decimal(utf8_first_byte(s[first_non_hex(s)]) as nat)
    }
}

/// The index of the first character of `s` that is no lower-case
/// hexadecimal digit, or its length when there is none.
pub open spec fn first_non_hex(s: Seq<char>) -> int
    decreases s.len(),
{
    if s.len() == 0 || hex_value(s[0]) is None {
        0
    } else {
        1 + first_non_hex(s.drop_first())
    }
}

proof fn lemma_first_non_hex(s: Seq<char>, i: int)
    requires
        0 <= i < s.len(),
        forall|j: int| 0 <= j < i ==> (#[trigger] hex_value(s[j])) is Some,
        hex_value(s[i]) is None,
    ensures
        first_non_hex(s) == i,
    decreases i,
{
    if i > 0 {
        let t = s.drop_first();
        assert forall|j: int| 0 <= j < i - 1 implies (#[trigger] hex_value(t[j])) is Some by {
            assert(t[j] == s[j + 1]);
        }
        assert(hex_value(s[0]) is Some);
        lemma_first_non_hex(t, i - 1);
    }
}

pub fn decode_block_id(encoded: &Vec<char>) -> (r: Result<[u8; 32], String>)
    ensures
        r is Ok <==> (encoded@.len() == 64 && all_hex(encoded@)),
        r matches Ok(id) ==> id@ == hex_decoded(encoded@),
        r matches Err(e) ==> e@ == block_id_error(encoded@),
{
    let byte_len = utf8_length(encoded);
    proof {
        lemma_utf8_len_ge(encoded@);
        if all_hex(encoded@) {
            assert forall|j: int| 0 <= j < encoded@.len() implies encoded@[j] <= '\x7F' by {
                assert(hex_value(encoded@[j]) is Some);
            }
        }
    }
    if byte_len != 64 {
        let mut msg = string_from("invalid block ID length: ");
        push_decimal(&mut msg, byte_len as u64);
        return Err(msg);
    }
    let mut i: usize = 0;
    while i < encoded.len()
        invariant
            i <= encoded.len(),
            byte_len == 64,
            byte_len == capped_len(utf8_len(encoded@)),
            forall|j: int| 0 <= j < i ==> (#[trigger] hex_value(encoded@[j])) is Some,
        decreases encoded.len() - i,
    {
        if hex_nibble(encoded[i]).is_none() {
            proof {
                lemma_first_non_hex(encoded@, i as int);
            }
            let mut msg = string_from("invalid hexadecimal digit: ");
            push_decimal(&mut msg, first_utf8_byte(encoded[i]) as u64);
            return Err(msg);
        }
        i += 1;
    }
    assert(encoded@.len() == 64);
    let mut id: [u8; 32] = [0u8; 32];
    let mut k: usize = 0;
    while k < 32
        invariant
            k <= 32,
            encoded@.len() == 64,
            all_hex(encoded@),
            forall|j: int| 0 <= j < k ==> id@[j] == hex_decoded(encoded@)[j],
        decreases 32 - k,
    {
        let hi = hex_nibble(encoded[2 * k]).unwrap();
        let lo = hex_nibble(encoded[2 * k + 1]).unwrap();
        proof {
            assert(hex_value(encoded@[2 * k]) is Some);
            assert(hex_value(encoded@[2 * k + 1]) is Some);
        }
        id[k] = hi * 16 + lo;
        k += 1;
    }
    assert(id@ =~= hex_decoded(encoded@));
    Ok(id)
}

// ---------------------------------------------------------------------------
// Building output text
// ---------------------------------------------------------------------------
/// Appends one character; a wrapper of `String::push`, which appends `c` to
/// the string's characters.
#[verifier::external_body]
pub(crate) fn push_char(out: &mut String, c: char)
    ensures
        final(out)@ == old(out)@.push(c),
{
    out.push(c);
}

/// Appends characters one by one.
pub fn push_chars(out: &mut String, v: &Vec<char>)
    ensures
        final(out)@ == old(out)@ + v@,
{
    let mut i: usize = 0;
    while i < v.len()
        invariant
            i <= v.len(),
            out@ == old(out)@ + v@.take(i as int),
        decreases v.len() - i,
    {
        push_char(out, v[i]);
        assert(v@.take(i + 1) =~= v@.take(i as int).push(v@[i as int]));
        i += 1;
    }
    assert(v@.take(i as int) =~= v@);
}

/// Appends a literal text.
pub fn push_str(out: &mut String, lit: &str)
    ensures
        final(out)@ == old(out)@ + lit@,
{
    let v = chars_of(lit);
    push_chars(out, &v);
}

/// A new string holding a literal text.
pub fn string_from(lit: &str) -> (out: String)
    ensures
        out@ == lit@,
{
    let mut out = String::new();
    push_str(&mut out, lit);
    assert(out@ =~= lit@);
    out
}

/// Appends the decimal notation of `n`.
pub fn push_decimal(out: &mut String, n: u64)
    ensures
        final(out)@ == old(out)@ + decimal(n as nat),
{
    let v = decimal_chars(n);
    push_chars(out, &v);
}

/// Appends the two lower-case hexadecimal digits of a byte.
pub fn push_hex_byte(out: &mut String, b: u8)
    ensures
        final(out)@ == old(out)@ + hex_byte(b),
{
    let hi = b / 16;
    let lo = b % 16;
    let c1 = if hi < 10 {
        (hi + 48u8) as char
    } else {
        (hi - 10 + 97u8) as char
    };
    let c2 = if lo < 10 {
        (lo + 48u8) as char
    } else {
        (lo - 10 + 97u8) as char
    };
    push_char(out, c1);
    push_char(out, c2);
    assert(final(out)@ =~= old(out)@ + hex_byte(b));
}

/// What `char::escape_debug` yields for a character.
pub uninterp spec fn char_escape_debug(c: char) -> Seq<char>;

/// `char::escape_debug`, collected into a string: the character's escape
/// as `{:?}` writes it. Its text comes from std's Unicode tables (which
/// characters print as they are and which as `\u{..}`), and is named here,
/// not stated.
#[verifier::external_body]
fn escape_debug_char(c: char) -> (r: String)
    ensures
        r@ == char_escape_debug(c),
{
    c.escape_debug().to_string()
}

/// How `{:?}` shows one character of a string: backslash, quote and the
/// ASCII control characters escaped, other ASCII characters as they are,
/// and a non-ASCII character as `char::escape_debug` escapes it (as it is
/// when printable, otherwise as `\u{..}`).
pub open spec fn debug_escape(c: char) -> Seq<char> {
    if (c as u32) >= 0x80 {
        char_escape_debug(c)
    } else if c == '"' {
        seq!['\\', '"']
    } else if c == '\\' {
        seq!['\\', '\\']
    } else if c == '\n' {
        seq!['\\', 'n']
    } else if c == '\r' {
        seq!['\\', 'r']
    } else if c == '\t' {
        seq!['\\', 't']
    } else if c == '\0' {
        seq!['\\', '0']
    } else if (c as u32) < 0x20 || (c as u32) == 0x7f {
        seq!['\\', 'u', '{'] + (if (c as u32) >= 16 {
            seq![hex_digit((c as u32 / 16) as int)]
        } else {
            seq![]
        }) + seq![hex_digit((c as u32 % 16) as int), '}']
    } else {
        seq![c]
    }
}

pub open spec fn debug_escapes(s: Seq<char>) -> Seq<char>
    decreases s.len(),
{
    if s.len() == 0 {
        seq![]
    } else {
        debug_escapes(s.drop_last()) + debug_escape(s.last())
    }
}

/// A string as `{:?}` shows it, in double quotes.
pub open spec fn debug_text(s: Seq<char>) -> Seq<char> {
    seq!['"'] + debug_escapes(s) + seq!['"']
}

fn hex_digit_char(d: u32) -> (c: char)
    requires
        d < 16,
    ensures
        c == hex_digit(d as int),
{
    if d < 10 {
        (d as u8 + 48u8) as char
    } else {
        (d as u8 - 10 + 97u8) as char
    }
}

/// Appends how `{:?}` shows the character `c` inside a string.
fn push_debug_char(out: &mut String, c: char)
    ensures
        final(out)@ == old(out)@ + debug_escape(c),
{
    let v = c as u32;
    if c == '"' {
        push_str(out, "\\\"");
        proof { reveal_strlit("\\\""); }
    } else if c == '\\' {
        push_str(out, "\\\\");
        proof { reveal_strlit("\\\\"); }
    } else if c == '\n' {
        push_str(out, "\\n");
        proof { reveal_strlit("\\n"); }
    } else if c == '\r' {
        push_str(out, "\\r");
        proof { reveal_strlit("\\r"); }
    } else if c == '\t' {
        push_str(out, "\\t");
        proof { reveal_strlit("\\t"); }
    } else if c == '\0' {
        push_str(out, "\\0");
        proof { reveal_strlit("\\0"); }
    } else if v >= 0x80 {
        let escaped = escape_debug_char(c);
        push_str(out, escaped.as_str());
    } else if v < 0x20 || v == 0x7f {
        push_str(out, "\\u{");
        proof { reveal_strlit("\\u{"); }
        if v >= 16 {
            let hi = hex_digit_char((v / 16) % 16);
            push_char(out, hi);
        }
        let lo = hex_digit_char(v % 16);
        push_char(out, lo);
        push_char(out, '}');
    } else {
        push_char(out, c);
    }
    assert(final(out)@ =~= old(out)@ + debug_escape(c));
}

/// Appends `s` the way `{:?}` shows a string: in double quotes, with
/// backslash, quote and control characters escaped, and non-ASCII
/// characters as `char::escape_debug` gives them.
pub fn push_debug_chars(out: &mut String, s: &Vec<char>)
    ensures
        final(out)@ == old(out)@ + debug_text(s@),
{
    push_char(out, '"');
    let ghost start = out@;
    let mut i: usize = 0;
    assert(s@.take(0) =~= Seq::<char>::empty());
    while i < s.len()
        invariant
            i <= s@.len(),
            start == old(out)@ + seq!['"'],
            out@ == start + debug_escapes(s@.take(i as int)),
        decreases s.len() - i,
    {
        let c = s[i];
        let ghost before = out@;
        push_debug_char(out, c);
        proof {
            assert(s@.take(i + 1).drop_last() =~= s@.take(i as int));
            assert(out@ =~= before + debug_escape(c));
        }
        i += 1;
    }
    push_char(out, '"');
    assert(s@.take(i as int) =~= s@);
    assert(out@ =~= old(out)@ + debug_text(s@));
}

/// How `{:?}` shows one character of an `OsStr`: each character as
/// `char::escape_debug` escapes it, which is as in a string except that a
/// single quote is escaped too.
pub open spec fn os_debug_escape(c: char) -> Seq<char> {
    if c == '\'' {
        seq!['\\', '\'']
    } else {
        debug_escape(c)
    }
}

pub open spec fn os_debug_escapes(s: Seq<char>) -> Seq<char>
    decreases s.len(),
{
    if s.len() == 0 {
        seq![]
    } else {
        os_debug_escapes(s.drop_last()) + os_debug_escape(s.last())
    }
}

/// An `OsStr` holding the characters `s` as `{:?}` shows it, in double
/// quotes.
pub open spec fn os_debug_text(s: Seq<char>) -> Seq<char> {
    seq!['"'] + os_debug_escapes(s) + seq!['"']
}

/// Appends `s` the way `{:?}` shows an `OsStr` holding those characters.
pub fn push_os_debug_chars(out: &mut String, s: &Vec<char>)
    ensures
        final(out)@ == old(out)@ + os_debug_text(s@),
{
    push_char(out, '"');
    let ghost start = out@;
    let mut i: usize = 0;
    assert(s@.take(0) =~= Seq::<char>::empty());
    while i < s.len()
        invariant
            i <= s@.len(),
            start == old(out)@ + seq!['"'],
            out@ == start + os_debug_escapes(s@.take(i as int)),
        decreases s.len() - i,
    {
        let c = s[i];
        let ghost before = out@;
        if c == '\'' {
            push_char(out, '\\');
            push_char(out, '\'');
        } else {
            push_debug_char(out, c);
        }
        proof {
            assert(s@.take(i + 1).drop_last() =~= s@.take(i as int));
            assert(out@ =~= before + os_debug_escape(c));
        }
        i += 1;
    }
    push_char(out, '"');
    assert(s@.take(i as int) =~= s@);
    assert(out@ =~= old(out)@ + os_debug_text(s@));
}

/// The text of a sequence of lines, each followed by `\n`.
pub open spec fn terminated(ls: Seq<Seq<char>>) -> Seq<char>
    decreases ls.len(),
{
    if ls.len() == 0 {
        seq![]
    } else {
        ls[0] + seq!['\n'] + terminated(ls.drop_first())
    }
}

/// A line that `lines` gives back unchanged: no `\n` in it, no final `\r`.
pub open spec fn is_plain_line(l: Seq<char>) -> bool {
    &&& forall|j: int| 0 <= j < l.len() ==> l[j] != '\n'
    &&& (l.len() == 0 || l.last() != '\r')
}

pub proof fn lemma_terminated_push(ls: Seq<Seq<char>>, l: Seq<char>)
    ensures
        terminated(ls.push(l)) == terminated(ls) + l + seq!['\n'],
    decreases ls.len(),
{
    if ls.len() == 0 {
        assert(ls.push(l).drop_first() =~= Seq::<Seq<char>>::empty());
        assert(terminated(ls.push(l).drop_first()) =~= Seq::<char>::empty());
        assert(ls.push(l)[0] == l);
        assert(terminated(ls) =~= Seq::<char>::empty());
        assert(terminated(ls.push(l)) =~= l + seq!['\n']);
    } else {
        lemma_terminated_push(ls.drop_first(), l);
        assert(ls.push(l).drop_first() =~= ls.drop_first().push(l));
        assert(terminated(ls.push(l)) =~= terminated(ls) + l + seq!['\n']);
    }
}

/// Splitting terminated plain lines gives them back.
pub proof fn lemma_lines_terminated(ls: Seq<Seq<char>>)
    requires
        forall|i: int| 0 <= i < ls.len() ==> is_plain_line(#[trigger] ls[i]),
    ensures
        lines(terminated(ls)) == ls,
    decreases ls.len(),
{
    if ls.len() > 0 {
        let s = terminated(ls);
        let l = ls[0];
        assert(is_plain_line(l));
        assert(s[l.len() as int] == '\n');
        assert forall|j: int| 0 <= j < l.len() implies s[j] != '\n' by {
            assert(s[j] == l[j]);
        }
        lemma_first_index_at(s, '\n', l.len() as int);
        assert(s.take(l.len() as int) =~= l);
        assert(s.skip(l.len() as int + 1) =~= terminated(ls.drop_first()));
        assert forall|i: int| 0 <= i < ls.drop_first().len() implies is_plain_line(
            #[trigger] ls.drop_first()[i],
        ) by {
            assert(ls.drop_first()[i] == ls[i + 1]);
        }
        lemma_lines_terminated(ls.drop_first());
        assert(lines(s) =~= seq![l] + ls.drop_first());
        assert(ls =~= seq![l] + ls.drop_first());
    } else {
        assert(terminated(ls).len() == 0);
    }
}


pub proof fn lemma_terminated_concat(a: Seq<Seq<char>>, b: Seq<Seq<char>>)
    ensures
        terminated(a + b) == terminated(a) + terminated(b),
    decreases a.len(),
{
    if a.len() == 0 {
        assert(a + b =~= b);
        assert(terminated(a) =~= Seq::<char>::empty());
        assert(terminated(a) + terminated(b) =~= terminated(b));
    } else {
        lemma_terminated_concat(a.drop_first(), b);
        assert((a + b).drop_first() =~= a.drop_first() + b);
        assert((a + b)[0] == a[0]);
        assert(terminated(a + b) =~= terminated(a) + terminated(b));
    }
}


/// The characters of the `i`-th line of a split text.
pub proof fn lemma_line_view(ls: &Vec<Vec<char>>, i: int)
    requires
        0 <= i < ls.len(),
    ensures
        ls.deep_view()[i] == ls@[i]@,
        ls.deep_view().len() == ls.len(),
{
    assert(ls@[i].deep_view() =~= ls@[i]@);
}


// ---------------------------------------------------------------------------
// Lemmas relating rendered text to its parsing
// ---------------------------------------------------------------------------
/// Whether `s` holds no line break characters.
pub open spec fn no_breaks(s: Seq<char>) -> bool {
    forall|i: int| 0 <= i < s.len() ==> #[trigger] s[i] != '\n' && s[i] != '\r'
}

/// Whether `s` holds no ASCII whitespace, no `=` and no `,`.
pub open spec fn is_token(s: Seq<char>) -> bool {
    forall|i: int|
        0 <= i < s.len() ==> !is_ascii_ws(#[trigger] s[i]) && s[i] != '=' && s[i] != ','
}

pub proof fn lemma_token_no_breaks(s: Seq<char>)
    requires
        is_token(s),
    ensures
        no_breaks(s),
{
    assert forall|i: int| 0 <= i < s.len() implies #[trigger] s[i] != '\n' && s[i] != '\r' by {
        assert(!is_ascii_ws(s[i]));
    }
}

pub proof fn lemma_no_breaks_plain(s: Seq<char>)
    requires
        no_breaks(s),
    ensures
        is_plain_line(s),
{
    if s.len() > 0 {
        assert(s[s.len() - 1] != '\r');
    }
}

pub proof fn lemma_no_breaks_concat(a: Seq<char>, b: Seq<char>)
    requires
        no_breaks(a),
        no_breaks(b),
    ensures
        no_breaks(a + b),
{
    assert forall|i: int| 0 <= i < (a + b).len() implies #[trigger] (a + b)[i] != '\n' && (a
        + b)[i] != '\r' by {
        if i < a.len() {
            assert((a + b)[i] == a[i]);
        } else {
            assert((a + b)[i] == b[i - a.len()]);
        }
    }
}

pub proof fn lemma_token_concat(a: Seq<char>, b: Seq<char>)
    requires
        is_token(a),
        is_token(b),
    ensures
        is_token(a + b),
{
    assert forall|i: int| 0 <= i < (a + b).len() implies !is_ascii_ws(#[trigger] (a + b)[i])
        && (a + b)[i] != '=' && (a + b)[i] != ',' by {
        if i < a.len() {
            assert((a + b)[i] == a[i]);
        } else {
            assert((a + b)[i] == b[i - a.len()]);
        }
    }
}

pub proof fn lemma_decimal_digits(n: nat)
    ensures
        decimal(n).len() > 0,
        all_digits(decimal(n)),
        digits_value(decimal(n)) == n,
        n < 10 ==> decimal(n).len() == 1,
    decreases n,
{
    let c = digit_char(n % 10);
    assert(digit_value(c) == n % 10);
    if n >= 10 {
        lemma_decimal_digits(n / 10);
        let d = decimal(n / 10);
        assert(decimal(n).drop_last() =~= d);
        assert(decimal(n).last() == c);
        assert(digits_value(decimal(n)) == digits_value(d) * 10 + digit_value(c));
        assert((n / 10) * 10 + n % 10 == n);
        assert forall|i: int| 0 <= i < decimal(n).len() implies is_digit(#[trigger] decimal(n)[i]) by {
            if i < d.len() {
                assert(decimal(n)[i] == d[i]);
            }
        }
    } else {
        assert(is_digit(decimal(n)[0]));
        assert(decimal(n).drop_last() =~= Seq::<char>::empty());
        assert(decimal(n).last() == c);
        assert(digits_value(decimal(n)) == digits_value(Seq::<char>::empty()) * 10 + digit_value(c));
    }
}

pub proof fn lemma_decimal_token(n: nat)
    ensures
        is_token(decimal(n)),
        no_breaks(decimal(n)),
{
    lemma_decimal_digits(n);
    assert forall|i: int| 0 <= i < decimal(n).len() implies !is_ascii_ws(#[trigger] decimal(n)[i])
        && decimal(n)[i] != '=' && decimal(n)[i] != ',' by {
        assert(is_digit(decimal(n)[i]));
    }
    lemma_token_no_breaks(decimal(n));
}

/// The decimal notation of `n` parses back to `n`.
pub proof fn lemma_parse_decimal(n: nat, max: int)
    requires
        n <= max,
    ensures
        parse_unsigned(decimal(n), max) == Some(n as int),
{
    lemma_decimal_digits(n);
    assert(is_digit(decimal(n)[0]));
    assert(unsigned_digits(decimal(n)) == decimal(n));
}

proof fn lemma_hex_string_len(b: Seq<u8>)
    ensures
        hex_string(b).len() == 2 * b.len(),
    decreases b.len(),
{
    if b.len() > 0 {
        lemma_hex_string_len(b.drop_last());
    }
}

proof fn lemma_hex_string_index(b: Seq<u8>, i: int)
    requires
        0 <= i < b.len(),
    ensures
        hex_string(b).len() == 2 * b.len(),
        hex_string(b)[2 * i] == hex_digit(b[i] as int / 16),
        hex_string(b)[2 * i + 1] == hex_digit(b[i] as int % 16),
    decreases b.len(),
{
    lemma_hex_string_len(b);
    lemma_hex_string_len(b.drop_last());
    if i < b.len() - 1 {
        lemma_hex_string_index(b.drop_last(), i);
        assert(hex_string(b)[2 * i] == hex_string(b.drop_last())[2 * i]);
        assert(hex_string(b)[2 * i + 1] == hex_string(b.drop_last())[2 * i + 1]);
    } else {
        assert(hex_string(b)[2 * i] == hex_byte(b.last())[0]);
        assert(hex_string(b)[2 * i + 1] == hex_byte(b.last())[1]);
    }
}

proof fn lemma_hex_digit_value(d: int)
    requires
        0 <= d < 16,
    ensures
        hex_value(hex_digit(d)) == Some(d as u8),
{
}

/// Hexadecimal notation decodes back to the bytes.
pub proof fn lemma_hex_round_trip(b: Seq<u8>)
    ensures
        hex_string(b).len() == 2 * b.len(),
        all_hex(hex_string(b)),
        hex_decoded(hex_string(b)) == b,
        is_token(hex_string(b)),
        no_breaks(hex_string(b)),
{
    let h = hex_string(b);
    lemma_hex_string_len(b);
    assert forall|k: int| 0 <= k < h.len() implies (#[trigger] hex_value(h[k])) is Some by {
        let i = k / 2;
        lemma_hex_string_index(b, i);
        lemma_hex_digit_value(b[i] as int / 16);
        lemma_hex_digit_value(b[i] as int % 16);
        if k % 2 == 0 {
            assert(k == 2 * i);
        } else {
            assert(k == 2 * i + 1);
        }
    }
    assert forall|i: int| 0 <= i < b.len() implies #[trigger] hex_decoded(h)[i] == b[i] by {
        lemma_hex_string_index(b, i);
        lemma_hex_digit_value(b[i] as int / 16);
        lemma_hex_digit_value(b[i] as int % 16);
    }
    assert(hex_decoded(h) =~= b);
    assert forall|k: int| 0 <= k < h.len() implies !is_ascii_ws(#[trigger] h[k]) && h[k] != '='
        && h[k] != ',' by {
        assert(hex_value(h[k]) is Some);
    }
    lemma_token_no_breaks(h);
}

proof fn lemma_hex_digit_of_value(c: char)
    requires
        hex_value(c) is Some,
    ensures
        hex_digit(hex_value(c)->0 as int) == c,
        hex_value(c)->0 < 16,
{
}

/// Lower-case hexadecimal of even length is the notation of the bytes it
/// decodes to.
pub proof fn lemma_hex_reencode(s: Seq<char>)
    requires
        all_hex(s),
        s.len() % 2 == 0,
    ensures
        hex_string(hex_decoded(s)) == s,
{
    let b = hex_decoded(s);
    lemma_hex_string_len(b);
    assert forall|k: int| 0 <= k < s.len() implies #[trigger] hex_string(b)[k] == s[k] by {
        let i = k / 2;
        lemma_hex_string_index(b, i);
        assert(hex_value(s[2 * i]) is Some);
        assert(hex_value(s[2 * i + 1]) is Some);
        let hi = hex_value(s[2 * i])->0 as int;
        let lo = hex_value(s[2 * i + 1])->0 as int;
        lemma_hex_digit_of_value(s[2 * i]);
        lemma_hex_digit_of_value(s[2 * i + 1]);
        assert(b[i] as int == hi * 16 + lo) by {
            assert(0 <= hi * 16 + lo < 256) by (nonlinear_arith)
                requires
                    0 <= hi < 16,
                    0 <= lo < 16,
            ;
        }
        assert((hi * 16 + lo) / 16 == hi && (hi * 16 + lo) % 16 == lo) by (nonlinear_arith)
            requires
                0 <= hi < 16,
                0 <= lo < 16,
        ;
        if k % 2 == 0 {
            assert(k == 2 * i);
        } else {
            assert(k == 2 * i + 1);
        }
    }
    assert(hex_string(b) =~= s);
}

/// Decoding a block identifier inverts its notation: for any 32 bytes, the
/// lower-case hexadecimal that `{:02x}` writes for each is 64 characters of
/// lower-case hexadecimal, which [`decode_block_id`] takes back to the
/// bytes; and what it accepts is exactly such a notation.
pub proof fn lemma_block_id_round_trip(bytes: Seq<u8>, s: Seq<char>)
    requires
        bytes.len() == 32,
    ensures
        hex_string(bytes).len() == 64,
        all_hex(hex_string(bytes)),
        hex_decoded(hex_string(bytes)) == bytes,
        (s.len() == 64 && all_hex(s)) ==> hex_string(hex_decoded(s)) == s && hex_decoded(s).len()
            == 32,
{
    lemma_hex_round_trip(bytes);
    if s.len() == 64 && all_hex(s) {
        lemma_hex_reencode(s);
    }
}

proof fn lemma_word_len_prefix(x: Seq<char>, y: Seq<char>)
    requires
        y.len() == 0 || is_ascii_ws(y[0]),
    ensures
        word_len(x + y) == word_len(x),
    decreases x.len(),
{
    if x.len() == 0 {
        assert(x + y =~= y);
    } else {
        assert((x + y)[0] == x[0]);
        if !is_ascii_ws(x[0]) {
            assert((x + y).drop_first() =~= x.drop_first() + y);
            lemma_word_len_prefix(x.drop_first(), y);
        }
    }
}

/// Splitting at whitespace distributes over a concatenation that meets at
/// whitespace.
pub proof fn lemma_fields_concat(x: Seq<char>, y: Seq<char>)
    requires
        y.len() == 0 || is_ascii_ws(y[0]),
    ensures
        fields(x + y) == fields(x) + fields(y),
    decreases x.len(),
{
    if x.len() == 0 {
        assert(x + y =~= y);
        assert(fields(x) =~= Seq::<Seq<char>>::empty());
        assert(fields(x) + fields(y) =~= fields(y));
    } else if is_ascii_ws(x[0]) {
        assert((x + y)[0] == x[0]);
        assert((x + y).drop_first() =~= x.drop_first() + y);
        lemma_fields_concat(x.drop_first(), y);
    } else {
        assert((x + y)[0] == x[0]);
        lemma_word_len_prefix(x, y);
        lemma_word_len(x);
        let w = word_len(x) as int;
        assert((x + y).take(w) =~= x.take(w));
        assert((x + y).skip(w) =~= x.skip(w) + y);
        lemma_fields_concat(x.skip(w), y);
        assert(fields(x + y) =~= fields(x) + fields(y));
    }
}

/// Leading whitespace does not change the fields.
pub proof fn lemma_fields_leading_ws(x: Seq<char>, y: Seq<char>)
    requires
        forall|i: int| 0 <= i < x.len() ==> is_ascii_ws(#[trigger] x[i]),
    ensures
        fields(x + y) == fields(y),
    decreases x.len(),
{
    if x.len() > 0 {
        assert((x + y)[0] == x[0]);
        assert((x + y).drop_first() =~= x.drop_first() + y);
        assert forall|i: int| 0 <= i < x.drop_first().len() implies is_ascii_ws(
            #[trigger] x.drop_first()[i],
        ) by {
            assert(x.drop_first()[i] == x[i + 1]);
        }
        lemma_fields_leading_ws(x.drop_first(), y);
    } else {
        assert(x + y =~= y);
    }
}

/// A word followed by nothing splits into that word.
pub proof fn lemma_fields_word(w: Seq<char>)
    requires
        w.len() > 0,
        is_token(w),
    ensures
        fields(w) == seq![w],
{
    lemma_word_len_at(w, w.len() as int);
    assert(w.take(w.len() as int) =~= w);
    assert(w.skip(w.len() as int) =~= Seq::<char>::empty());
    assert(!is_ascii_ws(w[0]));
    assert(fields(w.skip(w.len() as int)) =~= Seq::<Seq<char>>::empty());
    assert(fields(w) =~= seq![w]);
}

/// Splitting `a c b` once at `c`, where `a` holds no `c`.
pub proof fn lemma_split_once_at(a: Seq<char>, c: char, b: Seq<char>)
    requires
        forall|i: int| 0 <= i < a.len() ==> a[i] != c,
    ensures
        split_once(a + seq![c] + b, c) == Some((a, b)),
{
    let s = a + seq![c] + b;
    assert(s[a.len() as int] == c);
    assert forall|j: int| 0 <= j < a.len() implies s[j] != c by {
        assert(s[j] == a[j]);
    }
    lemma_first_index_at(s, c, a.len() as int);
    assert(s.take(a.len() as int) =~= a);
    assert(s.skip(a.len() as int + 1) =~= b);
}

/// Splitting `a c b` at every `c`, where `a` holds no `c`.
pub proof fn lemma_split_on_step(a: Seq<char>, c: char, b: Seq<char>)
    requires
        forall|i: int| 0 <= i < a.len() ==> a[i] != c,
    ensures
        split_on(a + seq![c] + b, c) == seq![a] + split_on(b, c),
{
    let s = a + seq![c] + b;
    assert(s[a.len() as int] == c);
    assert forall|j: int| 0 <= j < a.len() implies s[j] != c by {
        assert(s[j] == a[j]);
    }
    lemma_first_index_at(s, c, a.len() as int);
    assert(s.take(a.len() as int) =~= a);
    assert(s.skip(a.len() as int + 1) =~= b);
}

/// A string without `c` splits into itself.
pub proof fn lemma_split_on_none(a: Seq<char>, c: char)
    requires
        forall|i: int| 0 <= i < a.len() ==> a[i] != c,
    ensures
        split_on(a, c) == seq![a],
{
    lemma_first_index_none(a, c);
}

pub proof fn lemma_has_prefix_concat(p: Seq<char>, r: Seq<char>)
    ensures
        has_prefix(p + r, p),
        (p + r).skip(p.len() as int) == r,
{
    assert((p + r).take(p.len() as int) =~= p);
    assert((p + r).skip(p.len() as int) =~= r);
}


// ---------------------------------------------------------------------------
// UTF-8 decoding
// ---------------------------------------------------------------------------
/// The error of `String::from_utf8`, carried through unchanged.
#[verifier::external_type_specification]
#[verifier::external_body]
pub struct ExFromUtf8Error(FromUtf8Error);

/// `String::from_utf8`: the decoded text when the bytes are valid UTF-8, an
/// error otherwise.
#[verifier::external_body]
pub(crate) fn string_from_utf8(bytes: Vec<u8>) -> (r: Result<String, FromUtf8Error>)
    ensures
        r is Ok <==> vstd::utf8::valid_utf8(bytes@),
        r matches Ok(s) ==> s@ == vstd::utf8::decode_utf8(bytes@),
{
    String::from_utf8(bytes)
}

/// `String::as_str` of a string whose view is the characters.
pub fn as_chars(s: &String) -> (out: Vec<char>)
    ensures
        out@ == s@,
{
    chars_of(s.as_str())
}


/// Splitting at `c` distributes over a concatenation joined by `c`.
pub proof fn lemma_split_on_concat(x: Seq<char>, c: char, y: Seq<char>)
    ensures
        split_on(x + seq![c] + y, c) == split_on(x, c) + split_on(y, c),
    decreases x.len(),
{
    let s = x + seq![c] + y;
    lemma_first_index(x, c);
    let p = first_index(x, c);
    if p < 0 {
        lemma_split_on_step(x, c, y);
        lemma_split_on_none(x, c);
    } else {
        assert(s[p] == c);
        assert forall|j: int| 0 <= j < p implies s[j] != c by {
            assert(s[j] == x[j]);
        }
        lemma_first_index_at(s, c, p);
        assert(s.take(p) =~= x.take(p));
        assert(s.skip(p + 1) =~= x.skip(p + 1) + seq![c] + y);
        lemma_split_on_concat(x.skip(p + 1), c, y);
        assert(split_on(s, c) =~= split_on(x, c) + split_on(y, c));
    }
}

/// Whether `s` holds no ASCII whitespace.
pub open spec fn no_ws(s: Seq<char>) -> bool {
    forall|k: int| 0 <= k < s.len() ==> !is_ascii_ws(#[trigger] s[k])
}

pub proof fn lemma_no_ws_concat(a: Seq<char>, b: Seq<char>)
    requires
        no_ws(a),
        no_ws(b),
    ensures
        no_ws(a + b),
{
    assert forall|k: int| 0 <= k < (a + b).len() implies !is_ascii_ws(#[trigger] (a + b)[k]) by {
        if k < a.len() {
            assert((a + b)[k] == a[k]);
        } else {
            assert((a + b)[k] == b[k - a.len()]);
        }
    }
}

pub proof fn lemma_no_ws_no_breaks(s: Seq<char>)
    requires
        no_ws(s),
    ensures
        no_breaks(s),
{
    assert forall|i: int| 0 <= i < s.len() implies #[trigger] s[i] != '\n' && s[i] != '\r' by {
        assert(!is_ascii_ws(s[i]));
    }
}

/// A space and then a word, followed by text that starts at whitespace.
pub proof fn lemma_fields_word_then(w: Seq<char>, rest: Seq<char>)
    requires
        w.len() > 0,
        no_ws(w),
        rest.len() == 0 || is_ascii_ws(rest[0]),
    ensures
        fields(seq![' '] + w + rest) == seq![w] + fields(rest),
{
    lemma_fields_concat(seq![' '] + w, rest);
    let s = seq![' '] + w;
    assert(s.drop_first() =~= w);
    lemma_word_len_at(w, w.len() as int);
    assert(w.take(w.len() as int) =~= w);
    assert(w.skip(w.len() as int) =~= Seq::<char>::empty());
    assert(!is_ascii_ws(w[0]));
    assert(fields(w.skip(w.len() as int)) =~= Seq::<Seq<char>>::empty());
    assert(fields(w) =~= seq![w]);
}

} // verus!
