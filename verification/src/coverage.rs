//! k-path coverage of a grammar, kept across runs in a state file.
//!
//! The state file records the `k` it was made for, a fingerprint of the
//! grammar, and every covered path, one per line, as comma-separated
//! grammar node numbers in increasing lexicographic order:
//!
//! ```text
//! fandango-kpath-v1
//! k=<k>
//! grammar=<sixteen lower-case hexadecimal digits>
//! <n>,<n>,...
//! ```

use vstd::prelude::*;
use crate::text;

verus! {

// ---------------------------------------------------------------------------
// Grammar fingerprint
// ---------------------------------------------------------------------------
/// The 64-bit FNV-1a hash of a byte string.
pub open spec fn fnv1a(bytes: Seq<u8>) -> u64
    decreases bytes.len(),
{
    if bytes.len() == 0 {
        0xcbf2_9ce4_8422_2325u64
    } else {
        (fnv1a(bytes.drop_last()) ^ (bytes.last() as u64)).wrapping_mul(0x0000_0100_0000_01b3u64)
    }
}

/// The fingerprint of a grammar's source, which identifies state files made
/// for another grammar (it is no defence against hostile input).
pub fn grammar_fingerprint(grammar: &[u8]) -> (h: u64)
    ensures
        h == fnv1a(grammar@),
{
    let mut h: u64 = 0xcbf2_9ce4_8422_2325;
    let mut i: usize = 0;
    assert(grammar@.take(0) =~= Seq::<u8>::empty());
    while i < grammar.len()
        invariant
            i <= grammar@.len(),
            h == fnv1a(grammar@.take(i as int)),
        decreases grammar.len() - i,
    {
        assert(grammar@.take(i + 1).drop_last() =~= grammar@.take(i as int));
        h = (h ^ (grammar[i] as u64)).wrapping_mul(0x0000_0100_0000_01b3);
        i += 1;
    }
    assert(grammar@.take(i as int) =~= grammar@);
    h
}

// ---------------------------------------------------------------------------
// Paths and their order
// ---------------------------------------------------------------------------
/// Lexicographic order of paths, as `Ord` on `Vec<usize>` has it.
pub open spec fn path_lt(a: Seq<usize>, b: Seq<usize>) -> bool
    decreases a.len(),
{
    if a.len() == 0 {
        b.len() > 0
    } else if b.len() == 0 {
        false
    } else if a[0] != b[0] {
        a[0] < b[0]
    } else {
        path_lt(a.drop_first(), b.drop_first())
    }
}

/// Whether paths are in strictly increasing order.
pub open spec fn strictly_sorted(ps: Seq<Seq<usize>>) -> bool {
    forall|i: int, j: int| 0 <= i < j < ps.len() ==> path_lt(#[trigger] ps[i], #[trigger] ps[j])
}

pub proof fn lemma_path_lt_irreflexive(a: Seq<usize>)
    ensures
        !path_lt(a, a),
    decreases a.len(),
{
    if a.len() > 0 {
        lemma_path_lt_irreflexive(a.drop_first());
    }
}

pub proof fn lemma_path_lt_transitive(a: Seq<usize>, b: Seq<usize>, c: Seq<usize>)
    requires
        path_lt(a, b),
        path_lt(b, c),
    ensures
        path_lt(a, c),
    decreases a.len(),
{
    if a.len() > 0 && b.len() > 0 && c.len() > 0 && a[0] == b[0] && b[0] == c[0] {
        lemma_path_lt_transitive(a.drop_first(), b.drop_first(), c.drop_first());
    }
}

pub proof fn lemma_path_lt_total(a: Seq<usize>, b: Seq<usize>)
    ensures
        a != b ==> path_lt(a, b) || path_lt(b, a),
        !(path_lt(a, b) && path_lt(b, a)),
    decreases a.len(),
{
    if a.len() > 0 && b.len() > 0 && a[0] == b[0] {
        lemma_path_lt_total(a.drop_first(), b.drop_first());
        if a.drop_first() == b.drop_first() {
            assert(a =~= seq![a[0]] + a.drop_first());
            assert(b =~= seq![b[0]] + b.drop_first());
        }
    } else if a.len() == 0 && b.len() == 0 {
        assert(a =~= b);
    }
}

proof fn lemma_path_lt_skip(a: Seq<usize>, b: Seq<usize>, i: int)
    requires
        0 <= i <= a.len(),
        i <= b.len(),
        a.take(i) == b.take(i),
    ensures
        path_lt(a, b) == path_lt(a.skip(i), b.skip(i)),
    decreases i,
{
    if i > 0 {
        assert(a[0] == a.take(i)[0]);
        assert(b[0] == b.take(i)[0]);
        assert(a.drop_first().take(i - 1) =~= a.take(i).drop_first());
        assert(b.drop_first().take(i - 1) =~= b.take(i).drop_first());
        lemma_path_lt_skip(a.drop_first(), b.drop_first(), i - 1);
        assert(a.drop_first().skip(i - 1) =~= a.skip(i));
        assert(b.drop_first().skip(i - 1) =~= b.skip(i));
    } else {
        assert(a.skip(0) =~= a);
        assert(b.skip(0) =~= b);
    }
}

/// Whether `a` comes before `b` in lexicographic order.
pub fn path_less(a: &Vec<usize>, b: &Vec<usize>) -> (r: bool)
    ensures
        r == path_lt(a@, b@),
{
    let mut i: usize = 0;
    while i < a.len() && i < b.len()
        invariant
            i <= a@.len(),
            i <= b@.len(),
            a@.take(i as int) == b@.take(i as int),
        decreases a.len() - i,
    {
        if a[i] != b[i] {
            proof {
                lemma_path_lt_skip(a@, b@, i as int);
                assert(a@.skip(i as int)[0] == a@[i as int]);
                assert(b@.skip(i as int)[0] == b@[i as int]);
            }
            return a[i] < b[i];
        }
        assert(a@.take(i + 1) =~= a@.take(i as int).push(a@[i as int]));
        assert(b@.take(i + 1) =~= b@.take(i as int).push(b@[i as int]));
        i += 1;
    }
    proof {
        lemma_path_lt_skip(a@, b@, i as int);
    }
    i < b.len()
}

/// Whether two paths are equal.
pub fn path_equal(a: &Vec<usize>, b: &Vec<usize>) -> (r: bool)
    ensures
        r == (a@ == b@),
{
    if a.len() != b.len() {
        return false;
    }
    let mut i: usize = 0;
    while i < a.len()
        invariant
            i <= a@.len(),
            a@.len() == b@.len(),
            forall|j: int| 0 <= j < i ==> a@[j] == b@[j],
        decreases a.len() - i,
    {
        if a[i] != b[i] {
            return false;
        }
        i += 1;
    }
    assert(a@ =~= b@);
    true
}

/// Whether `p` is one of `ps`.
pub fn contains_path(ps: &Vec<Vec<usize>>, p: &Vec<usize>) -> (r: bool)
    ensures
        r == ps.deep_view().contains(p@),
{
    let mut i: usize = 0;
    while i < ps.len()
        invariant
            i <= ps@.len(),
            forall|j: int| 0 <= j < i ==> ps.deep_view()[j] != p@,
        decreases ps.len() - i,
    {
        assert(ps.deep_view()[i as int] == ps@[i as int]@);
        if path_equal(&ps[i], p) {
            return true;
        }
        i += 1;
    }
    proof {
        if ps.deep_view().contains(p@) {
            let j = choose|j: int| 0 <= j < ps.deep_view().len() && ps.deep_view()[j] == p@;
            assert(ps.deep_view()[j] != p@);
        }
    }
    false
}

// ---------------------------------------------------------------------------
// Hexadecimal fingerprints
// ---------------------------------------------------------------------------
/// The last `count` hexadecimal digits of `n`, lower-case, zero-padded.
pub open spec fn hex_digits(n: nat, count: nat) -> Seq<char>
    decreases count,
{
    if count == 0 {
        seq![]
    } else {
        hex_digits(n / 16, (count - 1) as nat).push(text::hex_digit((n % 16) as int))
    }
}

/// `{:016x}`: sixteen lower-case hexadecimal digits.
pub open spec fn hex16(n: u64) -> Seq<char> {
    hex_digits(n as nat, 16)
}

/// The value of a hexadecimal digit of either case.
pub open spec fn hex_digit_value(c: char) -> Option<int> {
    if '0' <= c && c <= '9' {
        Some(c as int - '0' as int)
    } else if 'a' <= c && c <= 'f' {
        Some(c as int - 'a' as int + 10)
    } else if 'A' <= c && c <= 'F' {
        Some(c as int - 'A' as int + 10)
    } else {
        None
    }
}

pub open spec fn all_hex(s: Seq<char>) -> bool {
    forall|i: int| 0 <= i < s.len() ==> (#[trigger] hex_digit_value(s[i])) is Some
}

/// The number that a string of hexadecimal digits denotes.
pub open spec fn hex_value(s: Seq<char>) -> int
    decreases s.len(),
{
    if s.len() == 0 {
        0
    } else {
        hex_value(s.drop_last()) * 16 + hex_digit_value(s.last())->0
    }
}

/// What `u64::from_str_radix(s, 16)` accepts: an optional `+`, then at
/// least one hexadecimal digit of either case, and a value that fits.
pub open spec fn parse_hex(s: Seq<char>) -> Option<u64> {
    let d = text::unsigned_digits(s);
    if d.len() > 0 && all_hex(d) && hex_value(d) <= u64::MAX {
        Some(hex_value(d) as u64)
    } else {
        None
    }
}

proof fn lemma_hex_value_take(d: Seq<char>, i: int)
    requires
        0 <= i < d.len(),
    ensures
        hex_value(d.take(i + 1)) == hex_value(d.take(i)) * 16 + hex_digit_value(d[i])->0,
{
    assert(d.take(i + 1).drop_last() =~= d.take(i));
}

proof fn lemma_hex_value_nonneg(d: Seq<char>)
    requires
        all_hex(d),
    ensures
        hex_value(d) >= 0,
    decreases d.len(),
{
    if d.len() > 0 {
        lemma_hex_value_nonneg(d.drop_last());
        assert(hex_digit_value(d.last()) is Some);
    }
}

proof fn lemma_hex_value_prefix(d: Seq<char>, i: int)
    requires
        0 <= i <= d.len(),
        all_hex(d),
    ensures
        0 <= hex_value(d.take(i)) <= hex_value(d),
    decreases d.len() - i,
{
    if i < d.len() {
        lemma_hex_value_take(d, i);
        lemma_hex_value_prefix(d, i + 1);
        assert(hex_digit_value(d[i]) is Some);
    } else {
        assert(d.take(i) =~= d);
        lemma_hex_value_nonneg(d);
    }
}

/// `16` to the power `count`.
pub open spec fn pow16(count: nat) -> nat
    decreases count,
{
    if count == 0 {
        1
    } else {
        16 * pow16((count - 1) as nat)
    }
}

proof fn lemma_hex_digits(n: nat, count: nat)
    requires
        n < pow16(count),
    ensures
        hex_digits(n, count).len() == count,
        all_hex(hex_digits(n, count)),
        hex_value(hex_digits(n, count)) == n,
        forall|i: int| 0 <= i < count ==> #[trigger] hex_digits(n, count)[i] != '\n'
            && hex_digits(n, count)[i] != '\r' && hex_digits(n, count)[i] != ',',
    decreases count,
{
    if count > 0 {
        let prev = hex_digits(n / 16, (count - 1) as nat);
        assert(n / 16 < pow16((count - 1) as nat)) by (nonlinear_arith)
            requires
                n < 16 * pow16((count - 1) as nat),
        ;
        lemma_hex_digits(n / 16, (count - 1) as nat);
        let d = (n % 16) as int;
        let c = text::hex_digit(d);
        assert(hex_digit_value(c) == Some(d));
        let s = hex_digits(n, count);
        assert(s.drop_last() =~= prev);
        assert forall|i: int| 0 <= i < s.len() implies (#[trigger] hex_digit_value(s[i])) is Some by {
            if i < prev.len() {
                assert(s[i] == prev[i]);
            }
        }
        assert forall|i: int| 0 <= i < count implies #[trigger] s[i] != '\n' && s[i] != '\r' && s[i] != ',' by {
            if i < prev.len() {
                assert(s[i] == prev[i]);
            }
        }
    }
}

/// Parsing the sixteen digits of a fingerprint gives it back.
pub proof fn lemma_hex16_round_trip(n: u64)
    ensures
        parse_hex(hex16(n)) == Some(n),
        hex16(n).len() == 16,
        forall|i: int| 0 <= i < 16 ==> #[trigger] hex16(n)[i] != '\n' && hex16(n)[i] != '\r',
{
    reveal_with_fuel(pow16, 17);
    assert(pow16(16) == 0x1_0000_0000_0000_0000);
    lemma_hex_digits(n as nat, 16);
    let s = hex16(n);
    assert(hex_digit_value(s[0]) is Some);
    assert(text::unsigned_digits(s) == s);
}

/// The last `count` hexadecimal digits of `n`, lower-case, zero-padded.
fn hex_digit_chars(n: u64, count: usize) -> (out: Vec<char>)
    ensures
        out@ == hex_digits(n as nat, count as nat),
    decreases count,
{
    if count == 0 {
        return Vec::new();
    }
    let mut out = hex_digit_chars(n / 16, count - 1);
    let d = (n % 16) as u32;
    let c = if d < 10 {
        ((d + 48) as u8) as char
    } else {
        ((d - 10 + 97) as u8) as char
    };
    assert(c == text::hex_digit(d as int));
    out.push(c);
    out
}

/// Renders `{:016x}`.
pub fn hex16_chars(n: u64) -> (out: Vec<char>)
    ensures
        out@ == hex16(n),
{
    hex_digit_chars(n, 16)
}

/// Parses a hexadecimal number as `u64::from_str_radix(s, 16)` does, or
/// gives `None` where it fails.
pub fn parse_hex_u64(s: &Vec<char>) -> (r: Option<u64>)
    ensures
        r == parse_hex(s@),
{
    if s.len() == 0 {
        return None;
    }
    let start: usize = if s[0] == '+' {
        1
    } else {
        0
    };
    let ghost d = text::unsigned_digits(s@);
    assert(d =~= s@.skip(start as int));
    if start == s.len() {
        return None;
    }
    let mut acc: u64 = 0;
    let mut k: usize = start;
    assert(d.take(0) =~= Seq::<char>::empty());
    while k < s.len()
        invariant
            start <= k <= s.len(),
            d == s@.skip(start as int),
            d == text::unsigned_digits(s@),
            d.len() > 0,
            all_hex(d.take(k - start)),
            acc as int == hex_value(d.take(k - start)),
        decreases s.len() - k,
    {
        let ghost i = k - start;
        let c = s[k];
        assert(d[i] == c);
        let digit: u64 = if '0' <= c && c <= '9' {
            (c as u32 - '0' as u32) as u64
        } else if 'a' <= c && c <= 'f' {
            (c as u32 - 'a' as u32 + 10) as u64
        } else if 'A' <= c && c <= 'F' {
            (c as u32 - 'A' as u32 + 10) as u64
        } else {
            assert(hex_digit_value(d[i]) is None);
            assert(!all_hex(d));
            return None;
        };
        proof {
            lemma_hex_value_take(d, i);
            assert(all_hex(d.take(i + 1))) by {
                assert forall|j: int| 0 <= j < d.take(i + 1).len() implies (#[trigger] hex_digit_value(d.take(i + 1)[j])) is Some by {
                    if j < i {
                        assert(d.take(i + 1)[j] == d.take(i)[j]);
                    }
                }
            }
        }
        if acc > (u64::MAX - digit) / 16 {
            proof {
                assert(acc * 16 + digit > u64::MAX) by (nonlinear_arith)
                    requires
                        acc > (u64::MAX - digit) / 16,
                        digit <= 15,
                ;
                if all_hex(d) {
                    lemma_hex_value_prefix(d, i + 1);
                }
            }
            return None;
        }
        proof {
            assert(acc * 16 + digit <= u64::MAX) by (nonlinear_arith)
                requires
                    acc <= (u64::MAX - digit) / 16,
                    digit <= 15,
            ;
        }
        acc = acc * 16 + digit;
        k += 1;
    }
    assert(d.take(k - start) =~= d);
    Some(acc)
}

// ---------------------------------------------------------------------------
// The state file
// ---------------------------------------------------------------------------
/// A path as a state line: its node numbers in decimal, separated by commas.
pub open spec fn path_text(p: Seq<usize>) -> Seq<char>
    decreases p.len(),
{
    if p.len() == 0 {
        seq![]
    } else if p.len() == 1 {
        text::decimal(p[0] as nat)
    } else {
        path_text(p.drop_last()) + seq![','] + text::decimal(p.last() as nat)
    }
}

/// The lines of a state file for `k`, a grammar fingerprint and the covered
/// paths in the order given.
pub open spec fn state_lines(k: nat, grammar: u64, ps: Seq<Seq<usize>>) -> Seq<Seq<char>> {
    seq!["fandango-kpath-v1"@, "k="@ + text::decimal(k), "grammar="@ + hex16(grammar)]
        + ps.map_values(|p: Seq<usize>| path_text(p))
}

/// The text of a state file.
pub open spec fn state_text(k: nat, grammar: u64, ps: Seq<Seq<usize>>) -> Seq<char> {
    text::terminated(state_lines(k, grammar, ps))
}

/// The error that the first piece which is no `usize` gives, if any piece
/// is none.
pub open spec fn first_bad_number(pieces: Seq<Seq<char>>) -> Option<text::NumberError>
    decreases pieces.len(),
{
    if pieces.len() == 0 {
        None
    } else if text::parse_unsigned(pieces[0], usize::MAX as int) is None {
        Some(text::number_error(pieces[0], usize::MAX as int))
    } else {
        first_bad_number(pieces.drop_first())
    }
}

/// The numbers of pieces that all parse.
pub open spec fn path_numbers(pieces: Seq<Seq<char>>) -> Seq<usize> {
    Seq::new(pieces.len(), |i: int| text::parse_unsigned(pieces[i], usize::MAX as int)->0 as usize)
}

/// The path of a non-empty state line, or the complaint about it.
pub open spec fn path_line(k: nat, known: Set<Seq<usize>>, line: Seq<char>) -> Result<Seq<usize>, Seq<char>> {
    let pieces = text::split_on(line, ',');
    match first_bad_number(pieces) {
        Some(e) => Err("invalid path "@ + text::debug_text(line) + ": "@ + text::number_error_text(e)),
        None => {
            let p = path_numbers(pieces);
            if p.len() == 0 || p.len() > k {
                Err("invalid grammar path: "@ + line)
            } else if !known.contains(p) {
                Err("unknown grammar path: "@ + line)
            } else {
                Ok(p)
            }
        },
    }
}

/// The covered paths that the path lines give (empty lines are skipped), or
/// the complaint about the first bad one.
pub open spec fn covered_by_lines(k: nat, known: Set<Seq<usize>>, ls: Seq<Seq<char>>) -> Result<Set<Seq<usize>>, Seq<char>>
    decreases ls.len(),
{
    if ls.len() == 0 {
        Ok(Set::empty())
    } else {
        match covered_by_lines(k, known, ls.drop_last()) {
            Err(e) => Err(e),
            Ok(set) => if ls.last().len() == 0 {
                Ok(set)
            } else {
                match path_line(k, known, ls.last()) {
                    Ok(p) => Ok(set.insert(p)),
                    Err(e) => Err(e),
                }
            },
        }
    }
}

/// The covered paths that a state file records for `k`, the grammar with
/// fingerprint `grammar` and its paths `known`, or the complaint about it.
pub open spec fn parse_state(k: nat, grammar: u64, known: Set<Seq<usize>>, t: Seq<char>) -> Result<Set<Seq<usize>>, Seq<char>> {
    let ls = text::lines(t);
    if ls.len() == 0 || ls[0] != "fandango-kpath-v1"@ {
        Err("invalid state header"@)
    } else if ls.len() < 2 || !text::has_prefix(ls[1], "k="@) || text::parse_unsigned(
        ls[1].skip(2),
        usize::MAX as int,
    ) is None {
        Err("invalid k value"@)
    } else if text::parse_unsigned(ls[1].skip(2), usize::MAX as int)->0 != k {
        Err(
            "state uses k="@ + text::decimal(
                text::parse_unsigned(ls[1].skip(2), usize::MAX as int)->0 as nat,
            ) + ", requested k="@ + text::decimal(k),
        )
    } else if ls.len() < 3 || !text::has_prefix(ls[2], "grammar="@) || parse_hex(ls[2].skip(8))
        is None {
        Err("invalid grammar fingerprint"@)
    } else if parse_hex(ls[2].skip(8))->0 != grammar {
        Err("state belongs to a different Alpenglow grammar"@)
    } else {
        covered_by_lines(k, known, ls.skip(3))
    }
}

proof fn lemma_first_bad_number(pieces: Seq<Seq<char>>, i: int)
    requires
        0 <= i <= pieces.len(),
        forall|j: int| 0 <= j < i ==> (#[trigger] text::parse_unsigned(pieces[j], usize::MAX as int)) is Some,
    ensures
        i < pieces.len() && text::parse_unsigned(pieces[i], usize::MAX as int) is None
            ==> first_bad_number(pieces) == Some(text::number_error(pieces[i], usize::MAX as int)),
        i == pieces.len() ==> first_bad_number(pieces) is None,
    decreases i,
{
    if i > 0 {
        let t = pieces.drop_first();
        assert forall|j: int| 0 <= j < i - 1 implies (#[trigger] text::parse_unsigned(t[j], usize::MAX as int)) is Some by {
            assert(t[j] == pieces[j + 1]);
        }
        assert(text::parse_unsigned(pieces[0], usize::MAX as int) is Some);
        lemma_first_bad_number(t, i - 1);
        if i < pieces.len() {
            assert(t[i - 1] == pieces[i]);
        }
    }
}

proof fn lemma_covered_err_extends(k: nat, known: Set<Seq<usize>>, ls: Seq<Seq<char>>, j: int)
    requires
        0 <= j <= ls.len(),
        covered_by_lines(k, known, ls.take(j)) is Err,
    ensures
        covered_by_lines(k, known, ls) == covered_by_lines(k, known, ls.take(j)),
    decreases ls.len() - j,
{
    if j < ls.len() {
        assert(ls.take(j + 1).drop_last() =~= ls.take(j));
        lemma_covered_err_extends(k, known, ls, j + 1);
    } else {
        assert(ls.take(j) =~= ls);
    }
}

/// Appends the state line of a path.
fn push_path(out: &mut String, p: &Vec<usize>)
    ensures
        final(out)@ == old(out)@ + path_text(p@),
{
    let mut i: usize = 0;
    assert(p@.take(0) =~= Seq::<usize>::empty());
    while i < p.len()
        invariant
            i <= p@.len(),
            out@ == old(out)@ + path_text(p@.take(i as int)),
        decreases p.len() - i,
    {
        let ghost before = out@;
        if i > 0 {
            text::push_char(out, ',');
        }
        text::push_decimal(out, p[i] as u64);
        proof {
            let t = p@.take(i + 1);
            assert(t.drop_last() =~= p@.take(i as int));
            assert(t.last() == p@[i as int]);
            if i == 0 {
                assert(out@ =~= old(out)@ + path_text(t));
            } else {
                assert(out@ =~= old(out)@ + path_text(t));
            }
        }
        i += 1;
    }
    assert(p@.take(i as int) =~= p@);
}

/// Parses a non-empty state line into a path of the grammar.
fn parse_path_line(k: usize, known: &Vec<Vec<usize>>, line: &Vec<char>) -> (r: Result<Vec<usize>, String>)
    ensures
        match path_line(k as nat, known.deep_view().to_set(), line@) {
            Ok(p) => r matches Ok(v) && v@ == p,
            Err(m) => r matches Err(e) && e@ == m,
        },
{
    let pieces = text::split_char(line, ',');
    let ghost ps = pieces.deep_view();
    let mut path: Vec<usize> = Vec::new();
    let mut i: usize = 0;
    while i < pieces.len()
        invariant
            ps == pieces.deep_view(),
            ps == text::split_on(line@, ','),
            i <= pieces@.len(),
            forall|j: int| 0 <= j < i ==> (#[trigger] text::parse_unsigned(ps[j], usize::MAX as int)) is Some,
            path@ == path_numbers(ps.take(i as int)),
        decreases pieces.len() - i,
    {
        assert(ps[i as int] == pieces@[i as int]@);
        match text::parse_unsigned_max(&pieces[i], usize::MAX as u64) {
            Ok(v) => {
                path.push(v as usize);
                proof {
                    assert(path@ =~= path_numbers(ps.take(i + 1)));
                }
            },
            Err(e) => {
                proof {
                    lemma_first_bad_number(ps, i as int);
                }
                let mut msg = text::string_from("invalid path ");
                text::push_debug_chars(&mut msg, line);
                text::push_str(&mut msg, ": ");
                text::push_str(&mut msg, e.message());
                return Err(msg);
            },
        }
        i += 1;
    }
    proof {
        lemma_first_bad_number(ps, i as int);
        assert(ps.take(i as int) =~= ps);
    }
    if path.len() == 0 || path.len() > k {
        let mut msg = text::string_from("invalid grammar path: ");
        text::push_chars(&mut msg, line);
        return Err(msg);
    }
    if !contains_path(known, &path) {
        let mut msg = text::string_from("unknown grammar path: ");
        text::push_chars(&mut msg, line);
        return Err(msg);
    }
    Ok(path)
}

// ---------------------------------------------------------------------------
// Coverage
// ---------------------------------------------------------------------------
/// The mathematical content of a [`KPathCoverage`].
#[verifier::ext_equal]
pub struct CoverageView {
    pub k: nat,
    pub grammar: u64,
    pub known: Set<Seq<usize>>,
    pub covered: Set<Seq<usize>>,
}

/// Whether a view is one that a [`KPathCoverage`] can have: `k` is
/// positive, the grammar has finitely many paths, and every covered path is
/// one of them.
pub open spec fn coverage_ok(c: CoverageView) -> bool {
    &&& c.k > 0
    &&& c.known.finite()
    &&& c.covered.subset_of(c.known)
    &&& forall|p: Seq<usize>| #[trigger] c.known.contains(p) ==> 1 <= p.len() <= c.k
}

/// Whether every path has one to `k` nodes, as a grammar's k-paths do.
pub open spec fn paths_within(ps: Seq<Seq<usize>>, k: nat) -> bool {
    forall|i: int| 0 <= i < ps.len() ==> 1 <= #[trigger] ps[i].len() <= k
}

proof fn lemma_fields_ok(k: usize, grammar: u64, known: Seq<Seq<usize>>, covered: Seq<Seq<usize>>)
    requires
        k > 0,
        paths_within(known, k as nat),
        forall|i: int| 0 <= i < covered.len() ==> known.contains(#[trigger] covered[i]),
    ensures
        coverage_ok(CoverageView { k: k as nat, grammar, known: known.to_set(), covered: covered.to_set() }),
{
    broadcast use vstd::seq_lib::seq_to_set_is_finite;
    assert forall|p: Seq<usize>| covered.to_set().contains(p) implies known.to_set().contains(p) by {
        let i = choose|i: int| 0 <= i < covered.len() && covered[i] == p;
    }
    assert forall|p: Seq<usize>| #[trigger] known.to_set().contains(p) implies 1 <= p.len() <= k by {
        let i = choose|i: int| 0 <= i < known.len() && known[i] == p;
    }
}

proof fn lemma_within_same_set(a: Seq<Seq<usize>>, b: Seq<Seq<usize>>, k: nat)
    requires
        paths_within(a, k),
        b.to_set() == a.to_set(),
    ensures
        paths_within(b, k),
{
    assert forall|i: int| 0 <= i < b.len() implies 1 <= #[trigger] b[i].len() <= k by {
        assert(b.to_set().contains(b[i]));
        let j = choose|j: int| 0 <= j < a.len() && a[j] == b[i];
    }
}

/// Which of a grammar's k-paths generated trees have covered so far.
pub struct KPathCoverage {
    k: usize,
    grammar: u64,
    known: Vec<Vec<usize>>,
    covered: Vec<Vec<usize>>,
}

impl View for KPathCoverage {
    type V = CoverageView;

    closed spec fn view(&self) -> CoverageView {
        CoverageView {
            k: self.k as nat,
            grammar: self.grammar,
            known: self.known.deep_view().to_set(),
            covered: self.covered.deep_view().to_set(),
        }
    }
}

impl KPathCoverage {
    /// `k` is positive, the grammar's paths and the covered ones are listed
    /// once each, and every covered path is a path of the grammar.
    #[verifier::type_invariant]
    closed spec fn well_formed(&self) -> bool {
        &&& self.k > 0
        &&& paths_within(self.known.deep_view(), self.k as nat)
        &&& self.known.deep_view().no_duplicates()
        &&& self.covered.deep_view().no_duplicates()
        &&& forall|i: int|
            0 <= i < self.covered.deep_view().len() ==> self.known.deep_view().contains(
                #[trigger] self.covered.deep_view()[i],
            )
    }
}

/// The paths, each once.
fn distinct_paths(ps: &Vec<Vec<usize>>) -> (out: Vec<Vec<usize>>)
    ensures
        out.deep_view().no_duplicates(),
        out.deep_view().to_set() == ps.deep_view().to_set(),
{
    let mut out: Vec<Vec<usize>> = Vec::new();
    let mut i: usize = 0;
    while i < ps.len()
        invariant
            i <= ps@.len(),
            out.deep_view().no_duplicates(),
            out.deep_view().to_set() == ps.deep_view().take(i as int).to_set(),
        decreases ps.len() - i,
    {
        let ghost before = out.deep_view();
        assert(ps.deep_view()[i as int] == ps@[i as int]@);
        let ghost x = ps.deep_view()[i as int];
        if !contains_path(&out, &ps[i]) {
            let q = ps[i].clone();
            assert(q.deep_view() =~= q@);
            out.push(q);
            assert(out.deep_view() =~= before.push(x));
            proof {
                before.lemma_push_to_set_commute(x);
            }
        } else {
            assert(before.to_set().contains(x));
            assert(before.to_set().insert(x) =~= before.to_set());
        }
        assert(ps.deep_view().take(i + 1) =~= ps.deep_view().take(i as int).push(x));
        proof {
            ps.deep_view().take(i as int).lemma_push_to_set_commute(x);
        }
        assert(out.deep_view().to_set() =~= ps.deep_view().take(i + 1).to_set());
        i += 1;
    }
    assert(ps.deep_view().take(i as int) =~= ps.deep_view());
    out
}

/// The paths in strictly increasing order.
fn sorted_paths(ps: &Vec<Vec<usize>>) -> (out: Vec<Vec<usize>>)
    requires
        ps.deep_view().no_duplicates(),
    ensures
        strictly_sorted(out.deep_view()),
        out.deep_view().to_set() == ps.deep_view().to_set(),
{
    let mut out: Vec<Vec<usize>> = Vec::new();
    let mut i: usize = 0;
    while i < ps.len()
        invariant
            i <= ps@.len(),
            ps.deep_view().no_duplicates(),
            strictly_sorted(out.deep_view()),
            out.deep_view().to_set() == ps.deep_view().take(i as int).to_set(),
        decreases ps.len() - i,
    {
        let p = ps[i].clone();
        let ghost pv = ps.deep_view()[i as int];
        assert(pv == p@);
        let ghost before = out.deep_view();
        let mut j: usize = 0;
        while j < out.len() && !path_less(&p, &out[j])
            invariant
                j <= out@.len(),
                p@ == pv,
                out.deep_view() == before,
                forall|m: int| 0 <= m < j ==> !path_lt(pv, #[trigger] before[m]),
            decreases out.len() - j,
        {
            assert(before[j as int] == out@[j as int]@);
            j += 1;
        }
        proof {
            if j < out.len() {
                assert(before[j as int] == out@[j as int]@);
            }
            assert(!before.contains(pv)) by {
                if before.contains(pv) {
                    assert(before.to_set().contains(pv));
                    let q = choose|q: int| 0 <= q < i && ps.deep_view().take(i as int)[q] == pv;
                    assert(ps.deep_view()[q] == ps.deep_view()[i as int]);
                }
            }
        }
        out.insert(j, p);
        proof {
            let now = out.deep_view();
            assert(now =~= before.insert(j as int, pv));
            assert forall|a: int, b: int| 0 <= a < b < now.len() implies path_lt(#[trigger] now[a], #[trigger] now[b]) by {
                if b < j {
                    assert(now[a] == before[a] && now[b] == before[b]);
                } else if a > j {
                    assert(now[a] == before[a - 1] && now[b] == before[b - 1]);
                } else if a < j && b > j {
                    assert(now[a] == before[a] && now[b] == before[b - 1]);
                    lemma_path_lt_total(before[a], pv);
                    lemma_path_lt_total(pv, before[j as int]);
                    assert(path_lt(pv, before[j as int]));
                    if b - 1 > j {
                        lemma_path_lt_transitive(pv, before[j as int], before[b - 1]);
                    }
                    lemma_path_lt_transitive(before[a], pv, before[b - 1]);
                } else if a == j {
                    assert(now[a] == pv && now[b] == before[b - 1]);
                    assert(path_lt(pv, before[j as int]));
                    if b - 1 > j {
                        lemma_path_lt_transitive(pv, before[j as int], before[b - 1]);
                    }
                } else {
                    assert(b == j);
                    assert(now[a] == before[a] && now[b] == pv);
                    lemma_path_lt_total(before[a], pv);
                    assert(before[a] != pv);
                }
            }
            assert(ps.deep_view().take(i + 1) =~= ps.deep_view().take(i as int).push(pv));
            ps.deep_view().take(i as int).lemma_push_to_set_commute(pv);
            assert forall|x: Seq<usize>| before.to_set().insert(pv).contains(x) implies now.to_set().contains(x) by {
                if x == pv {
                    assert(now[j as int] == pv);
                } else {
                    assert(before.contains(x));
                    let q = choose|q: int| 0 <= q < before.len() && before[q] == x;
                    if q < j {
                        assert(now[q] == x);
                    } else {
                        assert(now[q + 1] == x);
                    }
                }
            }
            assert forall|x: Seq<usize>| now.to_set().contains(x) implies before.to_set().insert(pv).contains(x) by {
                assert(now.contains(x));
                let q = choose|q: int| 0 <= q < now.len() && now[q] == x;
                if q < j {
                    assert(before[q] == x);
                    assert(before.contains(x));
                } else if q > j {
                    assert(before[q - 1] == x);
                    assert(before.contains(x));
                }
            }
            assert(now.to_set() =~= before.to_set().insert(pv));
            assert(now.to_set() =~= ps.deep_view().take(i + 1).to_set());
        }
        i += 1;
    }
    assert(ps.deep_view().take(i as int) =~= ps.deep_view());
    out
}

impl KPathCoverage {
    /// No path covered yet, for the paths `known` of the grammar with
    /// fingerprint `grammar`.
    pub fn new(k: usize, grammar: u64, known: &Vec<Vec<usize>>) -> (c: Self)
        requires
            k > 0,
            paths_within(known.deep_view(), k as nat),
        ensures
            c@ == (CoverageView {
                k: k as nat,
                grammar,
                known: known.deep_view().to_set(),
                covered: Set::empty(),
            }),
            coverage_ok(c@),
    {
        let ghost given = known.deep_view();
        let known = distinct_paths(known);
        proof {
            lemma_within_same_set(given, known.deep_view(), k as nat);
        }
        let c = KPathCoverage { k, grammar, known, covered: Vec::new() };
        assert(c@.covered =~= Set::<Seq<usize>>::empty());
        proof {
            lemma_fields_ok(k, grammar, c.known.deep_view(), c.covered.deep_view());
        }
        c
    }

    /// Reads a state file's text: the coverage it records, or the complaint
    /// about it.
    pub fn load_state(k: usize, grammar: u64, known: &Vec<Vec<usize>>, state: &str) -> (r: Result<Self, String>)
        requires
            k > 0,
            paths_within(known.deep_view(), k as nat),
        ensures
            match parse_state(k as nat, grammar, known.deep_view().to_set(), state@) {
                Ok(covered) => r matches Ok(c) && c@ == (CoverageView {
                    k: k as nat,
                    grammar,
                    known: known.deep_view().to_set(),
                    covered,
                }),
                Err(m) => r matches Err(e) && e@ == m,
            },
    {
        let ghost known_set = known.deep_view().to_set();
        let chars = text::chars_of(state);
        let ls = text::split_lines(&chars);
        let ghost lv = ls.deep_view();
        assert(lv == text::lines(state@));
        if ls.len() == 0 || !text::equals_str(&ls[0], "fandango-kpath-v1") {
            proof {
                if ls.len() > 0 {
                    assert(lv[0] == ls@[0]@);
                }
            }
            return Err(text::string_from("invalid state header"));
        }
        assert(lv[0] == ls@[0]@);
        if ls.len() < 2 {
            return Err(text::string_from("invalid k value"));
        }
        assert(lv[1] == ls@[1]@);
        let stored_k = match text::strip_prefix_str(&ls[1], "k=") {
            None => {
                return Err(text::string_from("invalid k value"));
            },
            Some(rest) => {
                proof {
                    reveal_strlit("k=");
                }
                match text::parse_unsigned_max(&rest, usize::MAX as u64) {
                    Ok(v) => v,
                    Err(_) => {
                        return Err(text::string_from("invalid k value"));
                    },
                }
            },
        };
        if stored_k != k as u64 {
            let mut msg = text::string_from("state uses k=");
            text::push_decimal(&mut msg, stored_k);
            text::push_str(&mut msg, ", requested k=");
            text::push_decimal(&mut msg, k as u64);
            return Err(msg);
        }
        if ls.len() < 3 {
            return Err(text::string_from("invalid grammar fingerprint"));
        }
        assert(lv[2] == ls@[2]@);
        let stored_grammar = match text::strip_prefix_str(&ls[2], "grammar=") {
            None => {
                return Err(text::string_from("invalid grammar fingerprint"));
            },
            Some(rest) => {
                proof {
                    reveal_strlit("grammar=");
                }
                match parse_hex_u64(&rest) {
                    Some(v) => v,
                    None => {
                        return Err(text::string_from("invalid grammar fingerprint"));
                    },
                }
            },
        };
        if stored_grammar != grammar {
            return Err(text::string_from("state belongs to a different Alpenglow grammar"));
        }
        let known_paths = distinct_paths(known);
        proof {
            lemma_within_same_set(known.deep_view(), known_paths.deep_view(), k as nat);
        }
        let ghost rest = lv.skip(3);
        let mut covered: Vec<Vec<usize>> = Vec::new();
        let mut i: usize = 3;
        assert(rest.take(0) =~= Seq::<Seq<char>>::empty());
        assert(covered.deep_view().to_set() =~= Set::<Seq<usize>>::empty());
        assert(parse_state(k as nat, grammar, known_set, state@) == covered_by_lines(k as nat, known_set, rest));
        while i < ls.len()
            invariant
                3 <= i <= ls@.len(),
                parse_state(k as nat, grammar, known_set, state@) == covered_by_lines(k as nat, known_set, rest),
                lv == ls.deep_view(),
                rest == lv.skip(3),
                known_set == known.deep_view().to_set(),
                known_paths.deep_view().to_set() == known_set,
                covered.deep_view().no_duplicates(),
                forall|j: int|
                    0 <= j < covered.deep_view().len() ==> known_set.contains(
                        #[trigger] covered.deep_view()[j],
                    ),
                covered_by_lines(k as nat, known_set, rest.take(i - 3)) == Ok::<
                    Set<Seq<usize>>,
                    Seq<char>,
                >(covered.deep_view().to_set()),
            decreases ls.len() - i,
        {
            let ghost t = rest.take(i - 2);
            assert(t.drop_last() =~= rest.take(i - 3));
            assert(t.last() == lv[i as int]);
            assert(lv[i as int] == ls@[i as int]@);
            if ls[i].len() > 0 {
                match parse_path_line(k, &known_paths, &ls[i]) {
                    Ok(path) => {
                        let ghost before = covered.deep_view();
                        let ghost pv = path@;
                        if !contains_path(&covered, &path) {
                            assert(path.deep_view() =~= path@);
                            covered.push(path);
                            assert(covered.deep_view() =~= before.push(pv));
                            proof {
                                before.lemma_push_to_set_commute(pv);
                            }
                        } else {
                            assert(before.to_set().contains(pv));
                        }
                        assert(covered.deep_view().to_set() =~= before.to_set().insert(pv));
                    },
                    Err(msg) => {
                        proof {
                            assert(covered_by_lines(k as nat, known_set, t) == Err::<Set<Seq<usize>>, Seq<char>>(msg@));
                            lemma_covered_err_extends(k as nat, known_set, rest, i - 2);
                        }
                        return Err(msg);
                    },
                }
            }
            i += 1;
        }
        assert(rest.take(i - 3) =~= rest);
        assert(paths_within(known_paths.deep_view(), k as nat));
        let c = KPathCoverage { k, grammar, known: known_paths, covered };
        proof {
            use_type_invariant(&c);
            lemma_fields_ok(k, grammar, c.known.deep_view(), c.covered.deep_view());
        }
        Ok(c)
    }

    /// Records every path of the grammar among the paths `found` in a
    /// generated tree.
    pub fn observe(&mut self, found: &Vec<Vec<usize>>)
        ensures
            final(self)@ == (CoverageView {
                covered: old(self)@.covered.union(
                    found.deep_view().to_set().intersect(old(self)@.known),
                ),
                ..old(self)@
            }),
            coverage_ok(final(self)@),
    {
        proof {
            use_type_invariant(&*self);
        }
        let ghost start = self.covered.deep_view().to_set();
        let mut covered: Vec<Vec<usize>> = Vec::new();
        std::mem::swap(&mut covered, &mut self.covered);
        assert(covered.deep_view().to_set() == start);
        let mut i: usize = 0;
        while i < found.len()
            invariant
                i <= found@.len(),
                self.k > 0,
                self.known.deep_view().no_duplicates(),
                covered.deep_view().no_duplicates(),
                forall|j: int|
                    0 <= j < covered.deep_view().len() ==> self.known.deep_view().contains(
                        #[trigger] covered.deep_view()[j],
                    ),
                covered.deep_view().to_set() == start.union(
                    found.deep_view().take(i as int).to_set().intersect(
                        self.known.deep_view().to_set(),
                    ),
                ),
            decreases found.len() - i,
        {
            let ghost before = covered.deep_view();
            assert(found.deep_view()[i as int] == found@[i as int]@);
            let ghost f = found.deep_view()[i as int];
            let ghost kn = self.known.deep_view().to_set();
            if contains_path(&self.known, &found[i]) && !contains_path(&covered, &found[i]) {
                let q = found[i].clone();
                assert(q.deep_view() =~= q@);
                covered.push(q);
                assert(covered.deep_view() =~= before.push(f));
                proof {
                    before.lemma_push_to_set_commute(f);
                }
            } else if contains_path(&self.known, &found[i]) {
                assert(before.to_set().contains(f));
            }
            assert(found.deep_view().take(i + 1) =~= found.deep_view().take(i as int).push(f));
            proof {
                found.deep_view().take(i as int).lemma_push_to_set_commute(f);
            }
            assert(kn.contains(f) == self.known.deep_view().contains(f));
            assert(covered.deep_view().to_set() =~= start.union(
                found.deep_view().take(i + 1).to_set().intersect(self.known.deep_view().to_set()),
            ));
            i += 1;
        }
        assert(found.deep_view().take(i as int) =~= found.deep_view());
        self.covered = covered;
        proof {
            lemma_fields_ok(self.k, self.grammar, self.known.deep_view(), self.covered.deep_view());
        }
        assert(self@.covered =~= old(self)@.covered.union(
            found.deep_view().to_set().intersect(old(self)@.known),
        ));
    }

    /// `(covered, total)`: how many of the grammar's paths are covered, and
    /// how many it has.
    pub fn totals(&self) -> (r: (usize, usize))
        ensures
            r.0 == self@.covered.len(),
            r.1 == self@.known.len(),
            r.0 <= r.1,
            coverage_ok(self@),
    {
        proof {
            use_type_invariant(self);
            lemma_fields_ok(self.k, self.grammar, self.known.deep_view(), self.covered.deep_view());
            vstd::set_lib::lemma_len_subset(self@.covered, self@.known);
            self.covered.deep_view().unique_seq_to_set();
            self.known.deep_view().unique_seq_to_set();
        }
        (self.covered.len(), self.known.len())
    }

    /// The text of the state file that records this coverage, paths in
    /// increasing order.
    pub fn state_text(&self) -> (out: String)
        ensures
            exists|ps: Seq<Seq<usize>>|
                strictly_sorted(ps) && ps.to_set() == self@.covered && out@ == state_text(
                    self@.k,
                    self@.grammar,
                    ps,
                ),
    {
        proof {
            use_type_invariant(self);
        }
        let paths = sorted_paths(&self.covered);
        let ghost ps = paths.deep_view();
        let mut out = text::string_from("fandango-kpath-v1\nk=");
        text::push_decimal(&mut out, self.k as u64);
        text::push_str(&mut out, "\ngrammar=");
        let hex = hex16_chars(self.grammar);
        text::push_chars(&mut out, &hex);
        text::push_char(&mut out, '\n');
        proof {
            reveal_strlit("fandango-kpath-v1\nk=");
            reveal_strlit("\ngrammar=");
            reveal_strlit("fandango-kpath-v1");
            reveal_strlit("k=");
            reveal_strlit("grammar=");
            let a = "fandango-kpath-v1"@;
            let b = "k="@ + text::decimal(self.k as nat);
            let c = "grammar="@ + hex16(self.grammar);
            let head = seq![a, b, c];
            let h0 = Seq::<Seq<char>>::empty();
            text::lemma_terminated_push(h0, a);
            text::lemma_terminated_push(h0.push(a), b);
            text::lemma_terminated_push(h0.push(a).push(b), c);
            assert(h0.push(a).push(b).push(c) =~= head);
            assert(text::terminated(h0) =~= Seq::<char>::empty());
            assert(out@ =~= text::terminated(head));
            assert(state_lines(self.k as nat, self.grammar, ps.take(0)) =~= head);
        }
        let mut i: usize = 0;
        while i < paths.len()
            invariant
                i <= paths@.len(),
                ps == paths.deep_view(),
                out@ == state_text(self.k as nat, self.grammar, ps.take(i as int)),
            decreases paths.len() - i,
        {
            let ghost before = out@;
            push_path(&mut out, &paths[i]);
            text::push_char(&mut out, '\n');
            proof {
                assert(ps[i as int] == paths@[i as int]@);
                let l0 = state_lines(self.k as nat, self.grammar, ps.take(i as int));
                let l1 = state_lines(self.k as nat, self.grammar, ps.take(i + 1));
                assert(l1 =~= l0.push(path_text(ps[i as int])));
                text::lemma_terminated_push(l0, path_text(ps[i as int]));
                assert(out@ =~= text::terminated(l1));
            }
            i += 1;
        }
        assert(ps.take(i as int) =~= ps);
        out
    }
}

// ---------------------------------------------------------------------------
// Writing and reading back
// ---------------------------------------------------------------------------
proof fn lemma_path_text(p: Seq<usize>)
    requires
        p.len() > 0,
    ensures
        text::split_on(path_text(p), ',') == Seq::new(p.len(), |i: int| text::decimal(p[i] as nat)),
        text::no_breaks(path_text(p)),
        path_text(p).len() > 0,
    decreases p.len(),
{
    let d = text::decimal(p.last() as nat);
    text::lemma_decimal_token(p.last() as nat);
    text::lemma_decimal_digits(p.last() as nat);
    assert forall|j: int| 0 <= j < d.len() implies d[j] != ',' by {
        assert(text::is_token(d));
    }
    text::lemma_split_on_none(d, ',');
    if p.len() == 1 {
        assert(Seq::new(p.len(), |i: int| text::decimal(p[i] as nat)) =~= seq![d]);
    } else {
        let q = p.drop_last();
        lemma_path_text(q);
        text::lemma_split_on_concat(path_text(q), ',', d);
        assert(Seq::new(q.len(), |i: int| text::decimal(q[i] as nat)) + seq![d] =~= Seq::new(
            p.len(),
            |i: int| text::decimal(p[i] as nat),
        ));
        assert(text::no_breaks(seq![','])) by {
            assert forall|j: int| 0 <= j < 1 implies #[trigger] seq![','][j] != '\n' && seq![','][j] != '\r' by {}
        }
        text::lemma_no_breaks_concat(path_text(q), seq![',']);
        text::lemma_no_breaks_concat(path_text(q) + seq![','], d);
    }
}

proof fn lemma_path_line(k: nat, known: Set<Seq<usize>>, p: Seq<usize>)
    requires
        known.contains(p),
        1 <= p.len() <= k,
    ensures
        path_line(k, known, path_text(p)) == Ok::<Seq<usize>, Seq<char>>(p),
{
    lemma_path_text(p);
    let pieces = text::split_on(path_text(p), ',');
    assert forall|j: int| 0 <= j < pieces.len() implies (#[trigger] text::parse_unsigned(pieces[j], usize::MAX as int)) is Some
        && text::parse_unsigned(pieces[j], usize::MAX as int)->0 == p[j] by {
        assert(pieces[j] == text::decimal(p[j] as nat));
        text::lemma_parse_decimal(p[j] as nat, usize::MAX as int);
    }
    lemma_first_bad_number(pieces, pieces.len() as int);
    assert(path_numbers(pieces) =~= p);
}

proof fn lemma_covered_by_path_lines(k: nat, known: Set<Seq<usize>>, ps: Seq<Seq<usize>>)
    requires
        forall|i: int| 0 <= i < ps.len() ==> known.contains(#[trigger] ps[i]) && 1 <= ps[i].len() <= k,
    ensures
        covered_by_lines(k, known, ps.map_values(|p: Seq<usize>| path_text(p))) == Ok::<
            Set<Seq<usize>>,
            Seq<char>,
        >(ps.to_set()),
    decreases ps.len(),
{
    let ls = ps.map_values(|p: Seq<usize>| path_text(p));
    if ps.len() == 0 {
        assert(ps.to_set() =~= Set::<Seq<usize>>::empty());
    } else {
        let q = ps.drop_last();
        assert forall|i: int| 0 <= i < q.len() implies known.contains(#[trigger] q[i]) && 1 <= q[i].len() <= k by {
            assert(q[i] == ps[i]);
        }
        lemma_covered_by_path_lines(k, known, q);
        assert(ls.drop_last() =~= q.map_values(|p: Seq<usize>| path_text(p)));
        let last = ps.last();
        assert(known.contains(ps[ps.len() - 1]));
        lemma_path_text(last);
        lemma_path_line(k, known, last);
        assert(ls.last() == path_text(last));
        assert(ps =~= q.push(last));
        q.lemma_push_to_set_commute(last);
    }
}

/// Reading back a state file gives the paths written into it, whenever they
/// are paths of the grammar with between one and `k` nodes, as k-paths are.
pub proof fn lemma_state_round_trip(k: nat, grammar: u64, known: Set<Seq<usize>>, ps: Seq<Seq<usize>>)
    requires
        k <= usize::MAX,
        forall|i: int| 0 <= i < ps.len() ==> known.contains(#[trigger] ps[i]) && 1 <= ps[i].len() <= k,
    ensures
        parse_state(k, grammar, known, state_text(k, grammar, ps)) == Ok::<
            Set<Seq<usize>>,
            Seq<char>,
        >(ps.to_set()),
{
    reveal_strlit("fandango-kpath-v1");
    reveal_strlit("k=");
    reveal_strlit("grammar=");
    let ls = state_lines(k, grammar, ps);
    let a = "fandango-kpath-v1"@;
    let d = text::decimal(k);
    let b = "k="@ + d;
    let h = hex16(grammar);
    let c = "grammar="@ + h;
    text::lemma_decimal_token(k);
    lemma_hex16_round_trip(grammar);
    assert forall|i: int| 0 <= i < ls.len() implies text::is_plain_line(#[trigger] ls[i]) by {
        if i == 0 {
            assert(text::no_breaks(a)) by {
                assert forall|j: int| 0 <= j < a.len() implies #[trigger] a[j] != '\n' && a[j] != '\r' by {}
            }
            text::lemma_no_breaks_plain(a);
        } else if i == 1 {
            assert(text::no_breaks("k="@)) by {
                assert forall|j: int| 0 <= j < 2 implies #[trigger] "k="@[j] != '\n' && "k="@[j] != '\r' by {}
            }
            text::lemma_no_breaks_concat("k="@, d);
            text::lemma_no_breaks_plain(b);
        } else if i == 2 {
            assert(text::no_breaks("grammar="@)) by {
                assert forall|j: int| 0 <= j < 8 implies #[trigger] "grammar="@[j] != '\n' && "grammar="@[j] != '\r' by {}
            }
            assert(text::no_breaks(h)) by {
                assert forall|j: int| 0 <= j < h.len() implies #[trigger] h[j] != '\n' && h[j] != '\r' by {}
            }
            text::lemma_no_breaks_concat("grammar="@, h);
            text::lemma_no_breaks_plain(c);
        } else {
            assert(ls[i] == path_text(ps[i - 3]));
            assert(known.contains(ps[i - 3]));
            lemma_path_text(ps[i - 3]);
            text::lemma_no_breaks_plain(ls[i]);
        }
    }
    text::lemma_lines_terminated(ls);
    assert(ls[0] == a);
    assert(ls[1] == b);
    assert(ls[2] == c);
    text::lemma_has_prefix_concat("k="@, d);
    text::lemma_parse_decimal(k, usize::MAX as int);
    text::lemma_has_prefix_concat("grammar="@, h);
    assert(ls.skip(3) =~= ps.map_values(|p: Seq<usize>| path_text(p)));
    lemma_covered_by_path_lines(k, known, ps);
}

/// Loading the state file of a coverage gives its covered paths back: the
/// text that [`KPathCoverage::state_text`] writes, read by
/// [`KPathCoverage::load_state`] with the same `k`, grammar and paths.
pub proof fn lemma_saved_state_loads(c: CoverageView, ps: Seq<Seq<usize>>)
    requires
        coverage_ok(c),
        c.k <= usize::MAX,
        ps.to_set() == c.covered,
    ensures
        parse_state(c.k, c.grammar, c.known, state_text(c.k, c.grammar, ps)) == Ok::<
            Set<Seq<usize>>,
            Seq<char>,
        >(c.covered),
{
    assert forall|i: int| 0 <= i < ps.len() implies c.known.contains(#[trigger] ps[i]) && 1 <= ps[i].len() <= c.k by {
        assert(ps.to_set().contains(ps[i]));
    }
    lemma_state_round_trip(c.k, c.grammar, c.known, ps);
}

/// Observing a tree keeps a coverage valid, keeps its grammar's paths,
/// loses no covered path, and covers every path of the grammar that the
/// tree holds: the covered count only grows, and never past the total.
pub proof fn lemma_observe_grows(c: CoverageView, found: Set<Seq<usize>>)
    requires
        coverage_ok(c),
    ensures
        ({
            let after = CoverageView { covered: c.covered.union(found.intersect(c.known)), ..c };
            &&& coverage_ok(after)
            &&& after.known == c.known
            &&& c.covered.subset_of(after.covered)
            &&& found.intersect(c.known).subset_of(after.covered)
            &&& c.covered.len() <= after.covered.len() <= after.known.len()
        }),
{
    let after = CoverageView { covered: c.covered.union(found.intersect(c.known)), ..c };
    vstd::set_lib::lemma_len_subset(after.covered, c.known);
    vstd::set_lib::lemma_len_subset(c.covered, after.covered);
}

} // verus!
