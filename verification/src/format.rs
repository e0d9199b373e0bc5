//! Pieces of the scenario text formats that both Alpenglow grammars share:
//! validator names, block lines, block numbers and line handling.

use vstd::prelude::*;
use crate::rng;
use crate::text;
use rand::rngs::StdRng;

verus! {

pub const BLOCKS_PER_SLOT: usize = 4;

pub const BLOCK_ID_BYTES: usize = 32;

/// The name of the `n`-th validator (counting from 1): `v` and the number.
pub open spec fn v_name(n: nat) -> Seq<char> {
    seq!['v'] + text::decimal(n)
}

pub open spec fn block_prefix(j: int) -> Seq<char> {
    "  b"@ + text::decimal((j + 1) as nat) + "="@
}

pub open spec fn block_line(j: int, id: Seq<u8>) -> Seq<char> {
    block_prefix(j) + text::hex_string(id)
}

pub fn push_v_name(out: &mut String, n: u64)
    ensures
        final(out)@ == old(out)@ + v_name(n as nat),
{
    text::push_char(out, 'v');
    text::push_decimal(out, n);
    assert(final(out)@ =~= old(out)@ + v_name(n as nat));
}

pub proof fn lemma_take_push(ls: Seq<Seq<char>>, n: int)
    requires
        0 <= n < ls.len(),
    ensures
        text::terminated(ls.take(n + 1)) == text::terminated(ls.take(n)) + ls[n] + seq!['\n'],
{
    assert(ls.take(n + 1) =~= ls.take(n).push(ls[n]));
    text::lemma_terminated_push(ls.take(n), ls[n]);
}

pub fn push_block_line(output: &mut String, index: usize, id: &[u8; BLOCK_ID_BYTES])
    requires
        index < BLOCKS_PER_SLOT,
    ensures
        final(output)@ == old(output)@ + block_line(index as int, id@),
{
    text::push_str(output, "  b");
    text::push_decimal(output, index as u64 + 1);
    text::push_str(output, "=");
    assert(id@.take(0) =~= Seq::<u8>::empty());
    assert(text::hex_string(id@.take(0)) =~= Seq::<char>::empty());
    assert(output@ =~= old(output)@ + block_prefix(index as int) + text::hex_string(
        id@.take(0),
    ));
    let mut byte: usize = 0;
    while byte < BLOCK_ID_BYTES
        invariant
            byte <= BLOCK_ID_BYTES,
            output@ == old(output)@ + block_prefix(index as int) + text::hex_string(
                id@.take(byte as int),
            ),
        decreases BLOCK_ID_BYTES - byte,
    {
        text::push_hex_byte(output, id[byte]);
        proof {
            let t = id@.take(byte + 1);
            assert(t.drop_last() =~= id@.take(byte as int));
        }
        byte += 1;
    }
    assert(id@.take(32) =~= id@);
}

/// A block number between 1 and 4, as the index it denotes.
pub open spec fn block_number(s: Seq<char>) -> Option<usize> {
    match text::parse_unsigned(s, usize::MAX as int) {
        Some(n) => if 1 <= n <= BLOCKS_PER_SLOT {
            Some((n - 1) as usize)
        } else {
            None
        },
        None => None,
    }
}

/// The text between `prefix` and a final `)`, when `s` has both.
pub open spec fn enclosed(s: Seq<char>, prefix: Seq<char>) -> Option<Seq<char>> {
    if text::has_prefix(s, prefix) && text::has_suffix(s.skip(prefix.len() as int), seq![')']) {
        Some(s.skip(prefix.len() as int).drop_last())
    } else {
        None
    }
}

/// The identifier on the line of block `j + 1`.
pub open spec fn parse_block_line(line: Seq<char>, j: int) -> Option<Seq<u8>> {
    if text::has_prefix(line, block_prefix(j)) {
        let r = line.skip(block_prefix(j).len() as int);
        if r.len() == 2 * BLOCK_ID_BYTES && text::all_hex(r) {
            Some(text::hex_decoded(r))
        } else {
            None
        }
    } else {
        None
    }
}

pub fn v_name_chars(n: u64) -> (out: Vec<char>)
    ensures
        out@ == v_name(n as nat),
{
    let mut out: Vec<char> = Vec::new();
    out.push('v');
    let d = text::decimal_chars(n);
    let mut i: usize = 0;
    while i < d.len()
        invariant
            i <= d.len(),
            out@ == seq!['v'] + d@.take(i as int),
        decreases d.len() - i,
    {
        out.push(d[i]);
        assert(d@.take(i + 1) =~= d@.take(i as int).push(d@[i as int]));
        i += 1;
    }
    assert(d@.take(i as int) =~= d@);
    out
}

pub fn push_quoted(out: &mut String, lit: &str)
    ensures
        final(out)@ == old(out)@ + text::debug_text(lit@),
{
    let v = text::chars_of(lit);
    text::push_debug_chars(out, &v);
}

/// `encoded` between `prefix` and a final `)`.
pub fn strip_enclosed(encoded: &Vec<char>, prefix: &str) -> (r: Option<Vec<char>>)
    ensures
        match r {
            Some(m) => enclosed(encoded@, prefix@) == Some(m@),
            None => enclosed(encoded@, prefix@) is None,
        },
{
    match text::strip_prefix_str(encoded, prefix) {
        Some(rest) => text::strip_suffix_char(&rest, ')'),
        None => None,
    }
}

/// The complaint about a text that is no block number between 1 and 4.
pub open spec fn block_number_error(s: Seq<char>) -> Seq<char> {
    match text::parse_unsigned(s, usize::MAX as int) {
        None => "invalid block number "@ + text::debug_text(s) + ": "@ + text::number_error_text(
            text::number_error(s, usize::MAX as int),
        ),
        Some(n) => "block number is out of range: "@ + text::decimal(n as nat),
    }
}

/// Parses a block number between 1 and 4 into a block index.
pub fn parse_block_number(encoded: &Vec<char>) -> (r: Result<usize, String>)
    ensures
        match r {
            Ok(b) => block_number(encoded@) == Some(b),
            Err(e) => block_number(encoded@) is None && e@ == block_number_error(encoded@),
        },
{
    match text::parse_unsigned_max(encoded, usize::MAX as u64) {
        Ok(number) => {
            if !(1 <= number && number <= BLOCKS_PER_SLOT as u64) {
                let mut msg = text::string_from("block number is out of range: ");
                text::push_decimal(&mut msg, number);
                return Err(msg);
            }
            Ok((number - 1) as usize)
        },
        Err(error) => {
            let mut msg = text::string_from("invalid block number ");
            text::push_debug_chars(&mut msg, encoded);
            text::push_str(&mut msg, ": ");
            text::push_str(&mut msg, error.message());
            Err(msg)
        },
    }
}

pub fn block_prefix_chars(j: usize) -> (out: Vec<char>)
    requires
        j < BLOCKS_PER_SLOT,
    ensures
        out@ == block_prefix(j as int),
{
    let a = text::chars_of("  b");
    let d = text::decimal_chars(j as u64 + 1);
    let e = text::chars_of("=");
    let mut out: Vec<char> = Vec::new();
    let mut i: usize = 0;
    while i < a.len()
        invariant
            i <= a.len(),
            out@ == a@.take(i as int),
        decreases a.len() - i,
    {
        out.push(a[i]);
        assert(a@.take(i + 1) =~= a@.take(i as int).push(a@[i as int]));
        i += 1;
    }
    assert(a@.take(i as int) =~= a@);
    let mut i: usize = 0;
    while i < d.len()
        invariant
            i <= d.len(),
            out@ == a@ + d@.take(i as int),
        decreases d.len() - i,
    {
        out.push(d[i]);
        assert(d@.take(i + 1) =~= d@.take(i as int).push(d@[i as int]));
        i += 1;
    }
    assert(d@.take(i as int) =~= d@);
    let mut i: usize = 0;
    while i < e.len()
        invariant
            i <= e.len(),
            out@ == a@ + d@ + e@.take(i as int),
        decreases e.len() - i,
    {
        out.push(e[i]);
        assert(e@.take(i + 1) =~= e@.take(i as int).push(e@[i as int]));
        i += 1;
    }
    assert(e@.take(i as int) =~= e@);
    out
}

/// Checks that the line at `pos` is exactly `expected`, as `expect_line` does.
/// The complaint about line `pos` when it should be `expected`.
pub open spec fn expect_error(ls: Seq<Seq<char>>, pos: int, expected: Seq<char>) -> Seq<char> {
    "expected "@ + text::debug_text(expected) + if 0 <= pos < ls.len() {
        ", got "@ + text::debug_text(ls[pos])
    } else {
        ", reached end of input"@
    }
}

pub fn expect_line(ls: &Vec<Vec<char>>, pos: usize, expected: &str) -> (r: Result<(), String>)
    ensures
        r is Ok <==> (pos < ls.len() && ls.deep_view()[pos as int] == expected@),
        r matches Err(e) ==> e@ == expect_error(ls.deep_view(), pos as int, expected@),
{
    if pos >= ls.len() {
        let mut msg = text::string_from("expected ");
        push_quoted(&mut msg, expected);
        text::push_str(&mut msg, ", reached end of input");
        return Err(msg);
    }
    proof {
        text::lemma_line_view(ls, pos as int);
    }
    if text::equals_str(&ls[pos], expected) {
        Ok(())
    } else {
        let mut msg = text::string_from("expected ");
        push_quoted(&mut msg, expected);
        text::push_str(&mut msg, ", got ");
        text::push_debug_chars(&mut msg, &ls[pos]);
        Err(msg)
    }
}

pub proof fn lemma_v_name(n: nat)
    ensures
        v_name(n).len() > 0,
        text::is_token(v_name(n)),
        text::no_breaks(v_name(n)),
        forall|i: int| 0 <= i < v_name(n).len() ==> v_name(n)[i] != '=',
{
    text::lemma_decimal_token(n);
    assert(text::is_token(seq!['v']));
    text::lemma_token_concat(seq!['v'], text::decimal(n));
    text::lemma_token_no_breaks(v_name(n));
}

pub proof fn lemma_block_number(b: usize)
    requires
        b < BLOCKS_PER_SLOT,
    ensures
        block_number(text::decimal((b + 1) as nat)) == Some(b),
        text::decimal((b + 1) as nat).len() == 1,
        text::is_token(text::decimal((b + 1) as nat)),
{
    text::lemma_parse_decimal((b + 1) as nat, usize::MAX as int);
    text::lemma_decimal_digits((b + 1) as nat);
    text::lemma_decimal_token((b + 1) as nat);
}

pub proof fn lemma_enclosed(p: Seq<char>, d: Seq<char>)
    ensures
        enclosed(p + d + seq![')'], p) == Some(d),
{
    let s = p + d + seq![')'];
    assert(s.take(p.len() as int) =~= p);
    assert(s.skip(p.len() as int) =~= d + seq![')']);
    assert((d + seq![')']).skip((d + seq![')']).len() - 1) =~= seq![')']);
    assert((d + seq![')']).drop_last() =~= d);
}

pub proof fn lemma_fields_lone_word(w: Seq<char>)
    requires
        w.len() > 0,
        forall|k: int| 0 <= k < w.len() ==> !text::is_ascii_ws(#[trigger] w[k]),
    ensures
        text::fields(seq![' '] + w) == seq![w],
{
    assert((seq![' '] + w).drop_first() =~= w);
    text::lemma_word_len_at(w, w.len() as int);
    assert(w.take(w.len() as int) =~= w);
    assert(w.skip(w.len() as int) =~= Seq::<char>::empty());
    assert(text::fields(w.skip(w.len() as int)) =~= Seq::<Seq<char>>::empty());
    assert(text::fields(w) =~= seq![w]);
}

pub proof fn lemma_block_round_trip(j: int, id: Seq<u8>)
    requires
        0 <= j < BLOCKS_PER_SLOT,
        id.len() == BLOCK_ID_BYTES,
    ensures
        parse_block_line(block_line(j, id), j) == Some(id),
        text::no_breaks(block_line(j, id)),
{
    reveal_strlit("  b");
    reveal_strlit("=");
    text::lemma_hex_round_trip(id);
    text::lemma_has_prefix_concat(block_prefix(j), text::hex_string(id));
    text::lemma_decimal_token((j + 1) as nat);
    let p = block_prefix(j);
    assert(text::no_breaks(p)) by {
        let d = text::decimal((j + 1) as nat);
        assert forall|k: int| 0 <= k < p.len() implies #[trigger] p[k] != '\n' && p[k] != '\r' by {
            if 3 <= k < 3 + d.len() {
                assert(p[k] == d[k - 3]);
            }
        }
    }
    text::lemma_no_breaks_concat(p, text::hex_string(id));
}

/// Four random block identifiers.
pub fn generate_block_ids(rng: &mut StdRng) -> (ids: [[u8; BLOCK_ID_BYTES]; BLOCKS_PER_SLOT]) {
    let a = rng::random_block_id(rng);
    let b = rng::random_block_id(rng);
    let c = rng::random_block_id(rng);
    let d = rng::random_block_id(rng);
    [a, b, c, d]
}

pub fn push_message(violations: &mut Vec<String>, msg: String)
    ensures
        final(violations).deep_view() == old(violations).deep_view().push(msg@),
{
    violations.push(msg);
    assert(final(violations).deep_view() =~= old(violations).deep_view().push(msg@));
}

// ---------------------------------------------------------------------------
// Complaints about the lines of a scenario
// ---------------------------------------------------------------------------
/// ` in slot <s>`.
pub open spec fn slot_suffix(s: nat) -> Seq<char> {
    " in slot "@ + text::decimal(s)
}

/// Whether block line `j` of the slot from `b` on is there and parses.
pub open spec fn block_ok(ls: Seq<Seq<char>>, b: int, j: int) -> bool {
    b + 1 + j < ls.len() && parse_block_line(ls[b + 1 + j], j) is Some
}

/// The complaint about block line `j` of slot `s`, from `b` on.
pub open spec fn block_error(ls: Seq<Seq<char>>, b: int, j: int, s: nat) -> Seq<char> {
    let pos = b + 1 + j;
    if pos >= ls.len() {
        "missing b"@ + text::decimal((j + 1) as nat) + slot_suffix(s)
    } else if !text::has_prefix(ls[pos], block_prefix(j)) {
        "invalid block line"@ + slot_suffix(s) + ": "@ + text::debug_text(ls[pos])
    } else {
        text::block_id_error(ls[pos].skip(block_prefix(j).len() as int))
    }
}

/// The complaint about the first block line from `j` on that is missing or
/// does not parse, if one is.
pub open spec fn first_block_error(ls: Seq<Seq<char>>, b: int, s: nat, j: nat) -> Option<Seq<char>>
    decreases BLOCKS_PER_SLOT - j,
{
    if j >= BLOCKS_PER_SLOT {
        None
    } else if !block_ok(ls, b, j as int) {
        Some(block_error(ls, b, j as int, s))
    } else {
        first_block_error(ls, b, s, j + 1)
    }
}

/// The complaint about the first line from `k` on that is not blank, if one
/// is not.
pub open spec fn first_trailing_error(ls: Seq<Seq<char>>, k: nat) -> Option<Seq<char>>
    decreases ls.len() - k,
{
    if k >= ls.len() {
        None
    } else if !text::is_blank(ls[k as int]) {
        Some("unexpected trailing line: "@ + text::debug_text(ls[k as int]))
    } else {
        first_trailing_error(ls, k + 1)
    }
}

pub proof fn lemma_first_block_error(ls: Seq<Seq<char>>, b: int, s: nat, j0: nat, j: int)
    requires
        j0 <= j <= BLOCKS_PER_SLOT,
        forall|q: int| j0 <= q < j ==> #[trigger] block_ok(ls, b, q),
    ensures
        j < BLOCKS_PER_SLOT && !block_ok(ls, b, j) ==> first_block_error(ls, b, s, j0) == Some(
            block_error(ls, b, j, s),
        ),
        j == BLOCKS_PER_SLOT ==> first_block_error(ls, b, s, j0) is None,
    decreases j - j0,
{
    if j0 < j {
        assert(block_ok(ls, b, j0 as int));
        lemma_first_block_error(ls, b, s, j0 + 1, j);
    }
}

pub proof fn lemma_first_trailing_error(ls: Seq<Seq<char>>, k0: nat, k: int)
    requires
        k0 <= k <= ls.len(),
        forall|q: int| k0 <= q < k ==> text::is_blank(#[trigger] ls[q]),
    ensures
        k < ls.len() && !text::is_blank(ls[k]) ==> first_trailing_error(ls, k0) == Some(
            "unexpected trailing line: "@ + text::debug_text(ls[k]),
        ),
        k == ls.len() ==> first_trailing_error(ls, k0) is None,
    decreases k - k0,
{
    if k0 < k {
        assert(text::is_blank(ls[k0 as int]));
        lemma_first_trailing_error(ls, k0 + 1, k);
    }
}

// ---------------------------------------------------------------------------
// Violation paths over a run of visits
// ---------------------------------------------------------------------------
/// The number of violations recorded before visit `j`, when visit `i` left
/// `ends[i]` of them.
pub open spec fn visit_start(ends: Seq<nat>, j: int) -> nat {
    if j == 0 {
        0
    } else {
        ends[j - 1]
    }
}

/// The derivation-tree paths that a constraint visitor holds after a run of
/// visits from none: visit `j`, given node index `indices[j]`, leaves
/// `ends[j]` violations, and each violation it adds gets the path
/// `[indices[j]]`.
pub open spec fn visit_paths(ends: Seq<nat>, indices: Seq<usize>) -> Seq<Seq<usize>>
    decreases ends.len(),
{
    if ends.len() == 0 {
        seq![]
    } else {
        visit_paths(ends.drop_last(), indices.drop_last()) + Seq::new(
            (ends.last() - visit_start(ends, ends.len() - 1)) as nat,
            |i: int| seq![indices.last()],
        )
    }
}

/// Visits keep every violation paired with the path of the node that found
/// it: after a run of visits there are as many paths as violations, and the
/// path of each violation is the index given to the visit that recorded it.
pub proof fn lemma_visit_paths(ends: Seq<nat>, indices: Seq<usize>)
    requires
        ends.len() == indices.len(),
        forall|i: int, j: int| 0 <= i <= j < ends.len() ==> ends[i] <= ends[j],
    ensures
        visit_paths(ends, indices).len() == (if ends.len() == 0 {
            0
        } else {
            ends.last()
        }),
        forall|j: int, m: int|
            0 <= j < ends.len() && visit_start(ends, j) <= m < ends[j] ==> #[trigger] visit_paths(
                ends,
                indices,
            )[m] == seq![#[trigger] indices[j]],
    decreases ends.len(),
{
    if ends.len() > 0 {
        let e0 = ends.drop_last();
        let i0 = indices.drop_last();
        let last = ends.len() - 1;
        lemma_visit_paths(e0, i0);
        let prev = visit_paths(e0, i0);
        let start = visit_start(ends, last);
        assert(prev.len() == start) by {
            if last > 0 {
                assert(e0.last() == ends[last - 1]);
            }
        }
        assert(start <= ends[last]) by {
            if last > 0 {
                assert(ends[last - 1] <= ends[last]);
            }
        }
        let tail = Seq::new((ends.last() - start) as nat, |i: int| seq![indices.last()]);
        let ps = visit_paths(ends, indices);
        assert(ps == prev + tail);
        assert forall|j: int, m: int|
            0 <= j < ends.len() && visit_start(ends, j) <= m < ends[j] implies #[trigger] ps[m]
                == seq![#[trigger] indices[j]] by {
            if j < last {
                assert(e0[j] == ends[j] && i0[j] == indices[j]);
                if j > 0 {
                    assert(e0[j - 1] == ends[j - 1]);
                }
                assert(visit_start(e0, j) == visit_start(ends, j));
                assert(ends[j] <= ends[last - 1]);
                assert(m < prev.len());
                assert(prev[m] == seq![i0[j]]);
                assert(ps[m] == prev[m]);
            } else {
                assert(ps[m] == tail[m - prev.len()]);
            }
        }
    }
}

} // verus!
