//! Byte-level scanning shared by the two trace parsers: field and token
//! splitting, whitespace trimming, and decimal and hexadecimal integers with
//! the same acceptance rules as `from_str_radix` (an optional leading plus
//! sign, at least one digit, rejection on overflow).

use vstd::prelude::*;
use vstd::slice::slice_subrange;

verus! {

pub const TAB: u8 = 9;
pub const SPACE: u8 = 32;

/// Whitespace as `trim` sees it, restricted to ASCII.
pub open spec fn is_trim_ws(b: u8) -> bool {
    b == 9 || b == 10 || b == 11 || b == 12 || b == 13 || b == 32
}

/// Whitespace as `split_ascii_whitespace` sees it.
pub open spec fn is_token_ws(b: u8) -> bool {
    b == 9 || b == 10 || b == 12 || b == 13 || b == 32
}

pub open spec fn is_dec_digit(b: u8) -> bool {
    48 <= b <= 57
}

pub open spec fn is_hex_digit(b: u8) -> bool {
    (48 <= b <= 57) || (97 <= b <= 102) || (65 <= b <= 70)
}

pub open spec fn hex_digit_val(b: u8) -> int {
    if 48 <= b <= 57 {
        b - 48
    } else if 97 <= b <= 102 {
        b - 97 + 10
    } else {
        b - 65 + 10
    }
}

pub open spec fn all_dec(s: Seq<u8>) -> bool {
    forall|i: int| 0 <= i < s.len() ==> is_dec_digit(#[trigger] s[i])
}

pub open spec fn all_hex(s: Seq<u8>) -> bool {
    forall|i: int| 0 <= i < s.len() ==> is_hex_digit(#[trigger] s[i])
}

/// Value of a decimal digit string, folded from the left.
pub open spec fn dec_val(s: Seq<u8>) -> int
    decreases s.len(),
{
    if s.len() == 0 {
        0
    } else {
        dec_val(s.drop_last()) * 10 + (s.last() - 48)
    }
}

/// Value of a hexadecimal digit string, folded from the left.
pub open spec fn hex_val(s: Seq<u8>) -> int
    decreases s.len(),
{
    if s.len() == 0 {
        0
    } else {
        hex_val(s.drop_last()) * 16 + hex_digit_val(s.last())
    }
}

/// The digit string with an optional leading plus sign removed.
pub open spec fn strip_plus(s: Seq<u8>) -> Seq<u8> {
    if s.len() > 0 && s[0] == 43 {
        s.drop_first()
    } else {
        s
    }
}

/// What `u64::from_str_radix(s, 10)` (and friends) accepts below `bound`.
pub open spec fn spec_parse_dec(s: Seq<u8>, bound: int) -> Option<int> {
    let body = strip_plus(s);
    if body.len() > 0 && all_dec(body) && dec_val(body) < bound {
        Some(dec_val(body))
    } else {
        None
    }
}

/// What `from_str_radix(s, 16)` accepts below `bound`.
pub open spec fn spec_parse_hex(s: Seq<u8>, bound: int) -> Option<int> {
    let body = strip_plus(s);
    if body.len() > 0 && all_hex(body) && hex_val(body) < bound {
        Some(hex_val(body))
    } else {
        None
    }
}

/// Leading and trailing trim-whitespace removed.
pub open spec fn spec_trim_start(s: Seq<u8>) -> Seq<u8>
    decreases s.len(),
{
    if s.len() > 0 && is_trim_ws(s[0]) {
        spec_trim_start(s.drop_first())
    } else {
        s
    }
}

pub open spec fn spec_trim_end(s: Seq<u8>) -> Seq<u8>
    decreases s.len(),
{
    if s.len() > 0 && is_trim_ws(s.last()) {
        spec_trim_end(s.drop_last())
    } else {
        s
    }
}

pub open spec fn spec_trim(s: Seq<u8>) -> Seq<u8> {
    spec_trim_end(spec_trim_start(s))
}

/// The smallest index holding `sep`, or the length.
pub open spec fn first_sep(s: Seq<u8>, sep: u8) -> int
    decreases s.len(),
{
    if s.len() == 0 {
        0
    } else if s[0] == sep {
        0
    } else {
        1 + first_sep(s.drop_first(), sep)
    }
}

/// The smallest index holding token whitespace, or the length.
pub open spec fn first_ws(s: Seq<u8>) -> int
    decreases s.len(),
{
    if s.len() == 0 {
        0
    } else if is_token_ws(s[0]) {
        0
    } else {
        1 + first_ws(s.drop_first())
    }
}

/// Split on a separator byte; `n` separators give `n + 1` parts.
pub open spec fn spec_split(s: Seq<u8>, sep: u8) -> Seq<Seq<u8>>
    decreases s.len(),
    via spec_split_dec
{
    let i = first_sep(s, sep);
    if i == s.len() {
        seq![s]
    } else {
        seq![s.take(i)] + spec_split(s.skip(i + 1), sep)
    }
}

#[via_fn]
proof fn spec_split_dec(s: Seq<u8>, sep: u8) {
    lemma_first_sep_bounds(s, sep);
}

/// Split on runs of token whitespace, dropping empty tokens.
pub open spec fn spec_tokens(s: Seq<u8>) -> Seq<Seq<u8>>
    decreases s.len(),
    via spec_tokens_dec
{
    if s.len() == 0 {
        Seq::empty()
    } else if is_token_ws(s[0]) {
        spec_tokens(s.drop_first())
    } else {
        let i = first_ws(s);
        seq![s.take(i)] + spec_tokens(s.skip(i))
    }
}

#[via_fn]
proof fn spec_tokens_dec(s: Seq<u8>) {
    if s.len() > 0 && !is_token_ws(s[0]) {
        lemma_first_ws_bounds(s);
        assert(first_ws(s) >= 1);
    }
}

pub proof fn lemma_first_sep_bounds(s: Seq<u8>, sep: u8)
    ensures
        0 <= first_sep(s, sep) <= s.len(),
        first_sep(s, sep) < s.len() ==> s[first_sep(s, sep)] == sep,
        forall|k: int| 0 <= k < first_sep(s, sep) ==> s[k] != sep,
    decreases s.len(),
{
    if s.len() > 0 && s[0] != sep {
        lemma_first_sep_bounds(s.drop_first(), sep);
        assert forall|k: int| 0 <= k < first_sep(s, sep) implies s[k] != sep by {
            if k > 0 {
                assert(s.drop_first()[k - 1] == s[k]);
            }
        }
        if first_sep(s, sep) < s.len() {
            assert(s.drop_first()[first_sep(s.drop_first(), sep)] == s[first_sep(s, sep)]);
        }
    }
}

pub proof fn lemma_first_ws_bounds(s: Seq<u8>)
    ensures
        0 <= first_ws(s) <= s.len(),
        first_ws(s) < s.len() ==> is_token_ws(s[first_ws(s)]),
        forall|k: int| 0 <= k < first_ws(s) ==> !is_token_ws(s[k]),
    decreases s.len(),
{
    if s.len() > 0 && !is_token_ws(s[0]) {
        lemma_first_ws_bounds(s.drop_first());
        assert forall|k: int| 0 <= k < first_ws(s) implies !is_token_ws(s[k]) by {
            if k > 0 {
                assert(s.drop_first()[k - 1] == s[k]);
            }
        }
        if first_ws(s) < s.len() {
            assert(s.drop_first()[first_ws(s.drop_first())] == s[first_ws(s)]);
        }
    }
}

/// A prefix free of the separator, followed by the separator or the end,
/// pins `first_sep` down.
pub proof fn lemma_first_sep_is(s: Seq<u8>, sep: u8, j: int)
    requires
        0 <= j <= s.len(),
        forall|k: int| 0 <= k < j ==> s[k] != sep,
        j < s.len() ==> s[j] == sep,
    ensures
        first_sep(s, sep) == j,
{
    lemma_first_sep_bounds(s, sep);
    let f = first_sep(s, sep);
    if f < j {
        assert(s[f] != sep);
        assert(false);
    }
    if j < f {
        assert(s[j] != sep);
        assert(false);
    }
}

pub proof fn lemma_first_ws_is(s: Seq<u8>, j: int)
    requires
        0 <= j <= s.len(),
        forall|k: int| 0 <= k < j ==> !is_token_ws(s[k]),
        j < s.len() ==> is_token_ws(s[j]),
    ensures
        first_ws(s) == j,
{
    lemma_first_ws_bounds(s);
    let f = first_ws(s);
    if f < j {
        assert(!is_token_ws(s[f]));
        assert(false);
    }
    if j < f {
        assert(!is_token_ws(s[j]));
        assert(false);
    }
}

/// Token whitespace, as a runtime test.
pub fn is_token_ws_byte(c: u8) -> (r: bool)
    ensures
        r == is_token_ws(c),
{
    c == 9 || c == 10 || c == 12 || c == 13 || c == 32
}

/// Trim whitespace, as a runtime test.
pub fn is_trim_ws_byte(c: u8) -> (r: bool)
    ensures
        r == is_trim_ws(c),
{
    c == 9 || c == 10 || c == 11 || c == 12 || c == 13 || c == 32
}

/// Find the first occurrence of `sep` at or after `from`.
#[verifier::loop_isolation(false)]
pub fn find_sep(s: &[u8], from: usize, sep: u8) -> (r: usize)
    requires
        from <= s@.len(),
    ensures
        from <= r <= s@.len(),
        r - from == first_sep(s@.skip(from as int), sep),
{
    let mut i = from;
    while i < s.len()
        invariant
            from <= i <= s@.len(),
            forall|k: int| from <= k < i ==> s@[k] != sep,
        decreases s@.len() - i,
    {
        if s[i] == sep {
            proof {
                assert forall|k: int| 0 <= k < i - from implies s@.skip(from as int)[k] != sep by {
                    assert(s@.skip(from as int)[k] == s@[from + k]);
                }
                assert(s@.skip(from as int)[i - from] == s@[i as int]);
                lemma_first_sep_is(s@.skip(from as int), sep, i - from);
            }
            return i;
        }
        i += 1;
    }
    proof {
        assert forall|k: int| 0 <= k < s@.len() - from implies s@.skip(from as int)[k] != sep by {
            assert(s@.skip(from as int)[k] == s@[from + k]);
        }
        lemma_first_sep_is(s@.skip(from as int), sep, s@.len() - from);
    }
    s.len()
}

/// Split a byte string on a separator.
#[verifier::loop_isolation(false)]
pub fn split_bytes(s: &[u8], sep: u8) -> (r: Vec<Vec<u8>>)
    ensures
        r@.map_values(|v: Vec<u8>| v@) == spec_split(s@, sep),
{
    let mut out: Vec<Vec<u8>> = Vec::new();
    let mut pos: usize = 0;
    proof {
        assert(s@.skip(0) =~= s@);
        assert(out@.map_values(|v: Vec<u8>| v@) =~~= Seq::<Seq<u8>>::empty());
        assert(Seq::<Seq<u8>>::empty() + spec_split(s@, sep) =~~= spec_split(s@, sep));
    }
    loop
        invariant
            pos <= s@.len(),
            spec_split(s@, sep) == out@.map_values(|v: Vec<u8>| v@) + spec_split(
                s@.skip(pos as int),
                sep,
            ),
        decreases s@.len() - pos + 1,
    {
        let j = find_sep(s, pos, sep);
        let ghost rest = s@.skip(pos as int);
        let ghost fs = first_sep(rest, sep);
        let part = slice_subrange(s, pos, j);
        proof {
            assert(part@ =~= rest.take(fs));
        }
        let mut pv: Vec<u8> = Vec::new();
        pv.extend_from_slice(part);
        proof {
            assert(pv@ =~= part@);
        }
        if j == s.len() {
            out.push(pv);
            proof {
                assert(fs == rest.len());
                assert(spec_split(rest, sep) =~= seq![rest]);
                assert(rest.take(fs) =~= rest);
                assert(out@.map_values(|v: Vec<u8>| v@) =~~= spec_split(s@, sep));
            }
            return out;
        }
        out.push(pv);
        let newpos = j + 1;
        proof {
            assert(fs < rest.len());
            assert(spec_split(rest, sep) == seq![rest.take(fs)] + spec_split(
                rest.skip(fs + 1),
                sep,
            ));
            assert(s@.skip(newpos as int) =~= rest.skip(fs + 1));
            assert(out@.map_values(|v: Vec<u8>| v@) + spec_split(s@.skip(newpos as int), sep)
                =~~= spec_split(s@, sep));
        }
        pos = newpos;
    }
}

/// Split a byte string into whitespace-separated tokens.
#[verifier::loop_isolation(false)]
pub fn tokenize(s: &[u8]) -> (r: Vec<Vec<u8>>)
    ensures
        r@.map_values(|v: Vec<u8>| v@) == spec_tokens(s@),
{
    let mut out: Vec<Vec<u8>> = Vec::new();
    let mut pos: usize = 0;
    proof {
        assert(s@.skip(0) =~= s@);
        assert(out@.map_values(|v: Vec<u8>| v@) + spec_tokens(s@) =~~= spec_tokens(s@));
    }
    while pos < s.len()
        invariant
            pos <= s@.len(),
            spec_tokens(s@) == out@.map_values(|v: Vec<u8>| v@) + spec_tokens(s@.skip(pos as int)),
        decreases s@.len() - pos,
    {
        let b = s[pos];
        let ghost rest = s@.skip(pos as int);
        if is_token_ws_byte(b) {
            proof {
                assert(rest[0] == b);
                assert(rest.drop_first() =~= s@.skip(pos + 1));
                assert(spec_tokens(rest) == spec_tokens(s@.skip(pos + 1)));
            }
            pos += 1;
        } else {
            // scan to the end of the token
            let mut j = pos;
            let mut scanning = true;
            while scanning
                invariant
                    pos <= j <= s@.len(),
                    forall|k: int| pos <= k < j ==> !is_token_ws(s@[k]),
                    scanning ==> j <= s@.len(),
                    !scanning ==> (j == s@.len() || is_token_ws(s@[j as int])),
                decreases s@.len() - j + (if scanning { 1int } else { 0int }),
            {
                if j < s.len() {
                    if is_token_ws_byte(s[j]) {
                        scanning = false;
                    } else {
                        j += 1;
                    }
                } else {
                    scanning = false;
                }
            }
            proof {
                assert forall|k: int| 0 <= k < j - pos implies !is_token_ws(rest[k]) by {
                    assert(rest[k] == s@[pos + k]);
                }
                if j < s@.len() {
                    assert(rest[j - pos] == s@[j as int]);
                }
                lemma_first_ws_is(rest, j - pos);
            }
            let part = slice_subrange(s, pos, j);
            let mut pv: Vec<u8> = Vec::new();
            pv.extend_from_slice(part);
            let ghost fw = first_ws(rest);
            proof {
                assert(pv@ =~= rest.take(fw));
            }
            out.push(pv);
            proof {
                assert(!is_token_ws(rest[0]));
                assert(spec_tokens(rest) == seq![rest.take(fw)] + spec_tokens(rest.skip(fw)));
                assert(s@.skip(j as int) =~= rest.skip(fw));
                assert(out@.map_values(|v: Vec<u8>| v@) + spec_tokens(s@.skip(j as int))
                    =~~= spec_tokens(s@));
            }
            pos = j;
        }
    }
    proof {
        assert(s@.skip(pos as int) =~= Seq::<u8>::empty());
        assert(spec_tokens(Seq::<u8>::empty()) =~~= Seq::<Seq<u8>>::empty());
        assert(out@.map_values(|v: Vec<u8>| v@) =~~= spec_tokens(s@));
    }
    out
}

/// Trim ASCII whitespace from both ends.
#[verifier::loop_isolation(false)]
pub fn trim_bytes(s: &[u8]) -> (r: &[u8])
    ensures
        r@ == spec_trim(s@),
{
    let mut a: usize = 0;
    proof {
        assert(s@.skip(0) =~= s@);
    }
    let mut scanning = true;
    while scanning
        invariant
            a <= s@.len(),
            spec_trim_start(s@) == spec_trim_start(s@.skip(a as int)),
            forall|k: int| 0 <= k < a ==> is_trim_ws(s@[k]),
            !scanning ==> (a == s@.len() || !is_trim_ws(s@[a as int])),
        decreases s@.len() - a + (if scanning { 1int } else { 0int }),
    {
        if a < s.len() {
            if is_trim_ws_byte(s[a]) {
                proof {
                    let rest = s@.skip(a as int);
                    assert(rest[0] == s@[a as int]);
                    assert(rest.drop_first() =~= s@.skip(a + 1));
                }
                a += 1;
            } else {
                scanning = false;
            }
        } else {
            scanning = false;
        }
    }
    let ghost mid = s@.skip(a as int);
    proof {
        if a < s@.len() {
            assert(mid[0] == s@[a as int]);
        }
        assert(spec_trim_start(s@) == mid);
    }
    let mut b: usize = s.len();
    let mut trimming = true;
    while trimming
        invariant
            a <= b <= s@.len(),
            spec_trim_end(mid) == spec_trim_end(s@.subrange(a as int, b as int)),
            !trimming ==> (b == a || !is_trim_ws(s@[b - 1])),
        decreases b + (if trimming { 1int } else { 0int }),
    {
        if b > a {
            if is_trim_ws_byte(s[b - 1]) {
                proof {
                    let cur = s@.subrange(a as int, b as int);
                    assert(cur.last() == s@[b - 1]);
                    assert(cur.drop_last() =~= s@.subrange(a as int, b - 1));
                }
                b -= 1;
            } else {
                trimming = false;
            }
        } else {
            trimming = false;
        }
    }
    let r = slice_subrange(s, a, b);
    proof {
        let cur = s@.subrange(a as int, b as int);
        if b > a {
            assert(cur.last() == s@[b - 1]);
        }
        assert(spec_trim_end(cur) == cur);
        assert(r@ =~= cur);
    }
    r
}

/// Parse a hexadecimal integer with an optional leading plus sign; reject
/// on any non-digit and on values at or above `2^128`.
#[verifier::loop_isolation(false)]
pub fn parse_hex_u128(s: &[u8]) -> (r: Option<u128>)
    ensures
        r matches Some(v) ==> spec_parse_hex(s@, 0x1_0000_0000_0000_0000_0000_0000_0000_0000int)
            == Some(v as int),
        r is None ==> spec_parse_hex(s@, 0x1_0000_0000_0000_0000_0000_0000_0000_0000int) is None,
{
    let start: usize = if s.len() > 0 && s[0] == 43 {
        1
    } else {
        0
    };
    let ghost body = strip_plus(s@);
    proof {
        assert(body =~= s@.skip(start as int));
    }
    if s.len() == start {
        return None;
    }
    let mut acc: u128 = 0;
    let mut over: bool = false;
    let mut i: usize = start;
    while i < s.len()
        invariant
            start <= i <= s@.len(),
            body == s@.skip(start as int),
            all_hex(body.take(i - start)),
            !over ==> acc as int == hex_val(body.take(i - start)),
            over ==> hex_val(body.take(i - start))
                >= 0x1_0000_0000_0000_0000_0000_0000_0000_0000int,
        decreases s@.len() - i,
    {
        let c = s[i];
        let d: u128 = if 48 <= c && c <= 57 {
            (c - 48) as u128
        } else if 97 <= c && c <= 102 {
            (c - 97) as u128 + 10
        } else if 65 <= c && c <= 70 {
            (c - 65) as u128 + 10
        } else {
            proof {
                assert(body[i - start] == s@[i as int]);
                assert(!is_hex_digit(body[i - start]));
            }
            return None;
        };
        let ghost pre = body.take(i - start);
        proof {
            assert(body[i - start] == s@[i as int]);
            assert(body.take(i + 1 - start).drop_last() =~= pre);
            assert(body.take(i + 1 - start).last() == s@[i as int]);
            lemma_hex_val_nonneg(pre);
        }
        if !over {
            if acc <= (u128::MAX - d) / 16 {
                acc = acc * 16 + d;
            } else {
                over = true;
                proof {
                    assert(hex_val(body.take(i + 1 - start)) == hex_val(pre) * 16 + hex_digit_val(
                        s@[i as int],
                    ));
                }
            }
        } else {
            proof {
                let full: int = 0x1_0000_0000_0000_0000_0000_0000_0000_0000int;
                assert(hex_val(pre) >= full);
                assert(hex_val(pre) * 16 >= full) by (nonlinear_arith)
                    requires
                        hex_val(pre) >= full > 0,
                ;
            }
        }
        proof {
            assert forall|k: int| 0 <= k < i + 1 - start implies is_hex_digit(
                #[trigger] body.take(i + 1 - start)[k],
            ) by {
                if k < i - start {
                    assert(body.take(i + 1 - start)[k] == pre[k]);
                }
            }
        }
        i += 1;
    }
    proof {
        assert(body.take(s@.len() - start) =~= body);
    }
    if over {
        None
    } else {
        Some(acc)
    }
}

pub proof fn lemma_hex_val_nonneg(s: Seq<u8>)
    requires
        all_hex(s),
    ensures
        hex_val(s) >= 0,
    decreases s.len(),
{
    if s.len() > 0 {
        assert(all_hex(s.drop_last())) by {
            assert forall|k: int| 0 <= k < s.len() - 1 implies is_hex_digit(
                #[trigger] s.drop_last()[k],
            ) by {
                assert(s.drop_last()[k] == s[k]);
            }
        }
        assert(is_hex_digit(s.last()));
        lemma_hex_val_nonneg(s.drop_last());
    }
}

pub proof fn lemma_dec_val_nonneg(s: Seq<u8>)
    requires
        all_dec(s),
    ensures
        dec_val(s) >= 0,
    decreases s.len(),
{
    if s.len() > 0 {
        assert(all_dec(s.drop_last())) by {
            assert forall|k: int| 0 <= k < s.len() - 1 implies is_dec_digit(
                #[trigger] s.drop_last()[k],
            ) by {
                assert(s.drop_last()[k] == s[k]);
            }
        }
        lemma_dec_val_nonneg(s.drop_last());
    }
}

/// Parse a decimal integer below `2^64`.
#[verifier::loop_isolation(false)]
pub fn parse_dec_u64(s: &[u8]) -> (r: Option<u64>)
    ensures
        r matches Some(v) ==> spec_parse_dec(s@, 0x1_0000_0000_0000_0000) == Some(v as int),
        r is None ==> spec_parse_dec(s@, 0x1_0000_0000_0000_0000) is None,
{
    let start: usize = if s.len() > 0 && s[0] == 43 {
        1
    } else {
        0
    };
    let ghost body = strip_plus(s@);
    proof {
        assert(body =~= s@.skip(start as int));
    }
    if s.len() == start {
        return None;
    }
    let mut acc: u64 = 0;
    let mut over: bool = false;
    let mut i: usize = start;
    while i < s.len()
        invariant
            start <= i <= s@.len(),
            body == s@.skip(start as int),
            all_dec(body.take(i - start)),
            !over ==> acc as int == dec_val(body.take(i - start)),
            over ==> dec_val(body.take(i - start)) >= 0x1_0000_0000_0000_0000,
        decreases s@.len() - i,
    {
        let c = s[i];
        if !(48 <= c && c <= 57) {
            proof {
                assert(body[i - start] == s@[i as int]);
                assert(!is_dec_digit(body[i - start]));
            }
            return None;
        }
        let d: u64 = (c - 48) as u64;
        let ghost pre = body.take(i - start);
        proof {
            assert(body[i - start] == s@[i as int]);
            assert(body.take(i + 1 - start).drop_last() =~= pre);
            assert(body.take(i + 1 - start).last() == s@[i as int]);
            assert(all_dec(pre));
            lemma_dec_val_nonneg(pre);
        }
        if !over {
            if acc <= (u64::MAX - d) / 10 {
                acc = acc * 10 + d;
            } else {
                over = true;
                proof {
                    assert(dec_val(body.take(i + 1 - start)) == dec_val(pre) * 10 + (s@[i as int]
                        - 48));
                }
            }
        } else {
            proof {
                let full: int = 0x1_0000_0000_0000_0000;
                assert(dec_val(pre) >= full);
                assert(dec_val(pre) * 10 >= full) by (nonlinear_arith)
                    requires
                        dec_val(pre) >= full > 0,
                ;
            }
        }
        proof {
            assert forall|k: int| 0 <= k < i + 1 - start implies is_dec_digit(
                #[trigger] body.take(i + 1 - start)[k],
            ) by {
                if k < i - start {
                    assert(body.take(i + 1 - start)[k] == pre[k]);
                }
            }
        }
        i += 1;
    }
    proof {
        assert(body.take(s@.len() - start) =~= body);
    }
    if over {
        None
    } else {
        Some(acc)
    }
}

/// Parse a hexadecimal integer that must fit the given register width.
pub fn parse_hex_width(s: &[u8], bound128: u128) -> (r: Option<u128>)
    requires
        bound128 > 0,
    ensures
        r matches Some(v) ==> spec_parse_hex(s@, bound128 as int) == Some(v as int),
        r is None ==> spec_parse_hex(s@, bound128 as int) is None,
{
    match parse_hex_u128(s) {
        Some(v) => if v < bound128 {
            Some(v)
        } else {
            proof {
                lemma_hex_val_nonneg(strip_plus(s@));
            }
            None
        },
        None => {
            proof {
                if strip_plus(s@).len() > 0 && all_hex(strip_plus(s@)) {
                    lemma_hex_val_nonneg(strip_plus(s@));
                }
            }
            None
        },
    }
}


/// A line's trailing carriage return, stripped when the line was terminated
/// by a newline.
pub open spec fn strip_cr(s: Seq<u8>) -> Seq<u8> {
    if s.len() > 0 && s.last() == 13 {
        s.drop_last()
    } else {
        s
    }
}

/// The lines of a text: split on newline; a final empty segment (the text
/// ended with a newline, or was empty) yields no line; every
/// newline-terminated line loses a trailing carriage return.
pub open spec fn spec_lines(data: Seq<u8>) -> Seq<Seq<u8>> {
    let raw = spec_split(data, 10);
    if raw.last().len() == 0 {
        raw.drop_last().map_values(|l: Seq<u8>| strip_cr(l))
    } else {
        raw.drop_last().map_values(|l: Seq<u8>| strip_cr(l)).push(raw.last())
    }
}

/// Split text into lines.
#[verifier::loop_isolation(false)]
pub fn split_lines(data: &[u8]) -> (r: Vec<Vec<u8>>)
    ensures
        r@.map_values(|v: Vec<u8>| v@) == spec_lines(data@),
{
    let raw = split_bytes(data, 10);
    let ghost sraw = spec_split(data@, 10);
    let mut out: Vec<Vec<u8>> = Vec::new();
    let n = raw.len();
    proof {
        assert(sraw.len() == raw@.len());
        assert(sraw.len() > 0) by {
            lemma_split_nonempty(data@, 10);
        }
    }
    proof {
        assert(out@.map_values(|v: Vec<u8>| v@) =~~= sraw.drop_last().map_values(
            |l: Seq<u8>| strip_cr(l),
        ).take(0));
    }
    let mut i: usize = 0;
    while i < n - 1
        invariant
            n == raw@.len(),
            n == sraw.len(),
            n >= 1,
            i <= n - 1,
            sraw == raw@.map_values(|v: Vec<u8>| v@),
            out@.map_values(|v: Vec<u8>| v@) == sraw.drop_last().map_values(
                |l: Seq<u8>| strip_cr(l),
            ).take(i as int),
        decreases n - i,
    {
        let line = &raw[i];
        let mut lv: Vec<u8> = Vec::new();
        if line.len() > 0 && line[line.len() - 1] == 13 {
            lv.extend_from_slice(slice_subrange(line.as_slice(), 0, line.len() - 1));
        } else {
            lv.extend_from_slice(line.as_slice());
        }
        proof {
            assert(sraw[i as int] == raw@.map_values(|v: Vec<u8>| v@)[i as int]);
            assert(lv@ =~= strip_cr(sraw[i as int]));
            assert(sraw.drop_last()[i as int] == sraw[i as int]);
        }
        out.push(lv);
        proof {
            assert(out@.map_values(|v: Vec<u8>| v@) =~~= sraw.drop_last().map_values(
                |l: Seq<u8>| strip_cr(l),
            ).take(i + 1));
        }
        i += 1;
    }
    let last = &raw[n - 1];
    proof {
        assert(sraw[n - 1] == raw@.map_values(|v: Vec<u8>| v@)[n - 1]);
        assert(out@.map_values(|v: Vec<u8>| v@) =~~= sraw.drop_last().map_values(
            |l: Seq<u8>| strip_cr(l),
        ));
    }
    if last.len() > 0 {
        let mut lv: Vec<u8> = Vec::new();
        lv.extend_from_slice(last.as_slice());
        proof {
            assert(lv@ =~= sraw.last());
        }
        out.push(lv);
        proof {
            assert(out@.map_values(|v: Vec<u8>| v@) =~~= spec_lines(data@));
        }
    } else {
        proof {
            assert(out@.map_values(|v: Vec<u8>| v@) =~~= spec_lines(data@));
        }
    }
    out
}

/// A split always yields at least one part.
pub proof fn lemma_split_nonempty(s: Seq<u8>, sep: u8)
    ensures
        spec_split(s, sep).len() >= 1,
    decreases s.len(),
{
    lemma_first_sep_bounds(s, sep);
}


/// Canonical decimal digits of a non-negative value.
pub open spec fn dec_str(n: int) -> Seq<u8>
    decreases n,
    via dec_str_dec
{
    if n < 10 {
        seq![(48 + if n >= 0 {
            n
        } else {
            0
        }) as u8]
    } else {
        dec_str(n / 10).push((48 + n % 10) as u8)
    }
}

#[via_fn]
proof fn dec_str_dec(n: int) {
    if n >= 10 {
        assert(0 <= n / 10 < n) by (nonlinear_arith)
            requires
                n >= 10,
        ;
    }
}

/// Canonical lowercase hexadecimal digits of a non-negative value.
pub open spec fn hex_digit_char(d: int) -> u8 {
    if d < 10 {
        (48 + d) as u8
    } else {
        (97 + (d - 10)) as u8
    }
}

pub open spec fn hex_str(n: int) -> Seq<u8>
    decreases n,
    via hex_str_dec
{
    if n < 16 {
        seq![hex_digit_char(
            if n >= 0 {
                n
            } else {
                0
            },
        )]
    } else {
        hex_str(n / 16).push(hex_digit_char(n % 16))
    }
}

#[via_fn]
proof fn hex_str_dec(n: int) {
    if n >= 16 {
        assert(0 <= n / 16 < n) by (nonlinear_arith)
            requires
                n >= 16,
        ;
    }
}

/// Decimal printing produces decimal digits, never empty.
pub proof fn lemma_dec_str_digits(n: int)
    requires
        0 <= n,
    ensures
        dec_str(n).len() >= 1,
        all_dec(dec_str(n)),
    decreases n,
{
    if n < 10 {
        assert(is_dec_digit(dec_str(n)[0]));
    } else {
        assert(0 <= n / 10 < n && 0 <= n % 10 < 10) by (nonlinear_arith)
            requires
                n >= 10,
        ;
        lemma_dec_str_digits(n / 10);
        assert forall|i: int| 0 <= i < dec_str(n).len() implies is_dec_digit(
            #[trigger] dec_str(n)[i],
        ) by {
            if i < dec_str(n / 10).len() {
                assert(dec_str(n)[i] == dec_str(n / 10)[i]);
            }
        }
    }
}

/// Hexadecimal printing produces hexadecimal digits, never empty.
pub proof fn lemma_hex_str_digits(n: int)
    requires
        0 <= n,
    ensures
        hex_str(n).len() >= 1,
        all_hex(hex_str(n)),
    decreases n,
{
    if n < 16 {
        assert(is_hex_digit(hex_str(n)[0]));
    } else {
        assert(0 <= n / 16 < n && 0 <= n % 16 < 16) by (nonlinear_arith)
            requires
                n >= 16,
        ;
        lemma_hex_str_digits(n / 16);
        assert(is_hex_digit(hex_digit_char(n % 16)));
        assert forall|i: int| 0 <= i < hex_str(n).len() implies is_hex_digit(
            #[trigger] hex_str(n)[i],
        ) by {
            if i < hex_str(n / 16).len() {
                assert(hex_str(n)[i] == hex_str(n / 16)[i]);
            }
        }
    }
}

/// Parsing printed decimal digits gives the value back.
pub proof fn lemma_dec_val_str(n: int)
    requires
        0 <= n,
    ensures
        dec_val(dec_str(n)) == n,
    decreases n,
{
    if n < 10 {
        let s = dec_str(n);
        assert(s.drop_last() =~= Seq::<u8>::empty());
        assert(dec_val(Seq::<u8>::empty()) == 0);
        assert(dec_val(s) == (48 + n) - 48);
    } else {
        assert(0 <= n / 10 < n && 0 <= n % 10 < 10) by (nonlinear_arith)
            requires
                n >= 10,
        ;
        lemma_dec_val_str(n / 10);
        let s = dec_str(n);
        assert(s.drop_last() =~= dec_str(n / 10));
        assert(s.last() == (48 + n % 10) as u8);
        vstd::arithmetic::div_mod::lemma_fundamental_div_mod(n, 10);
    }
}

/// Parsing printed hexadecimal digits gives the value back.
pub proof fn lemma_hex_val_str(n: int)
    requires
        0 <= n,
    ensures
        hex_val(hex_str(n)) == n,
    decreases n,
{
    if n < 16 {
        let s = hex_str(n);
        assert(s.drop_last() =~= Seq::<u8>::empty());
        assert(hex_val(Seq::<u8>::empty()) == 0);
        assert(hex_digit_val(hex_digit_char(n)) == n);
    } else {
        assert(0 <= n / 16 < n && 0 <= n % 16 < 16) by (nonlinear_arith)
            requires
                n >= 16,
        ;
        lemma_hex_val_str(n / 16);
        let s = hex_str(n);
        assert(s.drop_last() =~= hex_str(n / 16));
        assert(s.last() == hex_digit_char(n % 16));
        assert(hex_digit_val(hex_digit_char(n % 16)) == n % 16);
        vstd::arithmetic::div_mod::lemma_fundamental_div_mod(n, 16);
    }
}

/// Trimming a string with no whitespace leaves it alone.
pub proof fn lemma_trim_id(s: Seq<u8>)
    requires
        forall|i: int| 0 <= i < s.len() ==> !is_trim_ws(#[trigger] s[i]),
    ensures
        spec_trim(s) == s,
{
    if s.len() > 0 {
        assert(!is_trim_ws(s[0]));
        assert(!is_trim_ws(s.last()));
    }
}

/// No byte of the string is the separator.
pub open spec fn sep_free(s: Seq<u8>, sep: u8) -> bool {
    forall|i: int| 0 <= i < s.len() ==> s[i] != sep
}

/// No byte of the string is token whitespace.
pub open spec fn ws_free(s: Seq<u8>) -> bool {
    forall|i: int| 0 <= i < s.len() ==> !is_token_ws(#[trigger] s[i])
}

/// Parts joined by a separator.
pub open spec fn spec_join(parts: Seq<Seq<u8>>, sep: u8) -> Seq<u8>
    decreases parts.len(),
{
    if parts.len() == 0 {
        Seq::empty()
    } else if parts.len() == 1 {
        parts[0]
    } else {
        parts[0] + seq![sep] + spec_join(parts.drop_first(), sep)
    }
}

/// Splitting a join of separator-free parts gives the parts back.
pub proof fn lemma_split_join(parts: Seq<Seq<u8>>, sep: u8)
    requires
        parts.len() >= 1,
        forall|i: int| 0 <= i < parts.len() ==> sep_free(#[trigger] parts[i], sep),
    ensures
        spec_split(spec_join(parts, sep), sep) == parts,
    decreases parts.len(),
{
    let s = spec_join(parts, sep);
    if parts.len() == 1 {
        assert(sep_free(parts[0], sep));
        lemma_first_sep_is(s, sep, s.len() as int);
        assert(spec_split(s, sep) =~~= parts);
    } else {
        let p0 = parts[0];
        let rest = spec_join(parts.drop_first(), sep);
        assert(s =~= p0 + seq![sep] + rest);
        assert forall|k: int| 0 <= k < p0.len() implies s[k] != sep by {
            assert(s[k] == p0[k]);
        }
        assert(s[p0.len() as int] == sep);
        lemma_first_sep_is(s, sep, p0.len() as int);
        assert(s.take(p0.len() as int) =~= p0);
        assert(s.skip(p0.len() as int + 1) =~= rest);
        lemma_split_join(parts.drop_first(), sep);
        assert(spec_split(s, sep) =~~= seq![p0] + spec_split(rest, sep));
        assert(seq![p0] + parts.drop_first() =~~= parts);
    }
}

/// Tokenizing a space-join of nonempty whitespace-free tokens gives the
/// tokens back.
pub proof fn lemma_tokens_join(tokens: Seq<Seq<u8>>)
    requires
        forall|i: int|
            0 <= i < tokens.len() ==> (#[trigger] tokens[i]).len() > 0 && ws_free(tokens[i]),
    ensures
        spec_tokens(spec_join(tokens, SPACE)) == tokens,
    decreases tokens.len(),
{
    let s = spec_join(tokens, SPACE);
    if tokens.len() == 0 {
        assert(spec_tokens(s) =~~= tokens);
    } else if tokens.len() == 1 {
        let t0 = tokens[0];
        assert(ws_free(t0));
        assert(!is_token_ws(s[0]));
        lemma_first_ws_is(s, s.len() as int);
        assert(s.take(s.len() as int) =~= t0);
        assert(s.skip(s.len() as int) =~= Seq::<u8>::empty());
        assert(spec_tokens(Seq::<u8>::empty()) =~~= Seq::<Seq<u8>>::empty());
        assert(spec_tokens(s) =~~= tokens);
    } else {
        let t0 = tokens[0];
        let rest = spec_join(tokens.drop_first(), SPACE);
        assert(s =~= t0 + seq![SPACE] + rest);
        assert forall|k: int| 0 <= k < t0.len() implies !is_token_ws(s[k]) by {
            assert(s[k] == t0[k]);
        }
        assert(is_token_ws(s[t0.len() as int]));
        assert(!is_token_ws(s[0]));
        lemma_first_ws_is(s, t0.len() as int);
        assert(s.take(t0.len() as int) =~= t0);
        let mid = s.skip(t0.len() as int);
        assert(mid[0] == SPACE);
        assert(mid.drop_first() =~= rest);
        lemma_tokens_join(tokens.drop_first());
        assert(spec_tokens(mid) =~~= spec_tokens(rest));
        assert(spec_tokens(s) =~~= seq![t0] + spec_tokens(rest));
        assert(seq![t0] + tokens.drop_first() =~~= tokens);
    }
}

/// A join of separator-free parts with a different joiner stays
/// separator-free.
pub proof fn lemma_join_sep_free(parts: Seq<Seq<u8>>, joiner: u8, sep: u8)
    requires
        joiner != sep,
        forall|i: int| 0 <= i < parts.len() ==> sep_free(#[trigger] parts[i], sep),
    ensures
        sep_free(spec_join(parts, joiner), sep),
    decreases parts.len(),
{
    if parts.len() > 1 {
        lemma_join_sep_free(parts.drop_first(), joiner, sep);
        let s = spec_join(parts, joiner);
        let rest = spec_join(parts.drop_first(), joiner);
        assert forall|i: int| 0 <= i < s.len() implies s[i] != sep by {
            if i < parts[0].len() {
                assert(s[i] == parts[0][i]);
            } else if i == parts[0].len() {
                assert(s[i] == joiner);
            } else {
                assert(s[i] == rest[i - parts[0].len() - 1]);
            }
        }
    }
}

} // verus!
