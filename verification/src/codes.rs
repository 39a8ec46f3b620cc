//! The code parser: turns textual filter codes ("0x65" or "101",
//! comma-separated, whitespace-trimmed) into 32-bit tag values.
//!
//! Contracts are stated over the UTF-8 bytes of the input; a token is
//! valid exactly when its trimmed bytes are a non-empty run of digits
//! of the token's base whose value fits in 32 bits, so any non-ASCII
//! character makes its token invalid.

use vstd::prelude::*;
use vstd::string::StringSliceAdditionalSpecFns;
use crate::McprError;

verus! {

/// ASCII whitespace, the characters trimmed from around a token.
pub open spec fn is_ws(b: u8) -> bool {
    b == 0x20 || b == 0x09 || b == 0x0A || b == 0x0B || b == 0x0C || b == 0x0D
}

/// An ASCII decimal digit.
pub open spec fn is_dec_digit(b: u8) -> bool {
    0x30 <= b <= 0x39
}

/// An ASCII hexadecimal digit, either case.
pub open spec fn is_hex_digit(b: u8) -> bool {
    is_dec_digit(b) || (0x41 <= b <= 0x46) || (0x61 <= b <= 0x66)
}

/// Whether `b` is a digit of the given base (10 or 16).
pub open spec fn digit_ok(b: u8, base: int) -> bool {
    if base == 16 {
        is_hex_digit(b)
    } else {
        is_dec_digit(b)
    }
}

/// The numeric value of a digit byte; non-digits count zero.
pub open spec fn digit_val(b: u8) -> int {
    if is_dec_digit(b) {
        b - 0x30
    } else if 0x41 <= b <= 0x46 {
        b - 0x41 + 10
    } else if 0x61 <= b <= 0x66 {
        b - 0x61 + 10
    } else {
        0
    }
}

/// The value of a digit string read most-significant first.
pub open spec fn digits_val(s: Seq<u8>, base: int) -> int
    decreases s.len(),
{
    if s.len() == 0 {
        0
    } else {
        digits_val(s.drop_last(), base) * base + digit_val(s.last())
    }
}

/// Whether every byte of `s` is a digit of `base`.
pub open spec fn all_digits(s: Seq<u8>, base: int) -> bool {
    forall|j: int| 0 <= j < s.len() ==> digit_ok(#[trigger] s[j], base)
}

/// Whether a token begins with `0x` or `0X`.
pub open spec fn has_hex_prefix(s: Seq<u8>) -> bool {
    s.len() >= 2 && s[0] == 0x30 && (s[1] == 0x78 || s[1] == 0x58)
}

/// The digits of a token: what follows the hex prefix, or the whole
/// token.
pub open spec fn code_body(s: Seq<u8>) -> Seq<u8> {
    if has_hex_prefix(s) {
        s.skip(2)
    } else {
        s
    }
}

/// The base a token is read in: 16 behind a hex prefix, else 10.
pub open spec fn code_base(s: Seq<u8>) -> int {
    if has_hex_prefix(s) {
        16
    } else {
        10
    }
}

/// A valid code token: a non-empty digit string of its base whose
/// value fits in 32 bits.
pub open spec fn code_valid(s: Seq<u8>) -> bool {
    let body = code_body(s);
    body.len() > 0 && all_digits(body, code_base(s)) && digits_val(body, code_base(s)) <= u32::MAX
}

/// The value of a valid code token.
pub open spec fn code_u32(s: Seq<u8>) -> u32 {
    digits_val(code_body(s), code_base(s)) as u32
}

/// A digit string's value is never negative.
proof fn lemma_digits_nonneg(s: Seq<u8>, base: int)
    requires
        base >= 1,
    ensures
        digits_val(s, base) >= 0,
    decreases s.len(),
{
    if s.len() > 0 {
        lemma_digits_nonneg(s.drop_last(), base);
        assert(digit_val(s.last()) >= 0);
    }
}

/// Reading more digits never shrinks the value.
proof fn lemma_digits_mono(s: Seq<u8>, base: int, k: int)
    requires
        base >= 1,
        0 <= k <= s.len(),
    ensures
        digits_val(s, base) >= digits_val(s.take(k), base),
    decreases s.len() - k,
{
    if k == s.len() {
        assert(s.take(k) =~= s);
    } else {
        lemma_digits_mono(s, base, k + 1);
        assert(s.take(k + 1).drop_last() =~= s.take(k));
        assert(s.take(k + 1).last() == s[k]);
        lemma_digits_nonneg(s.take(k), base);
        assert(digits_val(s.take(k + 1), base) == digits_val(s.take(k), base) * base + digit_val(
            s[k],
        ));
        let v = digits_val(s.take(k), base);
        assert(v * base >= v) by (nonlinear_arith)
            requires
                v >= 0,
                base >= 1,
        ;
    }
}

/// Whether `b` is an ASCII whitespace byte.
fn is_ws_byte(b: u8) -> (r: bool)
    ensures
        r == is_ws(b),
{
    b == 0x20 || b == 0x09 || b == 0x0A || b == 0x0B || b == 0x0C || b == 0x0D
}

/// Parses the token held in `b[lo .. hi]` as one filter code.
fn parse_code_bytes(b: &[u8], lo: usize, hi: usize) -> (r: Result<u32, McprError>)
    requires
        lo <= hi <= b@.len(),
    ensures
        code_valid(b@.subrange(lo as int, hi as int)) ==> r == Ok::<u32, McprError>(
            code_u32(b@.subrange(lo as int, hi as int)),
        ),
        !code_valid(b@.subrange(lo as int, hi as int)) ==> r == Err::<u32, McprError>(
            McprError::InvalidCode,
        ),
{
    let ghost tok = b@.subrange(lo as int, hi as int);
    let hex = hi - lo >= 2 && b[lo] == 0x30 && (b[lo + 1] == 0x78 || b[lo + 1] == 0x58);
    let start = if hex {
        lo + 2
    } else {
        lo
    };
    let base: u64 = if hex {
        16
    } else {
        10
    };
    proof {
        assert(hex == has_hex_prefix(tok));
        assert(code_body(tok) =~= b@.subrange(start as int, hi as int));
        assert(code_base(tok) == base as int);
    }
    if start == hi {
        return Err(McprError::InvalidCode);
    }
    let mut acc: u64 = 0;
    let mut i = start;
    while i < hi
        invariant
            lo <= start <= i <= hi <= b@.len(),
            base == 10 || base == 16,
            code_body(tok) == b@.subrange(start as int, hi as int),
            code_base(tok) == base as int,
            tok == b@.subrange(lo as int, hi as int),
            forall|j: int| start <= j < i ==> digit_ok(#[trigger] b@[j], base as int),
            acc == digits_val(b@.subrange(start as int, i as int), base as int),
            acc <= u32::MAX,
        decreases hi - i,
    {
        let byte = b[i];
        let d: u64 = if byte >= 0x30 && byte <= 0x39 {
            (byte - 0x30) as u64
        } else if base == 16 && byte >= 0x41 && byte <= 0x46 {
            (byte - 0x41 + 10) as u64
        } else if base == 16 && byte >= 0x61 && byte <= 0x66 {
            (byte - 0x61 + 10) as u64
        } else {
            proof {
                assert(!digit_ok(b@[i as int], base as int));
                assert(code_body(tok)[i - start] == b@[i as int]);
                assert(!all_digits(code_body(tok), code_base(tok)));
            }
            return Err(McprError::InvalidCode);
        };
        proof {
            assert(d == digit_val(b@[i as int]));
            assert(digit_ok(b@[i as int], base as int));
            assert(b@.subrange(start as int, i + 1).drop_last() =~= b@.subrange(
                start as int,
                i as int,
            ));
            assert(b@.subrange(start as int, i + 1).last() == b@[i as int]);
        }
        acc = acc * base + d;
        i = i + 1;
        if acc > 0xFFFF_FFFF {
            proof {
                let body = code_body(tok);
                if all_digits(body, base as int) {
                    lemma_digits_mono(body, base as int, i - start);
                    assert(body.take(i - start) =~= b@.subrange(start as int, i as int));
                    assert(digits_val(body, base as int) > u32::MAX);
                }
            }
            return Err(McprError::InvalidCode);
        }
    }
    proof {
        assert(b@.subrange(start as int, hi as int) == code_body(tok));
        assert(code_valid(tok));
    }
    Ok(acc as u32)
}

/// The bytes of `s` with leading ASCII whitespace dropped.
pub open spec fn trim_front(s: Seq<u8>) -> Seq<u8>
    decreases s.len(),
{
    if s.len() > 0 && is_ws(s[0]) {
        trim_front(s.skip(1))
    } else {
        s
    }
}

/// The bytes of `s` with trailing ASCII whitespace dropped.
pub open spec fn trim_back(s: Seq<u8>) -> Seq<u8>
    decreases s.len(),
{
    if s.len() > 0 && is_ws(s.last()) {
        trim_back(s.drop_last())
    } else {
        s
    }
}

/// The bytes of `s` with surrounding ASCII whitespace dropped.
pub open spec fn trim_spec(s: Seq<u8>) -> Seq<u8> {
    trim_back(trim_front(s))
}

/// The comma-separated tokens of `s` from `pos` on.  Splitting the
/// empty string gives one empty token, as `str::split` does.
pub open spec fn comma_split_from(s: Seq<u8>, pos: int) -> Seq<Seq<u8>>
    decreases s.len() - pos,
{
    if pos < 0 || pos >= s.len() {
        seq![Seq::<u8>::empty()]
    } else if s[pos] == 0x2C {
        seq![Seq::<u8>::empty()] + comma_split_from(s, pos + 1)
    } else {
        let rest = comma_split_from(s, pos + 1);
        rest.update(0, seq![s[pos]] + rest[0])
    }
}

/// The tokens of a whole filter-code list.
pub open spec fn list_tokens(s: Seq<u8>) -> Seq<Seq<u8>> {
    comma_split_from(s, 0)
}

/// A valid filter-code list: every trimmed token is a valid code.
pub open spec fn list_valid(s: Seq<u8>) -> bool {
    forall|i: int|
        0 <= i < list_tokens(s).len() ==> code_valid(trim_spec(#[trigger] list_tokens(s)[i]))
}

/// The values of a valid filter-code list, in token order.
pub open spec fn list_vals(s: Seq<u8>) -> Seq<u32> {
    Seq::new(list_tokens(s).len(), |i: int| code_u32(trim_spec(list_tokens(s)[i])))
}

/// Splitting always yields at least one token.
proof fn lemma_split_nonempty(s: Seq<u8>, pos: int)
    ensures
        comma_split_from(s, pos).len() >= 1,
    decreases s.len() - pos,
{
    if 0 <= pos < s.len() {
        lemma_split_nonempty(s, pos + 1);
    }
}

/// A comma-free run `[pos, k)` ending at a comma or at the end of the
/// input is the first token of the split at `pos`.
proof fn lemma_split_token(s: Seq<u8>, pos: int, k: int)
    requires
        0 <= pos <= k <= s.len(),
        forall|j: int| pos <= j < k ==> s[j] != 0x2C,
        k == s.len() || s[k] == 0x2C,
    ensures
        comma_split_from(s, pos) == if k == s.len() {
            seq![s.subrange(pos, k)]
        } else {
            seq![s.subrange(pos, k)] + comma_split_from(s, k + 1)
        },
    decreases k - pos,
{
    if pos == k {
        assert(s.subrange(pos, k) =~= Seq::<u8>::empty());
        if k == s.len() {
            assert(comma_split_from(s, pos) =~~= seq![s.subrange(pos, k)]);
        } else {
            assert(comma_split_from(s, pos) =~~= seq![s.subrange(pos, k)] + comma_split_from(
                s,
                k + 1,
            ));
        }
    } else {
        lemma_split_token(s, pos + 1, k);
        lemma_split_nonempty(s, pos + 1);
        let rest = comma_split_from(s, pos + 1);
        assert(rest[0] == s.subrange(pos + 1, k));
        assert(seq![s[pos]] + s.subrange(pos + 1, k) =~= s.subrange(pos, k));
        if k == s.len() {
            assert(comma_split_from(s, pos) =~~= seq![s.subrange(pos, k)]);
        } else {
            assert(comma_split_from(s, pos) =~~= seq![s.subrange(pos, k)] + comma_split_from(
                s,
                k + 1,
            ));
        }
    }
}

/// Scanning forward over whitespace to `ts` performs the front trim
/// of `s[lo .. hi]`.
proof fn lemma_trim_front_range(s: Seq<u8>, lo: int, hi: int, ts: int)
    requires
        0 <= lo <= ts <= hi <= s.len(),
        forall|j: int| lo <= j < ts ==> is_ws(#[trigger] s[j]),
        ts == hi || !is_ws(s[ts]),
    ensures
        trim_front(s.subrange(lo, hi)) == s.subrange(ts, hi),
    decreases ts - lo,
{
    if lo == ts {
    } else {
        assert(s.subrange(lo, hi)[0] == s[lo]);
        assert(s.subrange(lo, hi).skip(1) =~= s.subrange(lo + 1, hi));
        lemma_trim_front_range(s, lo + 1, hi, ts);
    }
}

/// Scanning backward over whitespace to `te` performs the back trim
/// of `s[lo .. hi]`.
proof fn lemma_trim_back_range(s: Seq<u8>, lo: int, hi: int, te: int)
    requires
        0 <= lo <= te <= hi <= s.len(),
        forall|j: int| te <= j < hi ==> is_ws(#[trigger] s[j]),
        te == lo || !is_ws(s[te - 1]),
    ensures
        trim_back(s.subrange(lo, hi)) == s.subrange(lo, te),
    decreases hi - te,
{
    if te == hi {
    } else {
        assert(s.subrange(lo, hi).last() == s[hi - 1]);
        assert(s.subrange(lo, hi).drop_last() =~= s.subrange(lo, hi - 1));
        lemma_trim_back_range(s, lo, hi - 1, te);
    }
}

/// Converts one trimmed textual code, `0x`-prefixed hexadecimal or
/// plain decimal, to its 32-bit value; anything else is
/// `InvalidCode`.
pub fn parse_packet_code(s: &str) -> (r: Result<u32, McprError>)
    ensures
        code_valid(s.spec_bytes()) ==> r == Ok::<u32, McprError>(code_u32(s.spec_bytes())),
        !code_valid(s.spec_bytes()) ==> r == Err::<u32, McprError>(McprError::InvalidCode),
{
    let b = s.as_bytes();
    let r = parse_code_bytes(b, 0, b.len());
    proof {
        assert(b@.subrange(0, b@.len() as int) =~= s.spec_bytes());
    }
    r
}

/// Parses a comma-separated list of codes, each trimmed of
/// surrounding ASCII whitespace before parsing; the whole list fails
/// on its first invalid token.
pub fn parse_code_list(s: &str) -> (r: Result<Vec<u32>, McprError>)
    ensures
        list_valid(s.spec_bytes()) ==> (r matches Ok(v) && v@ == list_vals(s.spec_bytes())),
        !list_valid(s.spec_bytes()) ==> r == Err::<Vec<u32>, McprError>(McprError::InvalidCode),
{
    let b = s.as_bytes();
    let ghost sb = s.spec_bytes();
    let ghost toks = list_tokens(sb);
    let n = b.len();
    let mut result: Vec<u32> = Vec::new();
    let mut tok_start: usize = 0;
    let mut i: usize = 0;
    proof {
        lemma_split_nonempty(sb, 0);
    }
    loop
        invariant
            b@ == sb,
            sb == s.spec_bytes(),
            n == sb.len(),
            sb.len() <= usize::MAX,
            toks == list_tokens(sb),
            0 <= tok_start <= i <= n,
            forall|j: int| tok_start <= j < i ==> sb[j] != 0x2C,
            comma_split_from(sb, tok_start as int) == toks.skip(result@.len() as int),
            result@.len() + comma_split_from(sb, tok_start as int).len() == toks.len(),
            forall|j: int|
                0 <= j < result@.len() ==> code_valid(trim_spec(#[trigger] toks[j])) && result@[j]
                    == code_u32(trim_spec(toks[j])),
        decreases n - i,
    {
        while i < n && b[i] != 0x2C
            invariant
                b@ == sb,
                n == sb.len(),
                tok_start <= i <= n,
                forall|j: int| tok_start <= j < i ==> sb[j] != 0x2C,
            decreases n - i,
        {
            i = i + 1;
        }
        let mut ts = tok_start;
        while ts < i && is_ws_byte(b[ts])
            invariant
                b@ == sb,
                tok_start <= ts <= i <= n == sb.len(),
                forall|j: int| tok_start <= j < ts ==> is_ws(#[trigger] sb[j]),
            decreases i - ts,
        {
            ts = ts + 1;
        }
        let mut te = i;
        while te > ts && is_ws_byte(b[te - 1])
            invariant
                b@ == sb,
                tok_start <= ts <= te <= i <= n == sb.len(),
                forall|j: int| te <= j < i ==> is_ws(#[trigger] sb[j]),
            decreases te - ts,
        {
            te = te - 1;
        }
        let ghost k = result@.len() as int;
        proof {
            lemma_split_token(sb, tok_start as int, i as int);
            lemma_trim_front_range(sb, tok_start as int, i as int, ts as int);
            lemma_trim_back_range(sb, ts as int, i as int, te as int);
            lemma_split_nonempty(sb, tok_start as int);
            assert(toks.skip(k)[0] == toks[k]);
            assert(toks[k] == sb.subrange(tok_start as int, i as int));
            assert(trim_spec(toks[k]) == sb.subrange(ts as int, te as int));
        }
        match parse_code_bytes(b, ts, te) {
            Ok(v) => {
                result.push(v);
            },
            Err(e) => {
                proof {
                    assert(0 <= k < list_tokens(sb).len());
                    assert(!code_valid(trim_spec(list_tokens(sb)[k])));
                    assert(!list_valid(sb));
                }
                return Err(e);
            },
        }
        if i == n {
            proof {
                assert(comma_split_from(sb, tok_start as int).len() == 1);
                assert(result@.len() == toks.len());
                assert(list_valid(sb));
                assert(result@ =~= list_vals(sb));
            }
            return Ok(result);
        }
        proof {
            assert(sb[i as int] == 0x2C);
            assert(comma_split_from(sb, tok_start as int) == seq![
                sb.subrange(tok_start as int, i as int),
            ] + comma_split_from(sb, i + 1));
            assert(comma_split_from(sb, i + 1).len() == toks.len() - (k + 1));
            assert forall|j: int| 0 <= j < toks.len() - (k + 1) implies #[trigger] comma_split_from(
                sb,
                i + 1,
            )[j] == toks.skip(k + 1)[j] by {
                assert(toks.skip(k)[j + 1] == toks[k + 1 + j]);
                assert((seq![sb.subrange(tok_start as int, i as int)] + comma_split_from(
                    sb,
                    i + 1,
                ))[j + 1] == comma_split_from(sb, i + 1)[j]);
            }
            assert(comma_split_from(sb, i + 1) =~= toks.skip(k + 1));
        }
        tok_start = i + 1;
        i = i + 1;
    }
}

} // verus!
