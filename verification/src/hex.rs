//! The hex token parser: free-form text of hex byte tokens to bytes.

use crate::error::{Fault, PakxError};
use crate::text::{
    all_digits, chars_of, digit_of, digit_value, has_hex_prefix, is_sep, is_separator, odd_width,
    utf8_len,
};
use vstd::prelude::*;
use vstd::string::StrSliceExecFns;

verus! {

/// How the bytes on standard input are to be read.
#[derive(Copy, Clone, Debug, PartialEq, Eq, Structural)]
pub enum InFmt {
    /// The bytes as they are.
    Raw,
    /// Text of hex byte tokens.
    Hex,
}

/// The length of the run of characters, none of them a separator, that `s` begins with.
pub open spec fn token_len(s: Seq<char>) -> nat
    decreases s.len(),
{
    if s.len() == 0 || is_separator(s[0]) {
        0
    } else {
        1 + token_len(s.drop_first())
    }
}

/// The pieces that the separators part `s` into, in order. Two separators in a row, and
/// one at either end, leave an empty piece.
pub open spec fn tokens(s: Seq<char>) -> Seq<Seq<char>>
    decreases s.len(),
{
    let n = token_len(s);
    if n >= s.len() {
        seq![s]
    } else {
        seq![s.take(n as int)] + tokens(s.skip(n as int + 1))
    }
}

/// `raw` without one leading `0x` or `0X`.
pub open spec fn strip_hex_prefix(raw: Seq<char>) -> Seq<char> {
    if has_hex_prefix(raw) {
        raw.skip(2)
    } else {
        raw
    }
}

/// The bytes that the hex digits `t` write, two digits to a byte.
pub open spec fn byte_pairs(t: Seq<char>) -> Seq<u8>
    decreases t.len(),
{
    if t.len() < 2 {
        Seq::empty()
    } else {
        seq![(16 * digit_value(t[0]) + digit_value(t[1])) as u8] + byte_pairs(t.skip(2))
    }
}

/// The bytes of one token, or the fault in it.
///
/// After an optional `0x` or `0X`, a token whose UTF-8 length is odd is refused as an odd
/// number of nibbles, and otherwise one that holds anything but hex digits as invalid; both
/// faults carry the token as it was written. An empty token has no bytes and no fault.
pub open spec fn token_bytes(raw: Seq<char>) -> Result<Seq<u8>, Fault> {
    let t = strip_hex_prefix(raw);
    if utf8_len(t) % 2 != 0 {
        Err(Fault::OddNibble { token: raw })
    } else if !all_digits(t, 16) {
        Err(Fault::InvalidHex { token: raw })
    } else {
        Ok(byte_pairs(t))
    }
}

/// `head` before the bytes of `rest`; the fault of `rest` where it has one.
pub open spec fn prepend(head: Seq<u8>, rest: Result<Seq<u8>, Fault>) -> Result<Seq<u8>, Fault> {
    match rest {
        Ok(tail) => Ok(head + tail),
        Err(fault) => Err(fault),
    }
}

/// The bytes of the tokens `toks`, left to right, or the fault of the first token that
/// has one.
pub open spec fn tokens_bytes(toks: Seq<Seq<char>>) -> Result<Seq<u8>, Fault>
    decreases toks.len(),
{
    if toks.len() == 0 {
        Ok(Seq::empty())
    } else {
        match token_bytes(toks[0]) {
            Err(fault) => Err(fault),
            Ok(head) => prepend(head, tokens_bytes(toks.drop_first())),
        }
    }
}

/// What the hex stream `s` parses to.
pub open spec fn hex_bytes(s: Seq<char>) -> Result<Seq<u8>, Fault> {
    tokens_bytes(tokens(s))
}

/// The first token ends within the text.
pub proof fn lemma_token_len_bound(s: Seq<char>)
    ensures
        token_len(s) <= s.len(),
        token_len(s) < s.len() ==> is_separator(s[token_len(s) as int]),
        forall|i: int| 0 <= i < token_len(s) ==> !is_separator(#[trigger] s[i]),
    decreases s.len(),
{
    if !(s.len() == 0 || is_separator(s[0])) {
        let rest = s.drop_first();
        lemma_token_len_bound(rest);
        assert forall|i: int| 0 <= i < token_len(s) implies !is_separator(#[trigger] s[i]) by {
            if i > 0 {
                assert(s[i] == rest[i - 1]);
            }
        }
    }
}

/// A parse is the first token's bytes, then the parse of what follows its separator.
pub proof fn lemma_hex_bytes_step(s: Seq<char>)
    ensures
        hex_bytes(s) == (match token_bytes(s.take(token_len(s) as int)) {
            Err(fault) => Err(fault),
            Ok(head) => if token_len(s) >= s.len() {
                Ok(head)
            } else {
                prepend(head, hex_bytes(s.skip(token_len(s) as int + 1)))
            },
        }),
{
    let n = token_len(s);
    lemma_token_len_bound(s);
    if n >= s.len() {
        assert(s.take(n as int) =~= s);
        let toks = seq![s];
        assert(tokens_bytes(toks.drop_first()) == Ok::<Seq<u8>, Fault>(Seq::empty()));
    } else {
        let first = s.take(n as int);
        let others = tokens(s.skip(n as int + 1));
        let toks = seq![first] + others;
        assert(toks.drop_first() =~= others);
    }
}

/// The end of the token that begins at `start`: the next separator, or the end of the text.
fn token_end(cs: &Vec<char>, start: usize) -> (end: usize)
    requires
        start <= cs@.len(),
    ensures
        start <= end <= cs@.len(),
        end - start == token_len(cs@.skip(start as int)),
{
    let mut end: usize = start;
    while end < cs.len() && !is_sep(cs[end])
        invariant
            start <= end <= cs@.len(),
            token_len(cs@.skip(start as int)) == (end - start) + token_len(cs@.skip(end as int)),
        decreases cs@.len() - end,
    {
        proof {
            assert(cs@.skip(end as int).drop_first() =~= cs@.skip(end + 1));
        }
        end = end + 1;
    }
    end
}

/// Appends to `out` the bytes of the token `cs[start..end]`, or reports its fault.
fn decode_token(s: &str, cs: &Vec<char>, start: usize, end: usize, out: &mut Vec<u8>) -> (r:
    Result<(), PakxError>)
    requires
        cs@ == s@,
        start <= end <= cs@.len(),
    ensures
        match token_bytes(s@.subrange(start as int, end as int)) {
            Ok(bytes) => r is Ok && final(out)@ == old(out)@ + bytes,
            Err(fault) => r matches Err(e) && e@ == fault,
        },
{
    let ghost raw = s@.subrange(start as int, end as int);
    let body: usize = if end - start >= 2 && cs[start] == '0' && (cs[start + 1] == 'x' || cs[start
        + 1] == 'X') {
        start + 2
    } else {
        start
    };
    let ghost t = strip_hex_prefix(raw);
    proof {
        assert(t =~= cs@.subrange(body as int, end as int));
    }
    let mut odd = false;
    let mut hex = true;
    let mut j: usize = body;
    while j < end
        invariant
            body <= j <= end <= cs@.len(),
            odd == (utf8_len(cs@.subrange(body as int, j as int)) % 2 == 1),
            hex == all_digits(cs@.subrange(body as int, j as int), 16),
        decreases end - j,
    {
        let c = cs[j];
        proof {
            let next = cs@.subrange(body as int, j + 1);
            assert(next.drop_last() =~= cs@.subrange(body as int, j as int));
        }
        if odd_width(c) {
            odd = !odd;
        }
        if digit_of(c, 16).is_none() {
            hex = false;
        }
        j = j + 1;
    }
    if odd {
        return Err(PakxError::OddNibble { token: s.substring_char(start, end).to_owned() });
    }
    if !hex {
        return Err(PakxError::InvalidHex { token: s.substring_char(start, end).to_owned() });
    }
    let mut j: usize = body;
    while end - j >= 2
        invariant
            body <= j <= end <= cs@.len(),
            all_digits(cs@.subrange(body as int, end as int), 16),
            old(out)@ + byte_pairs(cs@.subrange(body as int, end as int)) == out@ + byte_pairs(
                cs@.subrange(j as int, end as int),
            ),
        decreases end - j,
    {
        let ghost whole = cs@.subrange(body as int, end as int);
        let ghost left = cs@.subrange(j as int, end as int);
        proof {
            assert(left[0] == whole[j - body] && left[1] == whole[j + 1 - body]);
            assert(left.skip(2) =~= cs@.subrange(j + 2, end as int));
        }
        let hi = digit_of(cs[j], 16).unwrap();
        let lo = digit_of(cs[j + 1], 16).unwrap();
        let b: u8 = hi * 16 + lo;
        out.push(b);
        j = j + 2;
    }
    Ok(())
}

/// Parses text that holds hex byte tokens into the bytes that they write.
///
/// Tokens are parted by whitespace and by `:`, `,`, `-` and `;`; each may begin with `0x`
/// or `0X`. The bytes come in the order of the text. The first token with an odd number of
/// nibbles, or with anything but hex digits, ends the parse with its fault.
pub fn parse_hex_str(s: &str) -> (r: Result<Vec<u8>, PakxError>)
    ensures
        match r {
            Ok(bytes) => hex_bytes(s@) == Ok::<Seq<u8>, Fault>(bytes@),
            Err(e) => hex_bytes(s@) == Err::<Seq<u8>, Fault>(e@),
        },
{
    let cs = chars_of(s);
    let n = cs.len();
    let mut out: Vec<u8> = Vec::new();
    let mut i: usize = 0;
    proof {
        assert(s@.skip(0) =~= s@);
    }
    loop
        invariant
            cs@ == s@,
            n == cs@.len(),
            i <= n,
            hex_bytes(s@) == prepend(out@, hex_bytes(s@.skip(i as int))),
        decreases n - i,
    {
        let ghost rest = s@.skip(i as int);
        let ghost before = out@;
        let end = token_end(&cs, i);
        proof {
            lemma_hex_bytes_step(rest);
            assert(rest.take(end - i) =~= s@.subrange(i as int, end as int));
        }
        match decode_token(s, &cs, i, end, &mut out) {
            Err(e) => {
                return Err(e);
            },
            Ok(()) => {},
        }
        if end >= n {
            return Ok(out);
        }
        proof {
            assert(rest.skip(end - i + 1) =~= s@.skip(end + 1));
            let head = token_bytes(rest.take(end - i))->Ok_0;
            if let Ok(tail) = hex_bytes(s@.skip(end + 1)) {
                assert(before + (head + tail) =~= (before + head) + tail);
            }
        }
        i = end + 1;
    }
}

} // verus!
