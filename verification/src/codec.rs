//! The wire encoder. A node's output is one JSON record per line; this
//! module renders each record the library can emit as the exact byte
//! sequence to write, and proves that a rendered record never contains a
//! line break, so that appending a newline frames it as one complete
//! line.

use crate::broadcast::{BroadcastPayload, TopologyEntry};
use crate::counter::{CounterPayload, KvPayload};
use crate::echo::EchoPayload;
use crate::unique::UniquePayload;
use crate::{Init, InitPayload, Message};
use vstd::prelude::*;
use vstd::string::StringSliceAdditionalSpecFns;

verus! {

/// The UTF-8 bytes of a string, as they reach the wire.
pub open spec fn utf8_bytes(s: Seq<char>) -> Seq<u8> {
    vstd::utf8::encode_utf8(s)
}

/// No byte of the sequence is a line break.
pub open spec fn line_clean(s: Seq<u8>) -> bool {
    forall|i: int| 0 <= i < s.len() ==> s[i] != 10u8
}

pub proof fn lemma_clean_concat(a: Seq<u8>, b: Seq<u8>)
    requires
        line_clean(a),
        line_clean(b),
    ensures
        line_clean(a + b),
{
    assert forall|i: int| 0 <= i < (a + b).len() implies (a + b)[i] != 10u8 by {
        if i < a.len() {
            assert((a + b)[i] == a[i]);
        } else {
            assert((a + b)[i] == b[i - a.len()]);
        }
    }
}

// ---------------------------------------------------------------------
// Decimal numbers
// ---------------------------------------------------------------------
/// The decimal rendering of `n`, most significant digit first.
pub open spec fn dec_digits(n: nat) -> Seq<u8>
    decreases n,
{
    if n < 10 {
        seq![(48 + n) as u8]
    } else {
        dec_digits(n / 10) + seq![(48 + n % 10) as u8]
    }
}

pub proof fn lemma_dec_digits_clean(n: nat)
    ensures
        line_clean(dec_digits(n)),
    decreases n,
{
    if n >= 10 {
        lemma_dec_digits_clean(n / 10);
        lemma_clean_concat(dec_digits(n / 10), seq![(48 + n % 10) as u8]);
    }
}

/// The number a decimal digit string denotes.
pub open spec fn undec(s: Seq<u8>) -> int
    decreases s.len(),
{
    if s.len() == 0 {
        0
    } else {
        10 * undec(s.drop_last()) + (s.last() - 48)
    }
}

/// The decimal rendering loses nothing: reading the digits back gives
/// the number that was rendered, so every number field of an emitted
/// record parses back to what the node put in it.
pub proof fn lemma_undec_dec(n: nat)
    ensures
        undec(dec_digits(n)) == n,
    decreases n,
{
    if n < 10 {
        assert(dec_digits(n).drop_last().len() == 0);
        assert(undec(dec_digits(n).drop_last()) == 0);
        assert(dec_digits(n).last() == (48 + n) as u8);
        assert(((48 + n) as u8) == 48 + n);
    } else {
        lemma_undec_dec(n / 10);
        assert(dec_digits(n).drop_last() =~= dec_digits(n / 10));
        assert(dec_digits(n).last() == (48 + n % 10) as u8);
        assert(((48 + n % 10) as u8) == 48 + n % 10);
        assert(10 * (n / 10) + n % 10 == n);
    }
}

/// Append the decimal rendering of `n`.
pub fn push_num(out: &mut Vec<u8>, n: usize)
    ensures
        final(out)@ == old(out)@ + dec_digits(n as nat),
    decreases n,
{
    if n >= 10 {
        push_num(out, n / 10);
    }
    out.push(48 + (n % 10) as u8);
    proof {
        assert(out@ =~= old(out)@ + dec_digits(n as nat));
    }
}

// ---------------------------------------------------------------------
// JSON string escaping
// ---------------------------------------------------------------------
/// The lowercase hexadecimal digit for `d`.
pub open spec fn hex_digit(d: nat) -> u8 {
    if d < 10 {
        (48 + d) as u8
    } else {
        (87 + d) as u8
    }
}

/// How one byte of a string reaches the wire: quotes and backslashes are
/// escaped, the named control characters take their short escapes, every
/// other control character takes its numeric escape, and everything else
/// passes through (multi-byte UTF-8 sequences pass through byte by byte).
pub open spec fn esc_byte(b: u8) -> Seq<u8> {
    if b == 34 {
        seq![92u8, 34u8]
    } else if b == 92 {
        seq![92u8, 92u8]
    } else if b == 8 {
        seq![92u8, 98u8]
    } else if b == 9 {
        seq![92u8, 116u8]
    } else if b == 10 {
        seq![92u8, 110u8]
    } else if b == 12 {
        seq![92u8, 102u8]
    } else if b == 13 {
        seq![92u8, 114u8]
    } else if b < 32 {
        seq![92u8, 117u8, 48u8, 48u8, hex_digit((b / 16) as nat), hex_digit((b % 16) as nat)]
    } else {
        seq![b]
    }
}

/// A whole string, escaped byte by byte.
pub open spec fn esc_bytes(s: Seq<u8>) -> Seq<u8>
    decreases s.len(),
{
    if s.len() == 0 {
        Seq::empty()
    } else {
        esc_bytes(s.drop_last()) + esc_byte(s.last())
    }
}

pub proof fn lemma_esc_byte_clean(b: u8)
    ensures
        line_clean(esc_byte(b)),
{
}

pub proof fn lemma_esc_bytes_clean(s: Seq<u8>)
    ensures
        line_clean(esc_bytes(s)),
    decreases s.len(),
{
    if s.len() > 0 {
        lemma_esc_bytes_clean(s.drop_last());
        lemma_esc_byte_clean(s.last());
        lemma_clean_concat(esc_bytes(s.drop_last()), esc_byte(s.last()));
    }
}

fn hex_byte(d: u8) -> (r: u8)
    requires
        d < 16,
    ensures
        r == hex_digit(d as nat),
{
    if d < 10 {
        48 + d
    } else {
        87 + d
    }
}

/// Append the bytes of a string, escaped.
pub fn push_escaped(out: &mut Vec<u8>, s: &[u8])
    ensures
        final(out)@ == old(out)@ + esc_bytes(s@),
{
    let n = s.len();
    let mut i: usize = 0;
    while i < n
        invariant
            0 <= i <= n,
            n == s@.len(),
            out@ == old(out)@ + esc_bytes(s@.subrange(0, i as int)),
        decreases n - i,
    {
        let b = s[i];
        if b == 34 {
            out.push(92u8);
            out.push(34u8);
        } else if b == 92 {
            out.push(92u8);
            out.push(92u8);
        } else if b == 8 {
            out.push(92u8);
            out.push(98u8);
        } else if b == 9 {
            out.push(92u8);
            out.push(116u8);
        } else if b == 10 {
            out.push(92u8);
            out.push(110u8);
        } else if b == 12 {
            out.push(92u8);
            out.push(102u8);
        } else if b == 13 {
            out.push(92u8);
            out.push(114u8);
        } else if b < 32 {
            out.push(92u8);
            out.push(117u8);
            out.push(48u8);
            out.push(48u8);
            out.push(hex_byte(b / 16));
            out.push(hex_byte(b % 16));
        } else {
            out.push(b);
        }
        proof {
            assert(s@.subrange(0, i + 1).drop_last() =~= s@.subrange(0, i as int));
            assert(s@.subrange(0, i + 1).last() == s@[i as int]);
            assert(out@ =~= old(out)@ + esc_bytes(s@.subrange(0, i + 1)));
        }
        i = i + 1;
    }
    proof {
        assert(s@.subrange(0, n as int) =~= s@);
    }
}

// ---------------------------------------------------------------------
// JSON values
// ---------------------------------------------------------------------
/// A JSON string: the escaped bytes in quotes.
pub open spec fn json_str(s: Seq<u8>) -> Seq<u8> {
    seq![34u8] + esc_bytes(s) + seq![34u8]
}

pub proof fn lemma_json_str_clean(s: Seq<u8>)
    ensures
        line_clean(json_str(s)),
{
    lemma_esc_bytes_clean(s);
    lemma_clean_concat(seq![34u8], esc_bytes(s));
    lemma_clean_concat(seq![34u8] + esc_bytes(s), seq![34u8]);
    assert(json_str(s) =~= (seq![34u8] + esc_bytes(s)) + seq![34u8]);
}

/// Read one escape unit from the front of an escaped stream: the byte
/// it stands for and how many bytes the unit occupies. `None` when the
/// stream starts with no complete unit.
pub open spec fn unesc_step(s: Seq<u8>) -> Option<(u8, int)> {
    if s.len() == 0 {
        None
    } else if s[0] == 92 {
        if s.len() < 2 {
            None
        } else if s[1] == 34 {
            Some((34u8, 2))
        } else if s[1] == 92 {
            Some((92u8, 2))
        } else if s[1] == 98 {
            Some((8u8, 2))
        } else if s[1] == 116 {
            Some((9u8, 2))
        } else if s[1] == 110 {
            Some((10u8, 2))
        } else if s[1] == 102 {
            Some((12u8, 2))
        } else if s[1] == 114 {
            Some((13u8, 2))
        } else if s[1] == 117 {
            if s.len() >= 6 && s[2] == 48 && s[3] == 48 && is_hex_digit(s[4]) && is_hex_digit(
                s[5],
            ) {
                Some(((16 * unhex(s[4]) + unhex(s[5])) as u8, 6))
            } else {
                None
            }
        } else {
            None
        }
    } else {
        Some((s[0], 1))
    }
}

pub open spec fn is_hex_digit(b: u8) -> bool {
    (48 <= b <= 57) || (97 <= b <= 102)
}

pub open spec fn unhex(b: u8) -> int {
    if 48 <= b <= 57 {
        b - 48
    } else {
        b - 87
    }
}

/// Decode a whole escaped stream, unit by unit.
pub open spec fn unesc(s: Seq<u8>) -> Option<Seq<u8>>
    decreases s.len(),
{
    if s.len() == 0 {
        Some(Seq::empty())
    } else {
        match unesc_step(s) {
            None => None,
            Some((b, k)) => {
                if 0 < k <= s.len() {
                    match unesc(s.skip(k)) {
                        None => None,
                        Some(rest) => Some(seq![b] + rest),
                    }
                } else {
                    None
                }
            },
        }
    }
}

/// The escaping read from the left: the first byte's unit, then the rest.
pub proof fn lemma_esc_bytes_left(s: Seq<u8>)
    requires
        s.len() > 0,
    ensures
        esc_bytes(s) == esc_byte(s[0]) + esc_bytes(s.drop_first()),
    decreases s.len(),
{
    if s.len() == 1 {
        assert(s.drop_last().len() == 0);
        assert(s.drop_first().len() == 0);
        assert(s.last() == s[0]);
        assert(esc_bytes(s.drop_last()) == Seq::<u8>::empty());
        assert(esc_bytes(s.drop_first()) == Seq::<u8>::empty());
        assert(esc_bytes(s) == Seq::<u8>::empty() + esc_byte(s[0]));
        assert(Seq::<u8>::empty() + esc_byte(s[0]) =~= esc_byte(s[0]) + Seq::<u8>::empty());
    } else {
        let head = s.drop_last();
        lemma_esc_bytes_left(head);
        assert(head[0] == s[0]);
        assert(head.drop_first() =~= s.drop_first().drop_last());
        assert(s.drop_first().len() > 0);
        assert(s.drop_first().last() == s.last());
        assert(esc_bytes(s.drop_first()) == esc_bytes(s.drop_first().drop_last()) + esc_byte(
            s.last(),
        ));
        assert(esc_bytes(s.drop_first().drop_last()) == esc_bytes(head.drop_first()));
        assert(esc_bytes(s) == (esc_byte(s[0]) + esc_bytes(head.drop_first())) + esc_byte(
            s.last(),
        ));
        assert((esc_byte(s[0]) + esc_bytes(head.drop_first())) + esc_byte(s.last()) =~= esc_byte(
            s[0],
        ) + (esc_bytes(head.drop_first()) + esc_byte(s.last())));
    }
}

/// The front of `esc_byte(b) + rest` always reads back as one unit: the
/// byte `b`, occupying exactly the unit's length.
pub proof fn lemma_unesc_step_unit(b: u8, rest: Seq<u8>)
    ensures
        unesc_step(esc_byte(b) + rest) == Some((b, esc_byte(b).len() as int)),
{
    let unit = esc_byte(b);
    let whole = unit + rest;
    assert(unit.len() > 0);
    assert forall|i: int| 0 <= i < unit.len() implies whole[i] == unit[i] by {}
    if b == 34 || b == 92 || b == 8 || b == 9 || b == 10 || b == 12 || b == 13 {
    } else if b < 32 {
        assert(unit[4] == hex_digit((b / 16) as nat));
        assert(unit[5] == hex_digit((b % 16) as nat));
        assert(is_hex_digit(unit[4]) && unhex(unit[4]) == b / 16);
        assert(is_hex_digit(unit[5]) && unhex(unit[5]) == b % 16);
        assert(16 * unhex(whole[4]) + unhex(whole[5]) == b);
    } else {
        assert(whole[0] == b && b != 92);
    }
}

/// Read the body of a JSON string up to its closing quote: the decoded
/// content, and whatever follows the quote.
pub open spec fn read_str_body(s: Seq<u8>) -> Option<(Seq<u8>, Seq<u8>)>
    decreases s.len(),
{
    if s.len() == 0 {
        None
    } else if s[0] == 34 {
        Some((Seq::empty(), s.skip(1)))
    } else {
        match unesc_step(s) {
            None => None,
            Some((b, k)) => {
                if 0 < k <= s.len() {
                    match read_str_body(s.skip(k)) {
                        None => None,
                        Some((c, r)) => Some((seq![b] + c, r)),
                    }
                } else {
                    None
                }
            },
        }
    }
}

/// A string on the wire ends exactly at the quote the encoder wrote: a
/// reader cannot mistake an escaped quote inside the string for its end,
/// and gets the content and the remainder back unchanged, whatever
/// follows the string.
pub proof fn lemma_read_str_body(a: Seq<u8>, rest: Seq<u8>)
    ensures
        read_str_body(esc_bytes(a) + seq![34u8] + rest) == Some((a, rest)),
    decreases a.len(),
{
    if a.len() == 0 {
        assert(esc_bytes(a).len() == 0);
        let s = esc_bytes(a) + seq![34u8] + rest;
        assert(s =~= seq![34u8] + rest);
        assert(s[0] == 34);
        assert(s.skip(1) =~= rest);
    } else {
        let b = a[0];
        let unit = esc_byte(b);
        lemma_esc_bytes_left(a);
        let tail = esc_bytes(a.drop_first()) + seq![34u8] + rest;
        let s = esc_bytes(a) + seq![34u8] + rest;
        assert(s =~= unit + tail);
        assert(unit[0] != 34);
        lemma_unesc_step_unit(b, tail);
        assert(s.skip(unit.len() as int) =~= tail);
        lemma_read_str_body(a.drop_first(), rest);
        assert(read_str_body(s) == Some((seq![b] + a.drop_first(), rest)));
        assert(seq![b] + a.drop_first() =~= a);
    }
}

/// The escaping loses nothing: decoding an escaped string gives back
/// exactly the original bytes, so every string field of an emitted
/// record parses back to what the node put in it.
pub proof fn lemma_unesc_esc(s: Seq<u8>)
    ensures
        unesc(esc_bytes(s)) == Some(s),
    decreases s.len(),
{
    if s.len() == 0 {
        assert(esc_bytes(s).len() == 0);
        assert(unesc(esc_bytes(s)) == Some(Seq::<u8>::empty()));
        assert(s =~= Seq::<u8>::empty());
    } else {
        let b = s[0];
        let unit = esc_byte(b);
        let rest = esc_bytes(s.drop_first());
        lemma_esc_bytes_left(s);
        let whole = unit + rest;
        assert(esc_bytes(s) == whole);
        lemma_unesc_step_unit(b, rest);
        assert(whole.skip(unit.len() as int) =~= rest);
        lemma_unesc_esc(s.drop_first());
        assert(unesc(whole) == Some(seq![b] + s.drop_first()));
        assert(seq![b] + s.drop_first() =~= s);
    }
}

/// Take a known literal off the front of the stream.
pub open spec fn expect_lit(s: Seq<u8>, lit: Seq<u8>) -> Option<Seq<u8>> {
    if s.len() >= lit.len() && s.subrange(0, lit.len() as int) == lit {
        Some(s.skip(lit.len() as int))
    } else {
        None
    }
}

pub proof fn lemma_expect_lit(lit: Seq<u8>, rest: Seq<u8>)
    ensures
        expect_lit(lit + rest, lit) == Some(rest),
{
    assert((lit + rest).subrange(0, lit.len() as int) =~= lit);
    assert((lit + rest).skip(lit.len() as int) =~= rest);
}

pub open spec fn is_digit_byte(b: u8) -> bool {
    48 <= b <= 57
}

/// How many decimal digits stand at the front of the stream.
pub open spec fn digit_run(s: Seq<u8>) -> int
    decreases s.len(),
{
    if s.len() == 0 || !is_digit_byte(s[0]) {
        0
    } else {
        1 + digit_run(s.drop_first())
    }
}

pub proof fn lemma_dec_digits_are_digits(n: nat)
    ensures
        forall|i: int|
            0 <= i < dec_digits(n).len() ==> is_digit_byte(#[trigger] dec_digits(n)[i]),
    decreases n,
{
    if n >= 10 {
        lemma_dec_digits_are_digits(n / 10);
        assert forall|i: int|
            0 <= i < dec_digits(n).len() implies is_digit_byte(#[trigger] dec_digits(n)[i]) by {
            if i < dec_digits(n / 10).len() {
                assert(dec_digits(n)[i] == dec_digits(n / 10)[i]);
            } else {
                assert(dec_digits(n)[i] == (48 + n % 10) as u8);
            }
        }
    }
}

/// A digit run ends exactly where the rendered number does, whenever what
/// follows does not begin with a digit.
pub proof fn lemma_digit_run_stops(d: Seq<u8>, rest: Seq<u8>)
    requires
        forall|i: int| 0 <= i < d.len() ==> is_digit_byte(#[trigger] d[i]),
        rest.len() == 0 || !is_digit_byte(rest[0]),
    ensures
        digit_run(d + rest) == d.len(),
    decreases d.len(),
{
    if d.len() == 0 {
        assert(d + rest =~= rest);
    } else {
        assert((d + rest)[0] == d[0]);
        assert((d + rest).drop_first() =~= d.drop_first() + rest);
        lemma_digit_run_stops(d.drop_first(), rest);
    }
}

/// Read a sequence-number slot back: `null`, or a decimal number.
pub open spec fn read_opt_num(s: Seq<u8>) -> Option<(Option<int>, Seq<u8>)> {
    if s.len() >= 4 && s.subrange(0, 4) == lit_null() {
        Some((None, s.skip(4)))
    } else {
        let k = digit_run(s);
        if k > 0 {
            Some((Some(undec(s.subrange(0, k))), s.skip(k)))
        } else {
            None
        }
    }
}

/// The number slot the encoder wrote reads back as what was written,
/// whenever the next byte of the record is not a digit.
pub proof fn lemma_read_opt_num(v: Option<usize>, rest: Seq<u8>)
    requires
        rest.len() == 0 || !is_digit_byte(rest[0]),
    ensures
        read_opt_num(json_opt_num(v) + rest) == Some(
            (
                match v {
                    None => None,
                    Some(n) => Some(n as int),
                },
                rest,
            ),
        ),
{
    let s = json_opt_num(v) + rest;
    match v {
        None => {
            assert(s.subrange(0, 4) =~= lit_null());
            assert(s.skip(4) =~= rest);
        },
        Some(n) => {
            let d = dec_digits(n as nat);
            lemma_dec_digits_are_digits(n as nat);
            assert(d.len() > 0);
            assert(s[0] == d[0]);
            assert(is_digit_byte(s[0]));
            if s.len() >= 4 {
                assert(s.subrange(0, 4) != lit_null()) by {
                    assert(s.subrange(0, 4)[0] == s[0]);
                    assert(lit_null()[0] == 110u8);
                }
            }
            lemma_digit_run_stops(d, rest);
            assert(digit_run(s) == d.len());
            assert(s.subrange(0, d.len() as int) =~= d);
            lemma_undec_dec(n as nat);
            assert(s.skip(d.len() as int) =~= rest);
        },
    }
}

/// A byte that needs no escape: it rides the wire as itself.
pub open spec fn plain_byte(b: u8) -> bool {
    b >= 32 && b != 34 && b != 92
}

/// A sequence of plain bytes is its own escape.
pub proof fn lemma_esc_plain_identity(t: Seq<u8>)
    requires
        forall|i: int| 0 <= i < t.len() ==> plain_byte(#[trigger] t[i]),
    ensures
        esc_bytes(t) == t,
    decreases t.len(),
{
    if t.len() > 0 {
        lemma_esc_plain_identity(t.drop_last());
        assert(plain_byte(t.last()));
        assert(esc_byte(t.last()) =~= seq![t.last()]);
        assert(t.drop_last() + seq![t.last()] =~= t);
    }
}

/// A sequence-number slot as a reader sees it.
pub open spec fn opt_int(v: Option<usize>) -> Option<int> {
    match v {
        None => None,
        Some(n) => Some(n as int),
    }
}

/// Read a whole record back: source, destination, the two
/// sequence-number slots, the payload tag, and the payload's remaining
/// field bytes.
pub open spec fn read_record(s: Seq<u8>) -> Option<
    (Seq<u8>, Seq<u8>, Option<int>, Option<int>, Seq<u8>, Seq<u8>),
> {
    match expect_lit(s, lit_open_src()) {
        None => None,
        Some(s1) => match read_str_body(s1) {
            None => None,
            Some((src, s2)) => match expect_lit(s2, lit_mid_dest().skip(1)) {
                None => None,
                Some(s3) => match read_str_body(s3) {
                    None => None,
                    Some((dst, s4)) => match expect_lit(s4, lit_mid_body().skip(1)) {
                        None => None,
                        Some(s5) => match read_opt_num(s5) {
                            None => None,
                            Some((id, s6)) => match expect_lit(s6, lit_mid_irt()) {
                                None => None,
                                Some(s7) => match read_opt_num(s7) {
                                    None => None,
                                    Some((irt, s8)) => match expect_lit(s8, lit_mid_type()) {
                                        None => None,
                                        Some(s9) => match read_str_body(s9) {
                                            None => None,
                                            Some((tag, s10)) => {
                                                if s10.len() >= 2 && s10.skip(s10.len() - 2)
                                                    == lit_close() {
                                                    Some(
                                                        (
                                                            src,
                                                            dst,
                                                            id,
                                                            irt,
                                                            tag,
                                                            s10.take(s10.len() - 2),
                                                        ),
                                                    )
                                                } else {
                                                    None
                                                }
                                            },
                                        },
                                    },
                                },
                            },
                        },
                    },
                },
            },
        },
    }
}

/// Every record the envelope renders parses back as one complete record
/// with exactly the slots that were rendered: the reader finds each
/// field's end where the encoder put it, whatever the strings, numbers
/// and payload fields hold.
#[verifier::rlimit(100)]
pub proof fn lemma_read_record(
    src: Seq<u8>,
    dst: Seq<u8>,
    id: Option<usize>,
    irt: Option<usize>,
    tag: Seq<u8>,
    fields: Seq<u8>,
)
    requires
        forall|i: int| 0 <= i < tag.len() ==> plain_byte(#[trigger] tag[i]),
    ensures
        read_record(envelope(src, dst, id, irt, tag, fields)) == Some(
            (src, dst, opt_int(id), opt_int(irt), tag, fields),
        ),
{
    let w = envelope(src, dst, id, irt, tag, fields);
    let s_close = fields + lit_close();
    let s9 = esc_bytes(tag) + seq![34u8] + s_close;
    let s8 = lit_mid_type() + s9;
    let s7 = json_opt_num(irt) + s8;
    let s6 = lit_mid_irt() + s7;
    let s5 = json_opt_num(id) + s6;
    let s4 = lit_mid_body().skip(1) + s5;
    let s3 = esc_bytes(dst) + seq![34u8] + s4;
    let s2 = lit_mid_dest().skip(1) + s3;
    let s1 = esc_bytes(src) + seq![34u8] + s2;
    let s0 = lit_open_src() + s1;
    lemma_esc_plain_identity(tag);
    assert(w =~= s0);
    lemma_expect_lit(lit_open_src(), s1);
    lemma_read_str_body(src, s2);
    lemma_expect_lit(lit_mid_dest().skip(1), s3);
    lemma_read_str_body(dst, s4);
    lemma_expect_lit(lit_mid_body().skip(1), s5);
    assert(s6[0] == 44u8);
    lemma_read_opt_num(id, s6);
    lemma_expect_lit(lit_mid_irt(), s7);
    assert(s8[0] == 44u8);
    lemma_read_opt_num(irt, s8);
    lemma_expect_lit(lit_mid_type(), s9);
    lemma_read_str_body(tag, s_close);
    assert(s_close.len() >= 2);
    assert(s_close.skip(s_close.len() - 2) =~= lit_close());
    assert(s_close.take(s_close.len() - 2) =~= fields);
}

/// Read a JSON string, quotes included.
pub open spec fn read_json_str(s: Seq<u8>) -> Option<(Seq<u8>, Seq<u8>)> {
    if s.len() > 0 && s[0] == 34 {
        read_str_body(s.skip(1))
    } else {
        None
    }
}

pub proof fn lemma_read_json_str(a: Seq<u8>, rest: Seq<u8>)
    ensures
        read_json_str(json_str(a) + rest) == Some((a, rest)),
{
    let s = json_str(a) + rest;
    assert(s[0] == 34);
    assert(s.skip(1) =~= esc_bytes(a) + seq![34u8] + rest);
    lemma_read_str_body(a, rest);
}

/// Read one decimal number.
pub open spec fn read_num(s: Seq<u8>) -> Option<(int, Seq<u8>)> {
    let k = digit_run(s);
    if 0 < k <= s.len() {
        Some((undec(s.subrange(0, k)), s.skip(k)))
    } else {
        None
    }
}

pub proof fn lemma_digit_run_le(s: Seq<u8>)
    ensures
        0 <= digit_run(s) <= s.len(),
    decreases s.len(),
{
    if s.len() > 0 && is_digit_byte(s[0]) {
        lemma_digit_run_le(s.drop_first());
    }
}

pub proof fn lemma_read_num(n: usize, rest: Seq<u8>)
    requires
        rest.len() == 0 || !is_digit_byte(rest[0]),
    ensures
        read_num(dec_digits(n as nat) + rest) == Some((n as int, rest)),
{
    let d = dec_digits(n as nat);
    let s = d + rest;
    lemma_dec_digits_are_digits(n as nat);
    lemma_digit_run_stops(d, rest);
    assert(d.len() >= 1);
    assert(s.subrange(0, d.len() as int) =~= d);
    lemma_undec_dec(n as nat);
    assert(s.skip(d.len() as int) =~= rest);
}

/// The numbers of a sequence, as a reader recovers them.
pub open spec fn ints_of(s: Seq<usize>) -> Seq<int> {
    s.map_values(|x: usize| x as int)
}

/// Read comma-separated numbers (at least one).
pub open spec fn read_num_items(s: Seq<u8>) -> Option<(Seq<int>, Seq<u8>)>
    decreases s.len(),
{
    match read_num(s) {
        None => None,
        Some((n, r)) => {
            if r.len() > 0 && r[0] == 44 {
                match read_num_items(r.skip(1)) {
                    None => None,
                    Some((ns, r2)) => Some((seq![n] + ns, r2)),
                }
            } else {
                Some((seq![n], r))
            }
        },
    }
}

/// The comma-separated numbers read from the left: the first number's
/// rendering, then a comma and the rest.
pub proof fn lemma_num_items_left(v: Seq<usize>)
    requires
        v.len() > 0,
    ensures
        v.len() == 1 ==> num_items(v) == dec_digits(v[0] as nat),
        v.len() > 1 ==> num_items(v) == dec_digits(v[0] as nat) + (seq![44u8] + num_items(
            v.drop_first(),
        )),
    decreases v.len(),
{
    if v.len() == 1 {
    } else if v.len() == 2 {
        assert(v.drop_last().len() == 1);
        assert(v.drop_last()[0] == v[0]);
        assert(v.drop_first().len() == 1);
        assert(v.drop_first()[0] == v.last());
        assert(num_items(v.drop_last()) == dec_digits(v[0] as nat));
        assert(num_items(v.drop_first()) == dec_digits(v.last() as nat));
        assert(num_items(v) =~= dec_digits(v[0] as nat) + (seq![44u8] + num_items(
            v.drop_first(),
        )));
    } else {
        let head = v.drop_last();
        lemma_num_items_left(head);
        assert(head[0] == v[0]);
        assert(head.drop_first() =~= v.drop_first().drop_last());
        assert(v.drop_first().len() > 1);
        assert(v.drop_first().last() == v.last());
        assert(num_items(v.drop_first()) == num_items(v.drop_first().drop_last()) + seq![44u8]
            + dec_digits(v.drop_first().last() as nat));
        assert(num_items(v.drop_first().drop_last()) == num_items(head.drop_first()));
        assert(num_items(v) == (dec_digits(v[0] as nat) + (seq![44u8] + num_items(
            head.drop_first(),
        ))) + seq![44u8] + dec_digits(v.last() as nat));
        assert((dec_digits(v[0] as nat) + (seq![44u8] + num_items(head.drop_first())))
            + seq![44u8] + dec_digits(v.last() as nat) =~= dec_digits(v[0] as nat) + (seq![44u8]
            + (num_items(head.drop_first()) + seq![44u8] + dec_digits(v.last() as nat))));
    }
}

pub proof fn lemma_read_num_items(v: Seq<usize>, rest: Seq<u8>)
    requires
        v.len() > 0,
        rest.len() > 0,
        !is_digit_byte(rest[0]),
        rest[0] != 44,
    ensures
        read_num_items(num_items(v) + rest) == Some((ints_of(v), rest)),
    decreases v.len(),
{
    lemma_num_items_left(v);
    if v.len() == 1 {
        lemma_read_num(v[0], rest);
        assert(ints_of(v) =~= seq![v[0] as int]);
    } else {
        let tail_enc = seq![44u8] + (num_items(v.drop_first()) + rest);
        assert(num_items(v) + rest =~= dec_digits(v[0] as nat) + tail_enc);
        assert(!is_digit_byte(tail_enc[0]));
        lemma_read_num(v[0], tail_enc);
        assert(tail_enc[0] == 44);
        assert(tail_enc.skip(1) =~= num_items(v.drop_first()) + rest);
        lemma_read_num_items(v.drop_first(), rest);
        assert(seq![v[0] as int] + ints_of(v.drop_first()) =~= ints_of(v));
    }
}

/// Read a JSON array of numbers.
pub open spec fn read_num_array(s: Seq<u8>) -> Option<(Seq<int>, Seq<u8>)> {
    if s.len() >= 2 && s[0] == 91 && s[1] == 93 {
        Some((Seq::empty(), s.skip(2)))
    } else if s.len() > 0 && s[0] == 91 {
        match read_num_items(s.skip(1)) {
            None => None,
            Some((ns, r)) => {
                if r.len() > 0 && r[0] == 93 {
                    Some((ns, r.skip(1)))
                } else {
                    None
                }
            },
        }
    } else {
        None
    }
}

/// An array of numbers on the wire reads back as the numbers that were
/// rendered, whatever follows the array.
pub proof fn lemma_read_num_array(v: Seq<usize>, rest: Seq<u8>)
    ensures
        read_num_array(num_array(v) + rest) == Some((ints_of(v), rest)),
{
    let s = num_array(v) + rest;
    if v.len() == 0 {
        assert(num_items(v).len() == 0);
        assert(s[0] == 91 && s[1] == 93);
        assert(s.skip(2) =~= rest);
        assert(ints_of(v) =~= Seq::<int>::empty());
    } else {
        lemma_num_items_left(v);
        lemma_dec_digits_are_digits(v[0] as nat);
        assert(num_items(v)[0] == dec_digits(v[0] as nat)[0]);
        assert(s[1] == num_items(v)[0]);
        assert(is_digit_byte(s[1]));
        assert(s[1] != 93);
        let inner_rest = seq![93u8] + rest;
        assert(s.skip(1) =~= num_items(v) + inner_rest);
        assert(!is_digit_byte(inner_rest[0]) && inner_rest[0] != 44);
        lemma_read_num_items(v, inner_rest);
        assert(inner_rest.skip(1) =~= rest);
    }
}

/// A successfully read string body is shorter than its input stream.
pub proof fn lemma_read_str_body_shrinks(s: Seq<u8>)
    ensures
        match read_str_body(s) {
            Some((c, r)) => r.len() < s.len(),
            None => true,
        },
    decreases s.len(),
{
    if s.len() == 0 || s[0] == 34 {
    } else {
        match unesc_step(s) {
            None => {},
            Some((b, k)) => {
                if 0 < k <= s.len() {
                    lemma_read_str_body_shrinks(s.skip(k));
                }
            },
        }
    }
}

/// Read comma-separated JSON strings (at least one).
pub open spec fn read_str_items(s: Seq<u8>) -> Option<(Seq<Seq<u8>>, Seq<u8>)>
    decreases s.len(),
    via read_str_items_dec
{
    match read_json_str(s) {
        None => None,
        Some((c, r)) => {
            if r.len() > 0 && r[0] == 44 {
                match read_str_items(r.skip(1)) {
                    None => None,
                    Some((cs, r2)) => Some((seq![c] + cs, r2)),
                }
            } else {
                Some((seq![c], r))
            }
        },
    }
}

#[via_fn]
proof fn read_str_items_dec(s: Seq<u8>) {
    if s.len() > 0 && s[0] == 34 {
        lemma_read_str_body_shrinks(s.skip(1));
    }
}

/// The comma-separated strings read from the left: the first string's
/// rendering, then a comma and the rest.
pub proof fn lemma_str_items_left(v: Seq<Seq<u8>>)
    requires
        v.len() > 0,
    ensures
        v.len() == 1 ==> str_items(v) == json_str(v[0]),
        v.len() > 1 ==> str_items(v) == json_str(v[0]) + (seq![44u8] + str_items(
            v.drop_first(),
        )),
    decreases v.len(),
{
    if v.len() == 1 {
    } else if v.len() == 2 {
        assert(v.drop_last().len() == 1);
        assert(v.drop_last()[0] == v[0]);
        assert(v.drop_first().len() == 1);
        assert(v.drop_first()[0] == v.last());
        assert(str_items(v.drop_last()) == json_str(v[0]));
        assert(str_items(v.drop_first()) == json_str(v.last()));
        assert(str_items(v) =~= json_str(v[0]) + (seq![44u8] + str_items(v.drop_first())));
    } else {
        let head = v.drop_last();
        lemma_str_items_left(head);
        assert(head[0] == v[0]);
        assert(head.drop_first() =~= v.drop_first().drop_last());
        assert(v.drop_first().len() > 1);
        assert(v.drop_first().last() == v.last());
        assert(str_items(v.drop_first()) == str_items(v.drop_first().drop_last()) + seq![44u8]
            + json_str(v.drop_first().last()));
        assert(str_items(v.drop_first().drop_last()) == str_items(head.drop_first()));
        assert(str_items(v) == (json_str(v[0]) + (seq![44u8] + str_items(head.drop_first())))
            + seq![44u8] + json_str(v.last()));
        assert((json_str(v[0]) + (seq![44u8] + str_items(head.drop_first()))) + seq![44u8]
            + json_str(v.last()) =~= json_str(v[0]) + (seq![44u8] + (str_items(
            head.drop_first(),
        ) + seq![44u8] + json_str(v.last()))));
    }
}

pub proof fn lemma_read_str_items(v: Seq<Seq<u8>>, rest: Seq<u8>)
    requires
        v.len() > 0,
        rest.len() > 0,
        rest[0] != 44,
    ensures
        read_str_items(str_items(v) + rest) == Some((v, rest)),
    decreases v.len(),
{
    lemma_str_items_left(v);
    if v.len() == 1 {
        lemma_read_json_str(v[0], rest);
        assert(seq![v[0]] =~~= v);
    } else {
        let tail_enc = seq![44u8] + (str_items(v.drop_first()) + rest);
        assert(str_items(v) + rest =~= json_str(v[0]) + tail_enc);
        lemma_read_json_str(v[0], tail_enc);
        assert(tail_enc[0] == 44);
        assert(tail_enc.skip(1) =~= str_items(v.drop_first()) + rest);
        lemma_read_str_items(v.drop_first(), rest);
        assert(seq![v[0]] + v.drop_first() =~~= v);
    }
}

/// Read a JSON array of strings.
pub open spec fn read_str_array(s: Seq<u8>) -> Option<(Seq<Seq<u8>>, Seq<u8>)> {
    if s.len() >= 2 && s[0] == 91 && s[1] == 93 {
        Some((Seq::empty(), s.skip(2)))
    } else if s.len() > 0 && s[0] == 91 {
        match read_str_items(s.skip(1)) {
            None => None,
            Some((cs, r)) => {
                if r.len() > 0 && r[0] == 93 {
                    Some((cs, r.skip(1)))
                } else {
                    None
                }
            },
        }
    } else {
        None
    }
}

/// An array of strings on the wire reads back as the strings that were
/// rendered, whatever follows the array.
pub proof fn lemma_read_str_array(v: Seq<Seq<u8>>, rest: Seq<u8>)
    ensures
        read_str_array(str_array(v) + rest) == Some((v, rest)),
{
    let s = str_array(v) + rest;
    if v.len() == 0 {
        assert(str_items(v).len() == 0);
        assert(s[0] == 91 && s[1] == 93);
        assert(s.skip(2) =~= rest);
        assert(v =~~= Seq::<Seq<u8>>::empty());
    } else {
        lemma_str_items_left(v);
        assert(str_items(v)[0] == 34);
        assert(s[1] == str_items(v)[0]);
        let inner_rest = seq![93u8] + rest;
        assert(s.skip(1) =~= str_items(v) + inner_rest);
        lemma_read_str_items(v, inner_rest);
        assert(inner_rest.skip(1) =~= rest);
    }
}

/// A successfully read string-array is shorter than its input stream.
pub proof fn lemma_read_str_array_shrinks(s: Seq<u8>)
    ensures
        match read_str_array(s) {
            Some((cs, r)) => r.len() < s.len(),
            None => true,
        },
{
    if s.len() >= 2 && s[0] == 91 && s[1] == 93 {
    } else if s.len() > 0 && s[0] == 91 {
        lemma_read_str_items_shrinks(s.skip(1));
    }
}

/// Successfully read string items are shorter than their input stream.
pub proof fn lemma_read_str_items_shrinks(s: Seq<u8>)
    ensures
        match read_str_items(s) {
            Some((cs, r)) => r.len() < s.len(),
            None => true,
        },
    decreases s.len(),
{
    match read_json_str(s) {
        None => {},
        Some((c, r)) => {
            if s.len() > 0 && s[0] == 34 {
                lemma_read_str_body_shrinks(s.skip(1));
            }
            if r.len() > 0 && r[0] == 44 {
                lemma_read_str_items_shrinks(r.skip(1));
            }
        },
    }
}

/// One topology entry on the wire: a key against its neighbor array.
pub open spec fn read_topo_entry(s: Seq<u8>) -> Option<((Seq<u8>, Seq<Seq<u8>>), Seq<u8>)> {
    match read_json_str(s) {
        None => None,
        Some((k, r)) => {
            if r.len() > 0 && r[0] == 58 {
                match read_str_array(r.skip(1)) {
                    None => None,
                    Some((ns, r2)) => Some(((k, ns), r2)),
                }
            } else {
                None
            }
        },
    }
}

/// What a reader recovers of a topology entry.
pub open spec fn topo_entry_view(e: TopologyEntry) -> (Seq<u8>, Seq<Seq<u8>>) {
    (utf8_bytes(e.node@), strings_bytes(e.neighbors@))
}

pub proof fn lemma_read_topo_entry(e: TopologyEntry, rest: Seq<u8>)
    ensures
        read_topo_entry(topo_entry_bytes(e) + rest) == Some((topo_entry_view(e), rest)),
{
    let k = utf8_bytes(e.node@);
    let tail = seq![58u8] + (str_array(strings_bytes(e.neighbors@)) + rest);
    assert(topo_entry_bytes(e) + rest =~= json_str(k) + tail);
    lemma_read_json_str(k, tail);
    assert(tail[0] == 58);
    assert(tail.skip(1) =~= str_array(strings_bytes(e.neighbors@)) + rest);
    lemma_read_str_array(strings_bytes(e.neighbors@), rest);
}

/// A successfully read topology entry is shorter than its input stream.
pub proof fn lemma_read_topo_entry_shrinks(s: Seq<u8>)
    ensures
        match read_topo_entry(s) {
            Some((e, r)) => r.len() < s.len(),
            None => true,
        },
{
    match read_json_str(s) {
        None => {},
        Some((k, r)) => {
            if s.len() > 0 && s[0] == 34 {
                lemma_read_str_body_shrinks(s.skip(1));
            }
            if r.len() > 0 && r[0] == 58 {
                lemma_read_str_array_shrinks(r.skip(1));
            }
        },
    }
}

/// Read comma-separated topology entries (at least one).
pub open spec fn read_topo_items(s: Seq<u8>) -> Option<
    (Seq<(Seq<u8>, Seq<Seq<u8>>)>, Seq<u8>),
>
    decreases s.len(),
    via read_topo_items_dec
{
    match read_topo_entry(s) {
        None => None,
        Some((e, r)) => {
            if r.len() > 0 && r[0] == 44 {
                match read_topo_items(r.skip(1)) {
                    None => None,
                    Some((es, r2)) => Some((seq![e] + es, r2)),
                }
            } else {
                Some((seq![e], r))
            }
        },
    }
}

#[via_fn]
proof fn read_topo_items_dec(s: Seq<u8>) {
    lemma_read_topo_entry_shrinks(s);
}

/// What a reader recovers of a topology map.
pub open spec fn topo_views(t: Seq<TopologyEntry>) -> Seq<(Seq<u8>, Seq<Seq<u8>>)> {
    t.map_values(|e: TopologyEntry| topo_entry_view(e))
}

/// The comma-separated topology entries read from the left.
pub proof fn lemma_topo_items_left(t: Seq<TopologyEntry>)
    requires
        t.len() > 0,
    ensures
        t.len() == 1 ==> topo_items(t) == topo_entry_bytes(t[0]),
        t.len() > 1 ==> topo_items(t) == topo_entry_bytes(t[0]) + (seq![44u8] + topo_items(
            t.drop_first(),
        )),
    decreases t.len(),
{
    if t.len() == 1 {
    } else if t.len() == 2 {
        assert(t.drop_last().len() == 1);
        assert(t.drop_last()[0] == t[0]);
        assert(t.drop_first().len() == 1);
        assert(t.drop_first()[0] == t.last());
        assert(topo_items(t.drop_last()) == topo_entry_bytes(t[0]));
        assert(topo_items(t.drop_first()) == topo_entry_bytes(t.last()));
        assert(topo_items(t) =~= topo_entry_bytes(t[0]) + (seq![44u8] + topo_items(
            t.drop_first(),
        )));
    } else {
        let head = t.drop_last();
        lemma_topo_items_left(head);
        assert(head[0] == t[0]);
        assert(head.drop_first() =~= t.drop_first().drop_last());
        assert(t.drop_first().len() > 1);
        assert(t.drop_first().last() == t.last());
        assert(topo_items(t.drop_first()) == topo_items(t.drop_first().drop_last()) + seq![44u8]
            + topo_entry_bytes(t.drop_first().last()));
        assert(topo_items(t.drop_first().drop_last()) == topo_items(head.drop_first()));
        assert(topo_items(t) == (topo_entry_bytes(t[0]) + (seq![44u8] + topo_items(
            head.drop_first(),
        ))) + seq![44u8] + topo_entry_bytes(t.last()));
        assert((topo_entry_bytes(t[0]) + (seq![44u8] + topo_items(head.drop_first())))
            + seq![44u8] + topo_entry_bytes(t.last()) =~= topo_entry_bytes(t[0]) + (seq![44u8]
            + (topo_items(head.drop_first()) + seq![44u8] + topo_entry_bytes(t.last()))));
    }
}

pub proof fn lemma_read_topo_items(t: Seq<TopologyEntry>, rest: Seq<u8>)
    requires
        t.len() > 0,
        rest.len() > 0,
        rest[0] != 44,
    ensures
        read_topo_items(topo_items(t) + rest) == Some((topo_views(t), rest)),
    decreases t.len(),
{
    lemma_topo_items_left(t);
    if t.len() == 1 {
        lemma_read_topo_entry(t[0], rest);
        assert(seq![topo_entry_view(t[0])] =~~= topo_views(t));
    } else {
        let tail_enc = seq![44u8] + (topo_items(t.drop_first()) + rest);
        assert(topo_items(t) + rest =~= topo_entry_bytes(t[0]) + tail_enc);
        lemma_read_topo_entry(t[0], tail_enc);
        assert(tail_enc[0] == 44);
        assert(tail_enc.skip(1) =~= topo_items(t.drop_first()) + rest);
        lemma_read_topo_items(t.drop_first(), rest);
        assert(seq![topo_entry_view(t[0])] + topo_views(t.drop_first()) =~~= topo_views(t));
    }
}

/// Read a topology map.
pub open spec fn read_topo_map(s: Seq<u8>) -> Option<(Seq<(Seq<u8>, Seq<Seq<u8>>)>, Seq<u8>)> {
    if s.len() >= 2 && s[0] == 123 && s[1] == 125 {
        Some((Seq::empty(), s.skip(2)))
    } else if s.len() > 0 && s[0] == 123 {
        match read_topo_items(s.skip(1)) {
            None => None,
            Some((es, r)) => {
                if r.len() > 0 && r[0] == 125 {
                    Some((es, r.skip(1)))
                } else {
                    None
                }
            },
        }
    } else {
        None
    }
}

/// A topology map on the wire reads back as the entries that were
/// rendered, whatever follows the map.
pub proof fn lemma_read_topo_map(t: Seq<TopologyEntry>, rest: Seq<u8>)
    ensures
        read_topo_map(topo_map(t) + rest) == Some((topo_views(t), rest)),
{
    let s = topo_map(t) + rest;
    if t.len() == 0 {
        assert(topo_items(t).len() == 0);
        assert(s[0] == 123 && s[1] == 125);
        assert(s.skip(2) =~= rest);
        assert(topo_views(t) =~~= Seq::<(Seq<u8>, Seq<Seq<u8>>)>::empty());
    } else {
        lemma_topo_items_left(t);
        assert(topo_entry_bytes(t[0])[0] == 34);
        assert(topo_items(t)[0] == 34);
        assert(s[1] == topo_items(t)[0]);
        let inner_rest = seq![125u8] + rest;
        assert(s.skip(1) =~= topo_items(t) + inner_rest);
        lemma_read_topo_items(t, inner_rest);
        assert(inner_rest.skip(1) =~= rest);
    }
}

/// What a reader recovers of an init payload: the variant and its
/// fields as wire values.
pub enum InitView {
    Init { node_id: Seq<u8>, node_ids: Seq<Seq<u8>> },
    InitOk,
}

pub open spec fn init_view(p: InitPayload) -> InitView {
    match p {
        InitPayload::Init(i) => InitView::Init { node_id: utf8_bytes(i.node_id@), node_ids: strings_bytes(i.node_ids@) },
        InitPayload::InitOk => InitView::InitOk,
    }
}

/// Read an init payload back from its tag and field bytes.
pub open spec fn read_init_payload(tag: Seq<u8>, fields: Seq<u8>) -> Option<InitView> {
    if tag == lit_t_init() {
        match expect_lit(fields, lit_f_node_id()) {
            None => None,
            Some(g0) => match read_json_str(g0) {
                None => None,
                Some((v0, h0)) => {
                    match expect_lit(h0, lit_f_node_ids()) {
                        None => None,
                        Some(g1) => match read_str_array(g1) {
                            None => None,
                            Some((v1, h1)) => {
                                if h1.len() == 0 {
                                    Some(InitView::Init { node_id: v0, node_ids: v1 })
                                } else {
                                    None
                                }
                            },
                        },
                    }
                },
            },
        }
    } else if tag == lit_t_init_ok() {
        if fields.len() == 0 {
            Some(InitView::InitOk)
        } else {
            None
        }
    } else {
        None
    }
}

pub proof fn lemma_read_init_payload(p: InitPayload)
    ensures
        read_init_payload(init_tag(p), init_fields(p)) == Some(init_view(p)),
{
    match p {
        InitPayload::Init(i) => {
            assert(init_fields(p) =~= lit_f_node_id() + (json_str(utf8_bytes(i.node_id@)) + (lit_f_node_ids() + (str_array(strings_bytes(i.node_ids@)) + (Seq::<u8>::empty())))));
            lemma_expect_lit(lit_f_node_id(), (json_str(utf8_bytes(i.node_id@)) + (lit_f_node_ids() + (str_array(strings_bytes(i.node_ids@)) + (Seq::<u8>::empty())))));
            lemma_read_json_str(utf8_bytes(i.node_id@), (lit_f_node_ids() + (str_array(strings_bytes(i.node_ids@)) + (Seq::<u8>::empty()))));
            lemma_expect_lit(lit_f_node_ids(), (str_array(strings_bytes(i.node_ids@)) + (Seq::<u8>::empty())));
            lemma_read_str_array(strings_bytes(i.node_ids@), (Seq::<u8>::empty()));
        },
        InitPayload::InitOk => {
            assert(lit_t_init_ok().len() == 7);
            assert(lit_t_init().len() == 4);
            assert(lit_t_init_ok() != lit_t_init());
            assert(init_fields(p).len() == 0);
        },
    }
}

/// Read a whole init-family record: the envelope slots and the
/// payload.
pub open spec fn read_init_record(s: Seq<u8>) -> Option<
    (Seq<u8>, Seq<u8>, Option<int>, Option<int>, InitView),
> {
    match read_record(s) {
        None => None,
        Some((src, dst, id, irt, tag, fields)) => match read_init_payload(tag, fields) {
            None => None,
            Some(v) => Some((src, dst, id, irt, v)),
        },
    }
}

/// Every emitted init-family record decodes, field for field, to
/// exactly the envelope and payload the node put in it.
pub proof fn lemma_wire_init_decodes(m: Message<InitPayload>)
    ensures
        read_init_record(wire_init(m)) == Some(
            (
                utf8_bytes(m.src@),
                utf8_bytes(m.dst@),
                opt_int(m.body.id),
                opt_int(m.body.in_reply_to),
                init_view(m.body.payload),
            ),
        ),
{
    lemma_wire_init_parses_back(m);
    lemma_read_init_payload(m.body.payload);
}

/// What a reader recovers of an echo payload: the variant and its
/// fields as wire values.
pub enum EchoView {
    Echo { echo: Seq<u8> },
    EchoOk { echo: Seq<u8> },
    Init { node_id: Seq<u8>, node_ids: Seq<Seq<u8>> },
    InitOk,
}

pub open spec fn echo_view(p: EchoPayload) -> EchoView {
    match p {
        EchoPayload::Echo { echo } => EchoView::Echo { echo: utf8_bytes(echo@) },
        EchoPayload::EchoOk { echo } => EchoView::EchoOk { echo: utf8_bytes(echo@) },
        EchoPayload::Init { node_id, node_ids } => EchoView::Init { node_id: utf8_bytes(node_id@), node_ids: strings_bytes(node_ids@) },
        EchoPayload::InitOk => EchoView::InitOk,
    }
}

/// Read an echo payload back from its tag and field bytes.
pub open spec fn read_echo_payload(tag: Seq<u8>, fields: Seq<u8>) -> Option<EchoView> {
    if tag == lit_t_echo() {
        match expect_lit(fields, lit_f_echo()) {
            None => None,
            Some(g0) => match read_json_str(g0) {
                None => None,
                Some((v0, h0)) => {
                    if h0.len() == 0 {
                        Some(EchoView::Echo { echo: v0 })
                    } else {
                        None
                    }
                },
            },
        }
    } else if tag == lit_t_echo_ok() {
        match expect_lit(fields, lit_f_echo()) {
            None => None,
            Some(g0) => match read_json_str(g0) {
                None => None,
                Some((v0, h0)) => {
                    if h0.len() == 0 {
                        Some(EchoView::EchoOk { echo: v0 })
                    } else {
                        None
                    }
                },
            },
        }
    } else if tag == lit_t_init() {
        match expect_lit(fields, lit_f_node_id()) {
            None => None,
            Some(g0) => match read_json_str(g0) {
                None => None,
                Some((v0, h0)) => {
                    match expect_lit(h0, lit_f_node_ids()) {
                        None => None,
                        Some(g1) => match read_str_array(g1) {
                            None => None,
                            Some((v1, h1)) => {
                                if h1.len() == 0 {
                                    Some(EchoView::Init { node_id: v0, node_ids: v1 })
                                } else {
                                    None
                                }
                            },
                        },
                    }
                },
            },
        }
    } else if tag == lit_t_init_ok() {
        if fields.len() == 0 {
            Some(EchoView::InitOk)
        } else {
            None
        }
    } else {
        None
    }
}

pub proof fn lemma_read_echo_payload(p: EchoPayload)
    ensures
        read_echo_payload(echo_tag(p), echo_fields(p)) == Some(echo_view(p)),
{
    match p {
        EchoPayload::Echo { echo } => {
            assert(echo_fields(p) =~= lit_f_echo() + (json_str(utf8_bytes(echo@)) + (Seq::<u8>::empty())));
            lemma_expect_lit(lit_f_echo(), (json_str(utf8_bytes(echo@)) + (Seq::<u8>::empty())));
            lemma_read_json_str(utf8_bytes(echo@), (Seq::<u8>::empty()));
        },
        EchoPayload::EchoOk { echo } => {
            assert(lit_t_echo_ok().len() == 7);
            assert(lit_t_echo().len() == 4);
            assert(lit_t_echo_ok() != lit_t_echo());
            assert(echo_fields(p) =~= lit_f_echo() + (json_str(utf8_bytes(echo@)) + (Seq::<u8>::empty())));
            lemma_expect_lit(lit_f_echo(), (json_str(utf8_bytes(echo@)) + (Seq::<u8>::empty())));
            lemma_read_json_str(utf8_bytes(echo@), (Seq::<u8>::empty()));
        },
        EchoPayload::Init { node_id, node_ids } => {
            assert(lit_t_init()[0] == 105u8);
            assert(lit_t_echo()[0] == 101u8);
            assert(lit_t_init() != lit_t_echo());
            assert(lit_t_init().len() == 4);
            assert(lit_t_echo_ok().len() == 7);
            assert(lit_t_init() != lit_t_echo_ok());
            assert(echo_fields(p) =~= lit_f_node_id() + (json_str(utf8_bytes(node_id@)) + (lit_f_node_ids() + (str_array(strings_bytes(node_ids@)) + (Seq::<u8>::empty())))));
            lemma_expect_lit(lit_f_node_id(), (json_str(utf8_bytes(node_id@)) + (lit_f_node_ids() + (str_array(strings_bytes(node_ids@)) + (Seq::<u8>::empty())))));
            lemma_read_json_str(utf8_bytes(node_id@), (lit_f_node_ids() + (str_array(strings_bytes(node_ids@)) + (Seq::<u8>::empty()))));
            lemma_expect_lit(lit_f_node_ids(), (str_array(strings_bytes(node_ids@)) + (Seq::<u8>::empty())));
            lemma_read_str_array(strings_bytes(node_ids@), (Seq::<u8>::empty()));
        },
        EchoPayload::InitOk => {
            assert(lit_t_init_ok().len() == 7);
            assert(lit_t_echo().len() == 4);
            assert(lit_t_init_ok() != lit_t_echo());
            assert(lit_t_init_ok()[0] == 105u8);
            assert(lit_t_echo_ok()[0] == 101u8);
            assert(lit_t_init_ok() != lit_t_echo_ok());
            assert(lit_t_init_ok().len() == 7);
            assert(lit_t_init().len() == 4);
            assert(lit_t_init_ok() != lit_t_init());
            assert(echo_fields(p).len() == 0);
        },
    }
}

/// Read a whole echo-family record: the envelope slots and the
/// payload.
pub open spec fn read_echo_record(s: Seq<u8>) -> Option<
    (Seq<u8>, Seq<u8>, Option<int>, Option<int>, EchoView),
> {
    match read_record(s) {
        None => None,
        Some((src, dst, id, irt, tag, fields)) => match read_echo_payload(tag, fields) {
            None => None,
            Some(v) => Some((src, dst, id, irt, v)),
        },
    }
}

/// Every emitted echo-family record decodes, field for field, to
/// exactly the envelope and payload the node put in it.
pub proof fn lemma_wire_echo_decodes(m: Message<EchoPayload>)
    ensures
        read_echo_record(wire_echo(m)) == Some(
            (
                utf8_bytes(m.src@),
                utf8_bytes(m.dst@),
                opt_int(m.body.id),
                opt_int(m.body.in_reply_to),
                echo_view(m.body.payload),
            ),
        ),
{
    lemma_wire_echo_parses_back(m);
    lemma_read_echo_payload(m.body.payload);
}

/// What a reader recovers of a unique payload: the variant and its
/// fields as wire values.
pub enum UniqueView {
    Generate,
    GenerateOk { guid: Seq<u8> },
}

pub open spec fn unique_view(p: UniquePayload) -> UniqueView {
    match p {
        UniquePayload::Generate => UniqueView::Generate,
        UniquePayload::GenerateOk { guid } => UniqueView::GenerateOk { guid: utf8_bytes(guid@) },
    }
}

/// Read a unique payload back from its tag and field bytes.
pub open spec fn read_unique_payload(tag: Seq<u8>, fields: Seq<u8>) -> Option<UniqueView> {
    if tag == lit_t_generate() {
        if fields.len() == 0 {
            Some(UniqueView::Generate)
        } else {
            None
        }
    } else if tag == lit_t_generate_ok() {
        match expect_lit(fields, lit_f_id()) {
            None => None,
            Some(g0) => match read_json_str(g0) {
                None => None,
                Some((v0, h0)) => {
                    if h0.len() == 0 {
                        Some(UniqueView::GenerateOk { guid: v0 })
                    } else {
                        None
                    }
                },
            },
        }
    } else {
        None
    }
}

pub proof fn lemma_read_unique_payload(p: UniquePayload)
    ensures
        read_unique_payload(unique_tag(p), unique_fields(p)) == Some(unique_view(p)),
{
    match p {
        UniquePayload::Generate => {
            assert(unique_fields(p).len() == 0);
        },
        UniquePayload::GenerateOk { guid } => {
            assert(lit_t_generate_ok().len() == 11);
            assert(lit_t_generate().len() == 8);
            assert(lit_t_generate_ok() != lit_t_generate());
            assert(unique_fields(p) =~= lit_f_id() + (json_str(utf8_bytes(guid@)) + (Seq::<u8>::empty())));
            lemma_expect_lit(lit_f_id(), (json_str(utf8_bytes(guid@)) + (Seq::<u8>::empty())));
            lemma_read_json_str(utf8_bytes(guid@), (Seq::<u8>::empty()));
        },
    }
}

/// Read a whole unique-family record: the envelope slots and the
/// payload.
pub open spec fn read_unique_record(s: Seq<u8>) -> Option<
    (Seq<u8>, Seq<u8>, Option<int>, Option<int>, UniqueView),
> {
    match read_record(s) {
        None => None,
        Some((src, dst, id, irt, tag, fields)) => match read_unique_payload(tag, fields) {
            None => None,
            Some(v) => Some((src, dst, id, irt, v)),
        },
    }
}

/// Every emitted unique-family record decodes, field for field, to
/// exactly the envelope and payload the node put in it.
pub proof fn lemma_wire_unique_decodes(m: Message<UniquePayload>)
    ensures
        read_unique_record(wire_unique(m)) == Some(
            (
                utf8_bytes(m.src@),
                utf8_bytes(m.dst@),
                opt_int(m.body.id),
                opt_int(m.body.in_reply_to),
                unique_view(m.body.payload),
            ),
        ),
{
    lemma_wire_unique_parses_back(m);
    lemma_read_unique_payload(m.body.payload);
}

/// What a reader recovers of a broadcast payload: the variant and its
/// fields as wire values.
pub enum BroadcastView {
    Broadcast { message: int },
    BroadcastOk,
    Read,
    ReadOk { messages: Seq<int> },
    Topology { topology: Seq<(Seq<u8>, Seq<Seq<u8>>)> },
    TopologyOk,
    Gossip { seen: Seq<int> },
}

pub open spec fn broadcast_view(p: BroadcastPayload) -> BroadcastView {
    match p {
        BroadcastPayload::Broadcast { message } => BroadcastView::Broadcast { message: message as int },
        BroadcastPayload::BroadcastOk => BroadcastView::BroadcastOk,
        BroadcastPayload::Read => BroadcastView::Read,
        BroadcastPayload::ReadOk { messages } => BroadcastView::ReadOk { messages: ints_of(messages@) },
        BroadcastPayload::Topology { topology } => BroadcastView::Topology { topology: topo_views(topology@) },
        BroadcastPayload::TopologyOk => BroadcastView::TopologyOk,
        BroadcastPayload::Gossip { seen } => BroadcastView::Gossip { seen: ints_of(seen@) },
    }
}

/// Read a broadcast payload back from its tag and field bytes.
pub open spec fn read_broadcast_payload(tag: Seq<u8>, fields: Seq<u8>) -> Option<BroadcastView> {
    if tag == lit_t_broadcast() {
        match expect_lit(fields, lit_f_message()) {
            None => None,
            Some(g0) => match read_num(g0) {
                None => None,
                Some((v0, h0)) => {
                    if h0.len() == 0 {
                        Some(BroadcastView::Broadcast { message: v0 })
                    } else {
                        None
                    }
                },
            },
        }
    } else if tag == lit_t_broadcast_ok() {
        if fields.len() == 0 {
            Some(BroadcastView::BroadcastOk)
        } else {
            None
        }
    } else if tag == lit_t_read() {
        if fields.len() == 0 {
            Some(BroadcastView::Read)
        } else {
            None
        }
    } else if tag == lit_t_read_ok() {
        match expect_lit(fields, lit_f_messages()) {
            None => None,
            Some(g0) => match read_num_array(g0) {
                None => None,
                Some((v0, h0)) => {
                    if h0.len() == 0 {
                        Some(BroadcastView::ReadOk { messages: v0 })
                    } else {
                        None
                    }
                },
            },
        }
    } else if tag == lit_t_topology() {
        match expect_lit(fields, lit_f_topology()) {
            None => None,
            Some(g0) => match read_topo_map(g0) {
                None => None,
                Some((v0, h0)) => {
                    if h0.len() == 0 {
                        Some(BroadcastView::Topology { topology: v0 })
                    } else {
                        None
                    }
                },
            },
        }
    } else if tag == lit_t_topology_ok() {
        if fields.len() == 0 {
            Some(BroadcastView::TopologyOk)
        } else {
            None
        }
    } else if tag == lit_t_gossip() {
        match expect_lit(fields, lit_f_seen()) {
            None => None,
            Some(g0) => match read_num_array(g0) {
                None => None,
                Some((v0, h0)) => {
                    if h0.len() == 0 {
                        Some(BroadcastView::Gossip { seen: v0 })
                    } else {
                        None
                    }
                },
            },
        }
    } else {
        None
    }
}

pub proof fn lemma_read_broadcast_payload(p: BroadcastPayload)
    ensures
        read_broadcast_payload(broadcast_tag(p), broadcast_fields(p)) == Some(broadcast_view(p)),
{
    match p {
        BroadcastPayload::Broadcast { message } => {
            assert(broadcast_fields(p) =~= lit_f_message() + (dec_digits(message as nat) + (Seq::<u8>::empty())));
            lemma_expect_lit(lit_f_message(), (dec_digits(message as nat) + (Seq::<u8>::empty())));
            lemma_read_num(message, (Seq::<u8>::empty()));
        },
        BroadcastPayload::BroadcastOk => {
            assert(lit_t_broadcast_ok().len() == 12);
            assert(lit_t_broadcast().len() == 9);
            assert(lit_t_broadcast_ok() != lit_t_broadcast());
            assert(broadcast_fields(p).len() == 0);
        },
        BroadcastPayload::Read => {
            assert(lit_t_read().len() == 4);
            assert(lit_t_broadcast().len() == 9);
            assert(lit_t_read() != lit_t_broadcast());
            assert(lit_t_read().len() == 4);
            assert(lit_t_broadcast_ok().len() == 12);
            assert(lit_t_read() != lit_t_broadcast_ok());
            assert(broadcast_fields(p).len() == 0);
        },
        BroadcastPayload::ReadOk { messages } => {
            assert(lit_t_read_ok().len() == 7);
            assert(lit_t_broadcast().len() == 9);
            assert(lit_t_read_ok() != lit_t_broadcast());
            assert(lit_t_read_ok().len() == 7);
            assert(lit_t_broadcast_ok().len() == 12);
            assert(lit_t_read_ok() != lit_t_broadcast_ok());
            assert(lit_t_read_ok().len() == 7);
            assert(lit_t_read().len() == 4);
            assert(lit_t_read_ok() != lit_t_read());
            assert(broadcast_fields(p) =~= lit_f_messages() + (num_array(messages@) + (Seq::<u8>::empty())));
            lemma_expect_lit(lit_f_messages(), (num_array(messages@) + (Seq::<u8>::empty())));
            lemma_read_num_array(messages@, (Seq::<u8>::empty()));
        },
        BroadcastPayload::Topology { topology } => {
            assert(lit_t_topology().len() == 8);
            assert(lit_t_broadcast().len() == 9);
            assert(lit_t_topology() != lit_t_broadcast());
            assert(lit_t_topology().len() == 8);
            assert(lit_t_broadcast_ok().len() == 12);
            assert(lit_t_topology() != lit_t_broadcast_ok());
            assert(lit_t_topology().len() == 8);
            assert(lit_t_read().len() == 4);
            assert(lit_t_topology() != lit_t_read());
            assert(lit_t_topology().len() == 8);
            assert(lit_t_read_ok().len() == 7);
            assert(lit_t_topology() != lit_t_read_ok());
            assert(broadcast_fields(p) =~= lit_f_topology() + (topo_map(topology@) + (Seq::<u8>::empty())));
            lemma_expect_lit(lit_f_topology(), (topo_map(topology@) + (Seq::<u8>::empty())));
            lemma_read_topo_map(topology@, (Seq::<u8>::empty()));
        },
        BroadcastPayload::TopologyOk => {
            assert(lit_t_topology_ok().len() == 11);
            assert(lit_t_broadcast().len() == 9);
            assert(lit_t_topology_ok() != lit_t_broadcast());
            assert(lit_t_topology_ok().len() == 11);
            assert(lit_t_broadcast_ok().len() == 12);
            assert(lit_t_topology_ok() != lit_t_broadcast_ok());
            assert(lit_t_topology_ok().len() == 11);
            assert(lit_t_read().len() == 4);
            assert(lit_t_topology_ok() != lit_t_read());
            assert(lit_t_topology_ok().len() == 11);
            assert(lit_t_read_ok().len() == 7);
            assert(lit_t_topology_ok() != lit_t_read_ok());
            assert(lit_t_topology_ok().len() == 11);
            assert(lit_t_topology().len() == 8);
            assert(lit_t_topology_ok() != lit_t_topology());
            assert(broadcast_fields(p).len() == 0);
        },
        BroadcastPayload::Gossip { seen } => {
            assert(lit_t_gossip().len() == 6);
            assert(lit_t_broadcast().len() == 9);
            assert(lit_t_gossip() != lit_t_broadcast());
            assert(lit_t_gossip().len() == 6);
            assert(lit_t_broadcast_ok().len() == 12);
            assert(lit_t_gossip() != lit_t_broadcast_ok());
            assert(lit_t_gossip().len() == 6);
            assert(lit_t_read().len() == 4);
            assert(lit_t_gossip() != lit_t_read());
            assert(lit_t_gossip().len() == 6);
            assert(lit_t_read_ok().len() == 7);
            assert(lit_t_gossip() != lit_t_read_ok());
            assert(lit_t_gossip().len() == 6);
            assert(lit_t_topology().len() == 8);
            assert(lit_t_gossip() != lit_t_topology());
            assert(lit_t_gossip().len() == 6);
            assert(lit_t_topology_ok().len() == 11);
            assert(lit_t_gossip() != lit_t_topology_ok());
            assert(broadcast_fields(p) =~= lit_f_seen() + (num_array(seen@) + (Seq::<u8>::empty())));
            lemma_expect_lit(lit_f_seen(), (num_array(seen@) + (Seq::<u8>::empty())));
            lemma_read_num_array(seen@, (Seq::<u8>::empty()));
        },
    }
}

/// Read a whole broadcast-family record: the envelope slots and the
/// payload.
pub open spec fn read_broadcast_record(s: Seq<u8>) -> Option<
    (Seq<u8>, Seq<u8>, Option<int>, Option<int>, BroadcastView),
> {
    match read_record(s) {
        None => None,
        Some((src, dst, id, irt, tag, fields)) => match read_broadcast_payload(tag, fields) {
            None => None,
            Some(v) => Some((src, dst, id, irt, v)),
        },
    }
}

/// Every emitted broadcast-family record decodes, field for field, to
/// exactly the envelope and payload the node put in it.
pub proof fn lemma_wire_broadcast_decodes(m: Message<BroadcastPayload>)
    ensures
        read_broadcast_record(wire_broadcast(m)) == Some(
            (
                utf8_bytes(m.src@),
                utf8_bytes(m.dst@),
                opt_int(m.body.id),
                opt_int(m.body.in_reply_to),
                broadcast_view(m.body.payload),
            ),
        ),
{
    lemma_wire_broadcast_parses_back(m);
    lemma_read_broadcast_payload(m.body.payload);
}

/// What a reader recovers of a counter payload: the variant and its
/// fields as wire values.
pub enum CounterView {
    Add { delta: int },
    AddOk,
    Read,
    ReadOk { value: int },
}

pub open spec fn counter_view(p: CounterPayload) -> CounterView {
    match p {
        CounterPayload::Add { delta } => CounterView::Add { delta: delta as int },
        CounterPayload::AddOk => CounterView::AddOk,
        CounterPayload::Read => CounterView::Read,
        CounterPayload::ReadOk { value } => CounterView::ReadOk { value: value as int },
    }
}

/// Read a counter payload back from its tag and field bytes.
pub open spec fn read_counter_payload(tag: Seq<u8>, fields: Seq<u8>) -> Option<CounterView> {
    if tag == lit_t_add() {
        match expect_lit(fields, lit_f_delta()) {
            None => None,
            Some(g0) => match read_num(g0) {
                None => None,
                Some((v0, h0)) => {
                    if h0.len() == 0 {
                        Some(CounterView::Add { delta: v0 })
                    } else {
                        None
                    }
                },
            },
        }
    } else if tag == lit_t_add_ok() {
        if fields.len() == 0 {
            Some(CounterView::AddOk)
        } else {
            None
        }
    } else if tag == lit_t_read() {
        if fields.len() == 0 {
            Some(CounterView::Read)
        } else {
            None
        }
    } else if tag == lit_t_read_ok() {
        match expect_lit(fields, lit_f_value()) {
            None => None,
            Some(g0) => match read_num(g0) {
                None => None,
                Some((v0, h0)) => {
                    if h0.len() == 0 {
                        Some(CounterView::ReadOk { value: v0 })
                    } else {
                        None
                    }
                },
            },
        }
    } else {
        None
    }
}

pub proof fn lemma_read_counter_payload(p: CounterPayload)
    ensures
        read_counter_payload(counter_tag(p), counter_fields(p)) == Some(counter_view(p)),
{
    match p {
        CounterPayload::Add { delta } => {
            assert(counter_fields(p) =~= lit_f_delta() + (dec_digits(delta as nat) + (Seq::<u8>::empty())));
            lemma_expect_lit(lit_f_delta(), (dec_digits(delta as nat) + (Seq::<u8>::empty())));
            lemma_read_num(delta, (Seq::<u8>::empty()));
        },
        CounterPayload::AddOk => {
            assert(lit_t_add_ok().len() == 6);
            assert(lit_t_add().len() == 3);
            assert(lit_t_add_ok() != lit_t_add());
            assert(counter_fields(p).len() == 0);
        },
        CounterPayload::Read => {
            assert(lit_t_read().len() == 4);
            assert(lit_t_add().len() == 3);
            assert(lit_t_read() != lit_t_add());
            assert(lit_t_read().len() == 4);
            assert(lit_t_add_ok().len() == 6);
            assert(lit_t_read() != lit_t_add_ok());
            assert(counter_fields(p).len() == 0);
        },
        CounterPayload::ReadOk { value } => {
            assert(lit_t_read_ok().len() == 7);
            assert(lit_t_add().len() == 3);
            assert(lit_t_read_ok() != lit_t_add());
            assert(lit_t_read_ok().len() == 7);
            assert(lit_t_add_ok().len() == 6);
            assert(lit_t_read_ok() != lit_t_add_ok());
            assert(lit_t_read_ok().len() == 7);
            assert(lit_t_read().len() == 4);
            assert(lit_t_read_ok() != lit_t_read());
            assert(counter_fields(p) =~= lit_f_value() + (dec_digits(value as nat) + (Seq::<u8>::empty())));
            lemma_expect_lit(lit_f_value(), (dec_digits(value as nat) + (Seq::<u8>::empty())));
            lemma_read_num(value, (Seq::<u8>::empty()));
        },
    }
}

/// Read a whole counter-family record: the envelope slots and the
/// payload.
pub open spec fn read_counter_record(s: Seq<u8>) -> Option<
    (Seq<u8>, Seq<u8>, Option<int>, Option<int>, CounterView),
> {
    match read_record(s) {
        None => None,
        Some((src, dst, id, irt, tag, fields)) => match read_counter_payload(tag, fields) {
            None => None,
            Some(v) => Some((src, dst, id, irt, v)),
        },
    }
}

/// Every emitted counter-family record decodes, field for field, to
/// exactly the envelope and payload the node put in it.
pub proof fn lemma_wire_counter_decodes(m: Message<CounterPayload>)
    ensures
        read_counter_record(wire_counter(m)) == Some(
            (
                utf8_bytes(m.src@),
                utf8_bytes(m.dst@),
                opt_int(m.body.id),
                opt_int(m.body.in_reply_to),
                counter_view(m.body.payload),
            ),
        ),
{
    lemma_wire_counter_parses_back(m);
    lemma_read_counter_payload(m.body.payload);
}

/// What a reader recovers of a kv payload: the variant and its
/// fields as wire values.
pub enum KvView {
    Read { key: Seq<u8> },
    ReadOk { value: int },
    Cas { key: Seq<u8>, from: int, to: int },
    CasOk,
    Write { key: Seq<u8>, value: int },
    WriteOk,
    Error { code: int, text: Seq<u8> },
}

pub open spec fn kv_view(p: KvPayload) -> KvView {
    match p {
        KvPayload::Read { key } => KvView::Read { key: utf8_bytes(key@) },
        KvPayload::ReadOk { value } => KvView::ReadOk { value: value as int },
        KvPayload::Cas { key, from, to } => KvView::Cas { key: utf8_bytes(key@), from: from as int, to: to as int },
        KvPayload::CasOk => KvView::CasOk,
        KvPayload::Write { key, value } => KvView::Write { key: utf8_bytes(key@), value: value as int },
        KvPayload::WriteOk => KvView::WriteOk,
        KvPayload::Error { code, text } => KvView::Error { code: code as int, text: utf8_bytes(text@) },
    }
}

/// Read a kv payload back from its tag and field bytes.
pub open spec fn read_kv_payload(tag: Seq<u8>, fields: Seq<u8>) -> Option<KvView> {
    if tag == lit_t_read() {
        match expect_lit(fields, lit_f_key()) {
            None => None,
            Some(g0) => match read_json_str(g0) {
                None => None,
                Some((v0, h0)) => {
                    if h0.len() == 0 {
                        Some(KvView::Read { key: v0 })
                    } else {
                        None
                    }
                },
            },
        }
    } else if tag == lit_t_read_ok() {
        match expect_lit(fields, lit_f_value()) {
            None => None,
            Some(g0) => match read_num(g0) {
                None => None,
                Some((v0, h0)) => {
                    if h0.len() == 0 {
                        Some(KvView::ReadOk { value: v0 })
                    } else {
                        None
                    }
                },
            },
        }
    } else if tag == lit_t_cas() {
        match expect_lit(fields, lit_f_key()) {
            None => None,
            Some(g0) => match read_json_str(g0) {
                None => None,
                Some((v0, h0)) => {
                    match expect_lit(h0, lit_f_from()) {
                        None => None,
                        Some(g1) => match read_num(g1) {
                            None => None,
                            Some((v1, h1)) => {
                                match expect_lit(h1, lit_f_to()) {
                                    None => None,
                                    Some(g2) => match read_num(g2) {
                                        None => None,
                                        Some((v2, h2)) => {
                                            if h2.len() == 0 {
                                                Some(KvView::Cas { key: v0, from: v1, to: v2 })
                                            } else {
                                                None
                                            }
                                        },
                                    },
                                }
                            },
                        },
                    }
                },
            },
        }
    } else if tag == lit_t_cas_ok() {
        if fields.len() == 0 {
            Some(KvView::CasOk)
        } else {
            None
        }
    } else if tag == lit_t_write() {
        match expect_lit(fields, lit_f_key()) {
            None => None,
            Some(g0) => match read_json_str(g0) {
                None => None,
                Some((v0, h0)) => {
                    match expect_lit(h0, lit_f_value()) {
                        None => None,
                        Some(g1) => match read_num(g1) {
                            None => None,
                            Some((v1, h1)) => {
                                if h1.len() == 0 {
                                    Some(KvView::Write { key: v0, value: v1 })
                                } else {
                                    None
                                }
                            },
                        },
                    }
                },
            },
        }
    } else if tag == lit_t_write_ok() {
        if fields.len() == 0 {
            Some(KvView::WriteOk)
        } else {
            None
        }
    } else if tag == lit_t_error() {
        match expect_lit(fields, lit_f_code()) {
            None => None,
            Some(g0) => match read_num(g0) {
                None => None,
                Some((v0, h0)) => {
                    match expect_lit(h0, lit_f_text()) {
                        None => None,
                        Some(g1) => match read_json_str(g1) {
                            None => None,
                            Some((v1, h1)) => {
                                if h1.len() == 0 {
                                    Some(KvView::Error { code: v0, text: v1 })
                                } else {
                                    None
                                }
                            },
                        },
                    }
                },
            },
        }
    } else {
        None
    }
}

pub proof fn lemma_read_kv_payload(p: KvPayload)
    ensures
        read_kv_payload(kv_tag(p), kv_fields(p)) == Some(kv_view(p)),
{
    match p {
        KvPayload::Read { key } => {
            assert(kv_fields(p) =~= lit_f_key() + (json_str(utf8_bytes(key@)) + (Seq::<u8>::empty())));
            lemma_expect_lit(lit_f_key(), (json_str(utf8_bytes(key@)) + (Seq::<u8>::empty())));
            lemma_read_json_str(utf8_bytes(key@), (Seq::<u8>::empty()));
        },
        KvPayload::ReadOk { value } => {
            assert(lit_t_read_ok().len() == 7);
            assert(lit_t_read().len() == 4);
            assert(lit_t_read_ok() != lit_t_read());
            assert(kv_fields(p) =~= lit_f_value() + (dec_digits(value as nat) + (Seq::<u8>::empty())));
            lemma_expect_lit(lit_f_value(), (dec_digits(value as nat) + (Seq::<u8>::empty())));
            lemma_read_num(value, (Seq::<u8>::empty()));
        },
        KvPayload::Cas { key, from, to } => {
            assert(lit_t_cas().len() == 3);
            assert(lit_t_read().len() == 4);
            assert(lit_t_cas() != lit_t_read());
            assert(lit_t_cas().len() == 3);
            assert(lit_t_read_ok().len() == 7);
            assert(lit_t_cas() != lit_t_read_ok());
            assert(kv_fields(p) =~= lit_f_key() + (json_str(utf8_bytes(key@)) + (lit_f_from() + (dec_digits(from as nat) + (lit_f_to() + (dec_digits(to as nat) + (Seq::<u8>::empty())))))));
            lemma_expect_lit(lit_f_key(), (json_str(utf8_bytes(key@)) + (lit_f_from() + (dec_digits(from as nat) + (lit_f_to() + (dec_digits(to as nat) + (Seq::<u8>::empty())))))));
            lemma_read_json_str(utf8_bytes(key@), (lit_f_from() + (dec_digits(from as nat) + (lit_f_to() + (dec_digits(to as nat) + (Seq::<u8>::empty()))))));
            lemma_expect_lit(lit_f_from(), (dec_digits(from as nat) + (lit_f_to() + (dec_digits(to as nat) + (Seq::<u8>::empty())))));
            assert(!is_digit_byte((lit_f_to() + (dec_digits(to as nat) + (Seq::<u8>::empty())))[0]));
            lemma_read_num(from, (lit_f_to() + (dec_digits(to as nat) + (Seq::<u8>::empty()))));
            lemma_expect_lit(lit_f_to(), (dec_digits(to as nat) + (Seq::<u8>::empty())));
            lemma_read_num(to, (Seq::<u8>::empty()));
        },
        KvPayload::CasOk => {
            assert(lit_t_cas_ok().len() == 6);
            assert(lit_t_read().len() == 4);
            assert(lit_t_cas_ok() != lit_t_read());
            assert(lit_t_cas_ok().len() == 6);
            assert(lit_t_read_ok().len() == 7);
            assert(lit_t_cas_ok() != lit_t_read_ok());
            assert(lit_t_cas_ok().len() == 6);
            assert(lit_t_cas().len() == 3);
            assert(lit_t_cas_ok() != lit_t_cas());
            assert(kv_fields(p).len() == 0);
        },
        KvPayload::Write { key, value } => {
            assert(lit_t_write().len() == 5);
            assert(lit_t_read().len() == 4);
            assert(lit_t_write() != lit_t_read());
            assert(lit_t_write().len() == 5);
            assert(lit_t_read_ok().len() == 7);
            assert(lit_t_write() != lit_t_read_ok());
            assert(lit_t_write().len() == 5);
            assert(lit_t_cas().len() == 3);
            assert(lit_t_write() != lit_t_cas());
            assert(lit_t_write().len() == 5);
            assert(lit_t_cas_ok().len() == 6);
            assert(lit_t_write() != lit_t_cas_ok());
            assert(kv_fields(p) =~= lit_f_key() + (json_str(utf8_bytes(key@)) + (lit_f_value() + (dec_digits(value as nat) + (Seq::<u8>::empty())))));
            lemma_expect_lit(lit_f_key(), (json_str(utf8_bytes(key@)) + (lit_f_value() + (dec_digits(value as nat) + (Seq::<u8>::empty())))));
            lemma_read_json_str(utf8_bytes(key@), (lit_f_value() + (dec_digits(value as nat) + (Seq::<u8>::empty()))));
            lemma_expect_lit(lit_f_value(), (dec_digits(value as nat) + (Seq::<u8>::empty())));
            lemma_read_num(value, (Seq::<u8>::empty()));
        },
        KvPayload::WriteOk => {
            assert(lit_t_write_ok().len() == 8);
            assert(lit_t_read().len() == 4);
            assert(lit_t_write_ok() != lit_t_read());
            assert(lit_t_write_ok().len() == 8);
            assert(lit_t_read_ok().len() == 7);
            assert(lit_t_write_ok() != lit_t_read_ok());
            assert(lit_t_write_ok().len() == 8);
            assert(lit_t_cas().len() == 3);
            assert(lit_t_write_ok() != lit_t_cas());
            assert(lit_t_write_ok().len() == 8);
            assert(lit_t_cas_ok().len() == 6);
            assert(lit_t_write_ok() != lit_t_cas_ok());
            assert(lit_t_write_ok().len() == 8);
            assert(lit_t_write().len() == 5);
            assert(lit_t_write_ok() != lit_t_write());
            assert(kv_fields(p).len() == 0);
        },
        KvPayload::Error { code, text } => {
            assert(lit_t_error().len() == 5);
            assert(lit_t_read().len() == 4);
            assert(lit_t_error() != lit_t_read());
            assert(lit_t_error().len() == 5);
            assert(lit_t_read_ok().len() == 7);
            assert(lit_t_error() != lit_t_read_ok());
            assert(lit_t_error().len() == 5);
            assert(lit_t_cas().len() == 3);
            assert(lit_t_error() != lit_t_cas());
            assert(lit_t_error().len() == 5);
            assert(lit_t_cas_ok().len() == 6);
            assert(lit_t_error() != lit_t_cas_ok());
            assert(lit_t_error()[0] == 101u8);
            assert(lit_t_write()[0] == 119u8);
            assert(lit_t_error() != lit_t_write());
            assert(lit_t_error().len() == 5);
            assert(lit_t_write_ok().len() == 8);
            assert(lit_t_error() != lit_t_write_ok());
            assert(kv_fields(p) =~= lit_f_code() + (dec_digits(code as nat) + (lit_f_text() + (json_str(utf8_bytes(text@)) + (Seq::<u8>::empty())))));
            lemma_expect_lit(lit_f_code(), (dec_digits(code as nat) + (lit_f_text() + (json_str(utf8_bytes(text@)) + (Seq::<u8>::empty())))));
            assert(!is_digit_byte((lit_f_text() + (json_str(utf8_bytes(text@)) + (Seq::<u8>::empty())))[0]));
            lemma_read_num(code as usize, (lit_f_text() + (json_str(utf8_bytes(text@)) + (Seq::<u8>::empty()))));
            assert((code as usize) as nat == code as nat);
            lemma_expect_lit(lit_f_text(), (json_str(utf8_bytes(text@)) + (Seq::<u8>::empty())));
            lemma_read_json_str(utf8_bytes(text@), (Seq::<u8>::empty()));
        },
    }
}

/// Read a whole kv-family record: the envelope slots and the
/// payload.
pub open spec fn read_kv_record(s: Seq<u8>) -> Option<
    (Seq<u8>, Seq<u8>, Option<int>, Option<int>, KvView),
> {
    match read_record(s) {
        None => None,
        Some((src, dst, id, irt, tag, fields)) => match read_kv_payload(tag, fields) {
            None => None,
            Some(v) => Some((src, dst, id, irt, v)),
        },
    }
}

/// Every emitted kv-family record decodes, field for field, to
/// exactly the envelope and payload the node put in it.
pub proof fn lemma_wire_kv_decodes(m: Message<KvPayload>)
    ensures
        read_kv_record(wire_kv(m)) == Some(
            (
                utf8_bytes(m.src@),
                utf8_bytes(m.dst@),
                opt_int(m.body.id),
                opt_int(m.body.in_reply_to),
                kv_view(m.body.payload),
            ),
        ),
{
    lemma_wire_kv_parses_back(m);
    lemma_read_kv_payload(m.body.payload);
}


/// Emitted records are unambiguous in their string fields: two JSON
/// strings on the wire coincide only when the strings they carry do.
pub proof fn lemma_json_str_injective(a: Seq<u8>, b: Seq<u8>)
    requires
        json_str(a) == json_str(b),
    ensures
        a == b,
{
    let ja = json_str(a);
    let jb = json_str(b);
    assert(esc_bytes(a) =~= ja.subrange(1, ja.len() - 1));
    assert(esc_bytes(b) =~= jb.subrange(1, jb.len() - 1));
    lemma_unesc_esc(a);
    lemma_unesc_esc(b);
}

/// Emitted records are unambiguous in their number fields: two decimal
/// renderings coincide only when the numbers do.
pub proof fn lemma_dec_digits_injective(a: nat, b: nat)
    requires
        dec_digits(a) == dec_digits(b),
    ensures
        a == b,
{
    lemma_undec_dec(a);
    lemma_undec_dec(b);
}

/// Append a JSON string.
pub fn push_json_str(out: &mut Vec<u8>, s: &str)
    ensures
        final(out)@ == old(out)@ + json_str(s.spec_bytes()),
{
    out.push(34u8);
    push_escaped(out, s.as_bytes());
    out.push(34u8);
    proof {
        assert(out@ =~= old(out)@ + json_str(s.spec_bytes()));
    }
}

// ---------------------------------------------------------------------
// Fixed fragments of the wire format
// ---------------------------------------------------------------------
/// The literal text `{"src":"` of the wire format.
pub open spec fn lit_open_src() -> Seq<u8> {
    seq![123u8, 34u8, 115u8, 114u8, 99u8, 34u8, 58u8, 34u8]
}

pub fn push_open_src(out: &mut Vec<u8>)
    ensures
        final(out)@ == old(out)@ + lit_open_src(),
{
    out.push(123u8);
    out.push(34u8);
    out.push(115u8);
    out.push(114u8);
    out.push(99u8);
    out.push(34u8);
    out.push(58u8);
    out.push(34u8);
    proof {
        assert(out@ =~= old(out)@ + lit_open_src());
    }
}

/// The literal text `","dest":"` of the wire format.
pub open spec fn lit_mid_dest() -> Seq<u8> {
    seq![34u8, 44u8, 34u8, 100u8, 101u8, 115u8, 116u8, 34u8, 58u8, 34u8]
}

pub fn push_mid_dest(out: &mut Vec<u8>)
    ensures
        final(out)@ == old(out)@ + lit_mid_dest(),
{
    out.push(34u8);
    out.push(44u8);
    out.push(34u8);
    out.push(100u8);
    out.push(101u8);
    out.push(115u8);
    out.push(116u8);
    out.push(34u8);
    out.push(58u8);
    out.push(34u8);
    proof {
        assert(out@ =~= old(out)@ + lit_mid_dest());
    }
}

/// The literal text `","body":{"msg_id":` of the wire format.
pub open spec fn lit_mid_body() -> Seq<u8> {
    seq![34u8, 44u8, 34u8, 98u8, 111u8, 100u8, 121u8, 34u8, 58u8, 123u8, 34u8, 109u8, 115u8, 103u8, 95u8, 105u8, 100u8, 34u8, 58u8]
}

pub fn push_mid_body(out: &mut Vec<u8>)
    ensures
        final(out)@ == old(out)@ + lit_mid_body(),
{
    out.push(34u8);
    out.push(44u8);
    out.push(34u8);
    out.push(98u8);
    out.push(111u8);
    out.push(100u8);
    out.push(121u8);
    out.push(34u8);
    out.push(58u8);
    out.push(123u8);
    out.push(34u8);
    out.push(109u8);
    out.push(115u8);
    out.push(103u8);
    out.push(95u8);
    out.push(105u8);
    out.push(100u8);
    out.push(34u8);
    out.push(58u8);
    proof {
        assert(out@ =~= old(out)@ + lit_mid_body());
    }
}

/// The literal text `,"in_reply_to":` of the wire format.
pub open spec fn lit_mid_irt() -> Seq<u8> {
    seq![44u8, 34u8, 105u8, 110u8, 95u8, 114u8, 101u8, 112u8, 108u8, 121u8, 95u8, 116u8, 111u8, 34u8, 58u8]
}

pub fn push_mid_irt(out: &mut Vec<u8>)
    ensures
        final(out)@ == old(out)@ + lit_mid_irt(),
{
    out.push(44u8);
    out.push(34u8);
    out.push(105u8);
    out.push(110u8);
    out.push(95u8);
    out.push(114u8);
    out.push(101u8);
    out.push(112u8);
    out.push(108u8);
    out.push(121u8);
    out.push(95u8);
    out.push(116u8);
    out.push(111u8);
    out.push(34u8);
    out.push(58u8);
    proof {
        assert(out@ =~= old(out)@ + lit_mid_irt());
    }
}

/// The literal text `,"type":"` of the wire format.
pub open spec fn lit_mid_type() -> Seq<u8> {
    seq![44u8, 34u8, 116u8, 121u8, 112u8, 101u8, 34u8, 58u8, 34u8]
}

pub fn push_mid_type(out: &mut Vec<u8>)
    ensures
        final(out)@ == old(out)@ + lit_mid_type(),
{
    out.push(44u8);
    out.push(34u8);
    out.push(116u8);
    out.push(121u8);
    out.push(112u8);
    out.push(101u8);
    out.push(34u8);
    out.push(58u8);
    out.push(34u8);
    proof {
        assert(out@ =~= old(out)@ + lit_mid_type());
    }
}

/// The literal text `}}` of the wire format.
pub open spec fn lit_close() -> Seq<u8> {
    seq![125u8, 125u8]
}

pub fn push_close(out: &mut Vec<u8>)
    ensures
        final(out)@ == old(out)@ + lit_close(),
{
    out.push(125u8);
    out.push(125u8);
    proof {
        assert(out@ =~= old(out)@ + lit_close());
    }
}

/// The literal text `null` of the wire format.
pub open spec fn lit_null() -> Seq<u8> {
    seq![110u8, 117u8, 108u8, 108u8]
}

pub fn push_null(out: &mut Vec<u8>)
    ensures
        final(out)@ == old(out)@ + lit_null(),
{
    out.push(110u8);
    out.push(117u8);
    out.push(108u8);
    out.push(108u8);
    proof {
        assert(out@ =~= old(out)@ + lit_null());
    }
}

/// The literal text `,"echo":` of the wire format.
pub open spec fn lit_f_echo() -> Seq<u8> {
    seq![44u8, 34u8, 101u8, 99u8, 104u8, 111u8, 34u8, 58u8]
}

pub fn push_f_echo(out: &mut Vec<u8>)
    ensures
        final(out)@ == old(out)@ + lit_f_echo(),
{
    out.push(44u8);
    out.push(34u8);
    out.push(101u8);
    out.push(99u8);
    out.push(104u8);
    out.push(111u8);
    out.push(34u8);
    out.push(58u8);
    proof {
        assert(out@ =~= old(out)@ + lit_f_echo());
    }
}

/// The literal text `,"id":` of the wire format.
pub open spec fn lit_f_id() -> Seq<u8> {
    seq![44u8, 34u8, 105u8, 100u8, 34u8, 58u8]
}

pub fn push_f_id(out: &mut Vec<u8>)
    ensures
        final(out)@ == old(out)@ + lit_f_id(),
{
    out.push(44u8);
    out.push(34u8);
    out.push(105u8);
    out.push(100u8);
    out.push(34u8);
    out.push(58u8);
    proof {
        assert(out@ =~= old(out)@ + lit_f_id());
    }
}

/// The literal text `,"message":` of the wire format.
pub open spec fn lit_f_message() -> Seq<u8> {
    seq![44u8, 34u8, 109u8, 101u8, 115u8, 115u8, 97u8, 103u8, 101u8, 34u8, 58u8]
}

pub fn push_f_message(out: &mut Vec<u8>)
    ensures
        final(out)@ == old(out)@ + lit_f_message(),
{
    out.push(44u8);
    out.push(34u8);
    out.push(109u8);
    out.push(101u8);
    out.push(115u8);
    out.push(115u8);
    out.push(97u8);
    out.push(103u8);
    out.push(101u8);
    out.push(34u8);
    out.push(58u8);
    proof {
        assert(out@ =~= old(out)@ + lit_f_message());
    }
}

/// The literal text `,"messages":` of the wire format.
pub open spec fn lit_f_messages() -> Seq<u8> {
    seq![44u8, 34u8, 109u8, 101u8, 115u8, 115u8, 97u8, 103u8, 101u8, 115u8, 34u8, 58u8]
}

pub fn push_f_messages(out: &mut Vec<u8>)
    ensures
        final(out)@ == old(out)@ + lit_f_messages(),
{
    out.push(44u8);
    out.push(34u8);
    out.push(109u8);
    out.push(101u8);
    out.push(115u8);
    out.push(115u8);
    out.push(97u8);
    out.push(103u8);
    out.push(101u8);
    out.push(115u8);
    out.push(34u8);
    out.push(58u8);
    proof {
        assert(out@ =~= old(out)@ + lit_f_messages());
    }
}

/// The literal text `,"seen":` of the wire format.
pub open spec fn lit_f_seen() -> Seq<u8> {
    seq![44u8, 34u8, 115u8, 101u8, 101u8, 110u8, 34u8, 58u8]
}

pub fn push_f_seen(out: &mut Vec<u8>)
    ensures
        final(out)@ == old(out)@ + lit_f_seen(),
{
    out.push(44u8);
    out.push(34u8);
    out.push(115u8);
    out.push(101u8);
    out.push(101u8);
    out.push(110u8);
    out.push(34u8);
    out.push(58u8);
    proof {
        assert(out@ =~= old(out)@ + lit_f_seen());
    }
}

/// The literal text `,"topology":` of the wire format.
pub open spec fn lit_f_topology() -> Seq<u8> {
    seq![44u8, 34u8, 116u8, 111u8, 112u8, 111u8, 108u8, 111u8, 103u8, 121u8, 34u8, 58u8]
}

pub fn push_f_topology(out: &mut Vec<u8>)
    ensures
        final(out)@ == old(out)@ + lit_f_topology(),
{
    out.push(44u8);
    out.push(34u8);
    out.push(116u8);
    out.push(111u8);
    out.push(112u8);
    out.push(111u8);
    out.push(108u8);
    out.push(111u8);
    out.push(103u8);
    out.push(121u8);
    out.push(34u8);
    out.push(58u8);
    proof {
        assert(out@ =~= old(out)@ + lit_f_topology());
    }
}

/// The literal text `,"delta":` of the wire format.
pub open spec fn lit_f_delta() -> Seq<u8> {
    seq![44u8, 34u8, 100u8, 101u8, 108u8, 116u8, 97u8, 34u8, 58u8]
}

pub fn push_f_delta(out: &mut Vec<u8>)
    ensures
        final(out)@ == old(out)@ + lit_f_delta(),
{
    out.push(44u8);
    out.push(34u8);
    out.push(100u8);
    out.push(101u8);
    out.push(108u8);
    out.push(116u8);
    out.push(97u8);
    out.push(34u8);
    out.push(58u8);
    proof {
        assert(out@ =~= old(out)@ + lit_f_delta());
    }
}

/// The literal text `,"value":` of the wire format.
pub open spec fn lit_f_value() -> Seq<u8> {
    seq![44u8, 34u8, 118u8, 97u8, 108u8, 117u8, 101u8, 34u8, 58u8]
}

pub fn push_f_value(out: &mut Vec<u8>)
    ensures
        final(out)@ == old(out)@ + lit_f_value(),
{
    out.push(44u8);
    out.push(34u8);
    out.push(118u8);
    out.push(97u8);
    out.push(108u8);
    out.push(117u8);
    out.push(101u8);
    out.push(34u8);
    out.push(58u8);
    proof {
        assert(out@ =~= old(out)@ + lit_f_value());
    }
}

/// The literal text `,"key":` of the wire format.
pub open spec fn lit_f_key() -> Seq<u8> {
    seq![44u8, 34u8, 107u8, 101u8, 121u8, 34u8, 58u8]
}

pub fn push_f_key(out: &mut Vec<u8>)
    ensures
        final(out)@ == old(out)@ + lit_f_key(),
{
    out.push(44u8);
    out.push(34u8);
    out.push(107u8);
    out.push(101u8);
    out.push(121u8);
    out.push(34u8);
    out.push(58u8);
    proof {
        assert(out@ =~= old(out)@ + lit_f_key());
    }
}

/// The literal text `,"from":` of the wire format.
pub open spec fn lit_f_from() -> Seq<u8> {
    seq![44u8, 34u8, 102u8, 114u8, 111u8, 109u8, 34u8, 58u8]
}

pub fn push_f_from(out: &mut Vec<u8>)
    ensures
        final(out)@ == old(out)@ + lit_f_from(),
{
    out.push(44u8);
    out.push(34u8);
    out.push(102u8);
    out.push(114u8);
    out.push(111u8);
    out.push(109u8);
    out.push(34u8);
    out.push(58u8);
    proof {
        assert(out@ =~= old(out)@ + lit_f_from());
    }
}

/// The literal text `,"to":` of the wire format.
pub open spec fn lit_f_to() -> Seq<u8> {
    seq![44u8, 34u8, 116u8, 111u8, 34u8, 58u8]
}

pub fn push_f_to(out: &mut Vec<u8>)
    ensures
        final(out)@ == old(out)@ + lit_f_to(),
{
    out.push(44u8);
    out.push(34u8);
    out.push(116u8);
    out.push(111u8);
    out.push(34u8);
    out.push(58u8);
    proof {
        assert(out@ =~= old(out)@ + lit_f_to());
    }
}

/// The literal text `,"code":` of the wire format.
pub open spec fn lit_f_code() -> Seq<u8> {
    seq![44u8, 34u8, 99u8, 111u8, 100u8, 101u8, 34u8, 58u8]
}

pub fn push_f_code(out: &mut Vec<u8>)
    ensures
        final(out)@ == old(out)@ + lit_f_code(),
{
    out.push(44u8);
    out.push(34u8);
    out.push(99u8);
    out.push(111u8);
    out.push(100u8);
    out.push(101u8);
    out.push(34u8);
    out.push(58u8);
    proof {
        assert(out@ =~= old(out)@ + lit_f_code());
    }
}

/// The literal text `,"text":` of the wire format.
pub open spec fn lit_f_text() -> Seq<u8> {
    seq![44u8, 34u8, 116u8, 101u8, 120u8, 116u8, 34u8, 58u8]
}

pub fn push_f_text(out: &mut Vec<u8>)
    ensures
        final(out)@ == old(out)@ + lit_f_text(),
{
    out.push(44u8);
    out.push(34u8);
    out.push(116u8);
    out.push(101u8);
    out.push(120u8);
    out.push(116u8);
    out.push(34u8);
    out.push(58u8);
    proof {
        assert(out@ =~= old(out)@ + lit_f_text());
    }
}

/// The literal text `,"node_id":` of the wire format.
pub open spec fn lit_f_node_id() -> Seq<u8> {
    seq![44u8, 34u8, 110u8, 111u8, 100u8, 101u8, 95u8, 105u8, 100u8, 34u8, 58u8]
}

pub fn push_f_node_id(out: &mut Vec<u8>)
    ensures
        final(out)@ == old(out)@ + lit_f_node_id(),
{
    out.push(44u8);
    out.push(34u8);
    out.push(110u8);
    out.push(111u8);
    out.push(100u8);
    out.push(101u8);
    out.push(95u8);
    out.push(105u8);
    out.push(100u8);
    out.push(34u8);
    out.push(58u8);
    proof {
        assert(out@ =~= old(out)@ + lit_f_node_id());
    }
}

/// The literal text `,"node_ids":` of the wire format.
pub open spec fn lit_f_node_ids() -> Seq<u8> {
    seq![44u8, 34u8, 110u8, 111u8, 100u8, 101u8, 95u8, 105u8, 100u8, 115u8, 34u8, 58u8]
}

pub fn push_f_node_ids(out: &mut Vec<u8>)
    ensures
        final(out)@ == old(out)@ + lit_f_node_ids(),
{
    out.push(44u8);
    out.push(34u8);
    out.push(110u8);
    out.push(111u8);
    out.push(100u8);
    out.push(101u8);
    out.push(95u8);
    out.push(105u8);
    out.push(100u8);
    out.push(115u8);
    out.push(34u8);
    out.push(58u8);
    proof {
        assert(out@ =~= old(out)@ + lit_f_node_ids());
    }
}

/// The literal text `init` of the wire format.
pub open spec fn lit_t_init() -> Seq<u8> {
    seq![105u8, 110u8, 105u8, 116u8]
}

pub fn push_t_init(out: &mut Vec<u8>)
    ensures
        final(out)@ == old(out)@ + lit_t_init(),
{
    out.push(105u8);
    out.push(110u8);
    out.push(105u8);
    out.push(116u8);
    proof {
        assert(out@ =~= old(out)@ + lit_t_init());
    }
}

/// The literal text `init_ok` of the wire format.
pub open spec fn lit_t_init_ok() -> Seq<u8> {
    seq![105u8, 110u8, 105u8, 116u8, 95u8, 111u8, 107u8]
}

pub fn push_t_init_ok(out: &mut Vec<u8>)
    ensures
        final(out)@ == old(out)@ + lit_t_init_ok(),
{
    out.push(105u8);
    out.push(110u8);
    out.push(105u8);
    out.push(116u8);
    out.push(95u8);
    out.push(111u8);
    out.push(107u8);
    proof {
        assert(out@ =~= old(out)@ + lit_t_init_ok());
    }
}

/// The literal text `echo` of the wire format.
pub open spec fn lit_t_echo() -> Seq<u8> {
    seq![101u8, 99u8, 104u8, 111u8]
}

pub fn push_t_echo(out: &mut Vec<u8>)
    ensures
        final(out)@ == old(out)@ + lit_t_echo(),
{
    out.push(101u8);
    out.push(99u8);
    out.push(104u8);
    out.push(111u8);
    proof {
        assert(out@ =~= old(out)@ + lit_t_echo());
    }
}

/// The literal text `echo_ok` of the wire format.
pub open spec fn lit_t_echo_ok() -> Seq<u8> {
    seq![101u8, 99u8, 104u8, 111u8, 95u8, 111u8, 107u8]
}

pub fn push_t_echo_ok(out: &mut Vec<u8>)
    ensures
        final(out)@ == old(out)@ + lit_t_echo_ok(),
{
    out.push(101u8);
    out.push(99u8);
    out.push(104u8);
    out.push(111u8);
    out.push(95u8);
    out.push(111u8);
    out.push(107u8);
    proof {
        assert(out@ =~= old(out)@ + lit_t_echo_ok());
    }
}

/// The literal text `generate` of the wire format.
pub open spec fn lit_t_generate() -> Seq<u8> {
    seq![103u8, 101u8, 110u8, 101u8, 114u8, 97u8, 116u8, 101u8]
}

pub fn push_t_generate(out: &mut Vec<u8>)
    ensures
        final(out)@ == old(out)@ + lit_t_generate(),
{
    out.push(103u8);
    out.push(101u8);
    out.push(110u8);
    out.push(101u8);
    out.push(114u8);
    out.push(97u8);
    out.push(116u8);
    out.push(101u8);
    proof {
        assert(out@ =~= old(out)@ + lit_t_generate());
    }
}

/// The literal text `generate_ok` of the wire format.
pub open spec fn lit_t_generate_ok() -> Seq<u8> {
    seq![103u8, 101u8, 110u8, 101u8, 114u8, 97u8, 116u8, 101u8, 95u8, 111u8, 107u8]
}

pub fn push_t_generate_ok(out: &mut Vec<u8>)
    ensures
        final(out)@ == old(out)@ + lit_t_generate_ok(),
{
    out.push(103u8);
    out.push(101u8);
    out.push(110u8);
    out.push(101u8);
    out.push(114u8);
    out.push(97u8);
    out.push(116u8);
    out.push(101u8);
    out.push(95u8);
    out.push(111u8);
    out.push(107u8);
    proof {
        assert(out@ =~= old(out)@ + lit_t_generate_ok());
    }
}

/// The literal text `broadcast` of the wire format.
pub open spec fn lit_t_broadcast() -> Seq<u8> {
    seq![98u8, 114u8, 111u8, 97u8, 100u8, 99u8, 97u8, 115u8, 116u8]
}

pub fn push_t_broadcast(out: &mut Vec<u8>)
    ensures
        final(out)@ == old(out)@ + lit_t_broadcast(),
{
    out.push(98u8);
    out.push(114u8);
    out.push(111u8);
    out.push(97u8);
    out.push(100u8);
    out.push(99u8);
    out.push(97u8);
    out.push(115u8);
    out.push(116u8);
    proof {
        assert(out@ =~= old(out)@ + lit_t_broadcast());
    }
}

/// The literal text `broadcast_ok` of the wire format.
pub open spec fn lit_t_broadcast_ok() -> Seq<u8> {
    seq![98u8, 114u8, 111u8, 97u8, 100u8, 99u8, 97u8, 115u8, 116u8, 95u8, 111u8, 107u8]
}

pub fn push_t_broadcast_ok(out: &mut Vec<u8>)
    ensures
        final(out)@ == old(out)@ + lit_t_broadcast_ok(),
{
    out.push(98u8);
    out.push(114u8);
    out.push(111u8);
    out.push(97u8);
    out.push(100u8);
    out.push(99u8);
    out.push(97u8);
    out.push(115u8);
    out.push(116u8);
    out.push(95u8);
    out.push(111u8);
    out.push(107u8);
    proof {
        assert(out@ =~= old(out)@ + lit_t_broadcast_ok());
    }
}

/// The literal text `read` of the wire format.
pub open spec fn lit_t_read() -> Seq<u8> {
    seq![114u8, 101u8, 97u8, 100u8]
}

pub fn push_t_read(out: &mut Vec<u8>)
    ensures
        final(out)@ == old(out)@ + lit_t_read(),
{
    out.push(114u8);
    out.push(101u8);
    out.push(97u8);
    out.push(100u8);
    proof {
        assert(out@ =~= old(out)@ + lit_t_read());
    }
}

/// The literal text `read_ok` of the wire format.
pub open spec fn lit_t_read_ok() -> Seq<u8> {
    seq![114u8, 101u8, 97u8, 100u8, 95u8, 111u8, 107u8]
}

pub fn push_t_read_ok(out: &mut Vec<u8>)
    ensures
        final(out)@ == old(out)@ + lit_t_read_ok(),
{
    out.push(114u8);
    out.push(101u8);
    out.push(97u8);
    out.push(100u8);
    out.push(95u8);
    out.push(111u8);
    out.push(107u8);
    proof {
        assert(out@ =~= old(out)@ + lit_t_read_ok());
    }
}

/// The literal text `topology` of the wire format.
pub open spec fn lit_t_topology() -> Seq<u8> {
    seq![116u8, 111u8, 112u8, 111u8, 108u8, 111u8, 103u8, 121u8]
}

pub fn push_t_topology(out: &mut Vec<u8>)
    ensures
        final(out)@ == old(out)@ + lit_t_topology(),
{
    out.push(116u8);
    out.push(111u8);
    out.push(112u8);
    out.push(111u8);
    out.push(108u8);
    out.push(111u8);
    out.push(103u8);
    out.push(121u8);
    proof {
        assert(out@ =~= old(out)@ + lit_t_topology());
    }
}

/// The literal text `topology_ok` of the wire format.
pub open spec fn lit_t_topology_ok() -> Seq<u8> {
    seq![116u8, 111u8, 112u8, 111u8, 108u8, 111u8, 103u8, 121u8, 95u8, 111u8, 107u8]
}

pub fn push_t_topology_ok(out: &mut Vec<u8>)
    ensures
        final(out)@ == old(out)@ + lit_t_topology_ok(),
{
    out.push(116u8);
    out.push(111u8);
    out.push(112u8);
    out.push(111u8);
    out.push(108u8);
    out.push(111u8);
    out.push(103u8);
    out.push(121u8);
    out.push(95u8);
    out.push(111u8);
    out.push(107u8);
    proof {
        assert(out@ =~= old(out)@ + lit_t_topology_ok());
    }
}

/// The literal text `gossip` of the wire format.
pub open spec fn lit_t_gossip() -> Seq<u8> {
    seq![103u8, 111u8, 115u8, 115u8, 105u8, 112u8]
}

pub fn push_t_gossip(out: &mut Vec<u8>)
    ensures
        final(out)@ == old(out)@ + lit_t_gossip(),
{
    out.push(103u8);
    out.push(111u8);
    out.push(115u8);
    out.push(115u8);
    out.push(105u8);
    out.push(112u8);
    proof {
        assert(out@ =~= old(out)@ + lit_t_gossip());
    }
}

/// The literal text `add` of the wire format.
pub open spec fn lit_t_add() -> Seq<u8> {
    seq![97u8, 100u8, 100u8]
}

pub fn push_t_add(out: &mut Vec<u8>)
    ensures
        final(out)@ == old(out)@ + lit_t_add(),
{
    out.push(97u8);
    out.push(100u8);
    out.push(100u8);
    proof {
        assert(out@ =~= old(out)@ + lit_t_add());
    }
}

/// The literal text `add_ok` of the wire format.
pub open spec fn lit_t_add_ok() -> Seq<u8> {
    seq![97u8, 100u8, 100u8, 95u8, 111u8, 107u8]
}

pub fn push_t_add_ok(out: &mut Vec<u8>)
    ensures
        final(out)@ == old(out)@ + lit_t_add_ok(),
{
    out.push(97u8);
    out.push(100u8);
    out.push(100u8);
    out.push(95u8);
    out.push(111u8);
    out.push(107u8);
    proof {
        assert(out@ =~= old(out)@ + lit_t_add_ok());
    }
}

/// The literal text `cas` of the wire format.
pub open spec fn lit_t_cas() -> Seq<u8> {
    seq![99u8, 97u8, 115u8]
}

pub fn push_t_cas(out: &mut Vec<u8>)
    ensures
        final(out)@ == old(out)@ + lit_t_cas(),
{
    out.push(99u8);
    out.push(97u8);
    out.push(115u8);
    proof {
        assert(out@ =~= old(out)@ + lit_t_cas());
    }
}

/// The literal text `cas_ok` of the wire format.
pub open spec fn lit_t_cas_ok() -> Seq<u8> {
    seq![99u8, 97u8, 115u8, 95u8, 111u8, 107u8]
}

pub fn push_t_cas_ok(out: &mut Vec<u8>)
    ensures
        final(out)@ == old(out)@ + lit_t_cas_ok(),
{
    out.push(99u8);
    out.push(97u8);
    out.push(115u8);
    out.push(95u8);
    out.push(111u8);
    out.push(107u8);
    proof {
        assert(out@ =~= old(out)@ + lit_t_cas_ok());
    }
}

/// The literal text `write` of the wire format.
pub open spec fn lit_t_write() -> Seq<u8> {
    seq![119u8, 114u8, 105u8, 116u8, 101u8]
}

pub fn push_t_write(out: &mut Vec<u8>)
    ensures
        final(out)@ == old(out)@ + lit_t_write(),
{
    out.push(119u8);
    out.push(114u8);
    out.push(105u8);
    out.push(116u8);
    out.push(101u8);
    proof {
        assert(out@ =~= old(out)@ + lit_t_write());
    }
}

/// The literal text `write_ok` of the wire format.
pub open spec fn lit_t_write_ok() -> Seq<u8> {
    seq![119u8, 114u8, 105u8, 116u8, 101u8, 95u8, 111u8, 107u8]
}

pub fn push_t_write_ok(out: &mut Vec<u8>)
    ensures
        final(out)@ == old(out)@ + lit_t_write_ok(),
{
    out.push(119u8);
    out.push(114u8);
    out.push(105u8);
    out.push(116u8);
    out.push(101u8);
    out.push(95u8);
    out.push(111u8);
    out.push(107u8);
    proof {
        assert(out@ =~= old(out)@ + lit_t_write_ok());
    }
}

/// The literal text `error` of the wire format.
pub open spec fn lit_t_error() -> Seq<u8> {
    seq![101u8, 114u8, 114u8, 111u8, 114u8]
}

pub fn push_t_error(out: &mut Vec<u8>)
    ensures
        final(out)@ == old(out)@ + lit_t_error(),
{
    out.push(101u8);
    out.push(114u8);
    out.push(114u8);
    out.push(111u8);
    out.push(114u8);
    proof {
        assert(out@ =~= old(out)@ + lit_t_error());
    }
}



// ---------------------------------------------------------------------
// Optional sequence numbers
// ---------------------------------------------------------------------
/// A sequence-number slot: a number, or `null` when the record carries
/// none.
pub open spec fn json_opt_num(v: Option<usize>) -> Seq<u8> {
    match v {
        None => lit_null(),
        Some(n) => dec_digits(n as nat),
    }
}

pub proof fn lemma_json_opt_num_clean(v: Option<usize>)
    ensures
        line_clean(json_opt_num(v)),
{
    match v {
        None => {
            assert(line_clean(lit_null()));
        },
        Some(n) => {
            lemma_dec_digits_clean(n as nat);
        },
    }
}

pub fn push_opt_num(out: &mut Vec<u8>, v: &Option<usize>)
    ensures
        final(out)@ == old(out)@ + json_opt_num(*v),
{
    match v {
        None => push_null(out),
        Some(n) => push_num(out, *n),
    }
}

// ---------------------------------------------------------------------
// JSON arrays of numbers
// ---------------------------------------------------------------------
/// The comma-separated renderings of the numbers.
pub open spec fn num_items(s: Seq<usize>) -> Seq<u8>
    decreases s.len(),
{
    if s.len() == 0 {
        Seq::empty()
    } else if s.len() == 1 {
        dec_digits(s[0] as nat)
    } else {
        num_items(s.drop_last()) + seq![44u8] + dec_digits(s.last() as nat)
    }
}

/// A JSON array of numbers.
pub open spec fn num_array(s: Seq<usize>) -> Seq<u8> {
    seq![91u8] + num_items(s) + seq![93u8]
}

pub proof fn lemma_num_items_clean(s: Seq<usize>)
    ensures
        line_clean(num_items(s)),
    decreases s.len(),
{
    if s.len() == 0 {
    } else if s.len() == 1 {
        lemma_dec_digits_clean(s[0] as nat);
    } else {
        lemma_num_items_clean(s.drop_last());
        lemma_dec_digits_clean(s.last() as nat);
        lemma_clean_concat(num_items(s.drop_last()), seq![44u8]);
        lemma_clean_concat(num_items(s.drop_last()) + seq![44u8], dec_digits(s.last() as nat));
        assert(num_items(s) =~= (num_items(s.drop_last()) + seq![44u8]) + dec_digits(
            s.last() as nat,
        ));
    }
}

pub proof fn lemma_num_array_clean(s: Seq<usize>)
    ensures
        line_clean(num_array(s)),
{
    lemma_num_items_clean(s);
    lemma_clean_concat(seq![91u8], num_items(s));
    lemma_clean_concat(seq![91u8] + num_items(s), seq![93u8]);
    assert(num_array(s) =~= (seq![91u8] + num_items(s)) + seq![93u8]);
}

/// Append a JSON array of numbers.
pub fn push_num_array(out: &mut Vec<u8>, v: &Vec<usize>)
    ensures
        final(out)@ == old(out)@ + num_array(v@),
{
    out.push(91u8);
    proof {
        assert(v@.subrange(0, 0).len() == 0);
        assert(out@ =~= old(out)@ + seq![91u8] + num_items(v@.subrange(0, 0)));
    }
    let n = v.len();
    let mut i: usize = 0;
    while i < n
        invariant
            0 <= i <= n,
            n == v@.len(),
            out@ == old(out)@ + seq![91u8] + num_items(v@.subrange(0, i as int)),
        decreases n - i,
    {
        if i > 0 {
            out.push(44u8);
        }
        push_num(out, v[i]);
        proof {
            let post = v@.subrange(0, i + 1);
            if i == 0 {
                assert(post.len() == 1);
                assert(post[0] == v@[0]);
            } else {
                assert(post.drop_last() =~= v@.subrange(0, i as int));
                assert(post.last() == v@[i as int]);
            }
            assert(out@ =~= old(out)@ + seq![91u8] + num_items(post));
        }
        i = i + 1;
    }
    out.push(93u8);
    proof {
        assert(v@.subrange(0, n as int) =~= v@);
        assert(out@ =~= old(out)@ + num_array(v@));
    }
}

// ---------------------------------------------------------------------
// JSON arrays of strings
// ---------------------------------------------------------------------
/// The byte renderings of a sequence of strings.
pub open spec fn strings_bytes(s: Seq<String>) -> Seq<Seq<u8>> {
    s.map_values(|x: String| utf8_bytes(x@))
}

/// The comma-separated JSON strings.
pub open spec fn str_items(s: Seq<Seq<u8>>) -> Seq<u8>
    decreases s.len(),
{
    if s.len() == 0 {
        Seq::empty()
    } else if s.len() == 1 {
        json_str(s[0])
    } else {
        str_items(s.drop_last()) + seq![44u8] + json_str(s.last())
    }
}

/// A JSON array of strings.
pub open spec fn str_array(s: Seq<Seq<u8>>) -> Seq<u8> {
    seq![91u8] + str_items(s) + seq![93u8]
}

pub proof fn lemma_str_items_clean(s: Seq<Seq<u8>>)
    ensures
        line_clean(str_items(s)),
    decreases s.len(),
{
    if s.len() == 0 {
    } else if s.len() == 1 {
        lemma_json_str_clean(s[0]);
    } else {
        lemma_str_items_clean(s.drop_last());
        lemma_json_str_clean(s.last());
        lemma_clean_concat(str_items(s.drop_last()), seq![44u8]);
        lemma_clean_concat(str_items(s.drop_last()) + seq![44u8], json_str(s.last()));
        assert(str_items(s) =~= (str_items(s.drop_last()) + seq![44u8]) + json_str(s.last()));
    }
}

pub proof fn lemma_str_array_clean(s: Seq<Seq<u8>>)
    ensures
        line_clean(str_array(s)),
{
    lemma_str_items_clean(s);
    lemma_clean_concat(seq![91u8], str_items(s));
    lemma_clean_concat(seq![91u8] + str_items(s), seq![93u8]);
    assert(str_array(s) =~= (seq![91u8] + str_items(s)) + seq![93u8]);
}

/// Append a JSON array of strings.
pub fn push_str_array(out: &mut Vec<u8>, v: &Vec<String>)
    ensures
        final(out)@ == old(out)@ + str_array(strings_bytes(v@)),
{
    out.push(91u8);
    proof {
        assert(strings_bytes(v@.subrange(0, 0)).len() == 0);
        assert(out@ =~= old(out)@ + seq![91u8] + str_items(strings_bytes(v@.subrange(0, 0))));
    }
    let n = v.len();
    let mut i: usize = 0;
    while i < n
        invariant
            0 <= i <= n,
            n == v@.len(),
            out@ == old(out)@ + seq![91u8] + str_items(strings_bytes(v@.subrange(0, i as int))),
        decreases n - i,
    {
        if i > 0 {
            out.push(44u8);
        }
        push_json_str(out, v[i].as_str());
        proof {
            let post = strings_bytes(v@.subrange(0, i + 1));
            assert(post.len() == i + 1);
            assert(post.last() == utf8_bytes(v@[i as int]@));
            if i == 0 {
                assert(post[0] == utf8_bytes(v@[0]@));
            } else {
                assert(post.drop_last() =~= strings_bytes(v@.subrange(0, i as int)));
            }
            assert(out@ =~= old(out)@ + seq![91u8] + str_items(post));
        }
        i = i + 1;
    }
    out.push(93u8);
    proof {
        assert(strings_bytes(v@.subrange(0, n as int)) =~= strings_bytes(v@));
        assert(out@ =~= old(out)@ + str_array(strings_bytes(v@)));
    }
}

// ---------------------------------------------------------------------
// Topology maps
// ---------------------------------------------------------------------
/// One topology entry: the node's name against its neighbor list.
pub open spec fn topo_entry_bytes(e: TopologyEntry) -> Seq<u8> {
    json_str(utf8_bytes(e.node@)) + seq![58u8] + str_array(strings_bytes(e.neighbors@))
}

/// The comma-separated entries of a topology map.
pub open spec fn topo_items(s: Seq<TopologyEntry>) -> Seq<u8>
    decreases s.len(),
{
    if s.len() == 0 {
        Seq::empty()
    } else if s.len() == 1 {
        topo_entry_bytes(s[0])
    } else {
        topo_items(s.drop_last()) + seq![44u8] + topo_entry_bytes(s.last())
    }
}

/// A topology map as a JSON object.
pub open spec fn topo_map(s: Seq<TopologyEntry>) -> Seq<u8> {
    seq![123u8] + topo_items(s) + seq![125u8]
}

pub proof fn lemma_topo_entry_clean(e: TopologyEntry)
    ensures
        line_clean(topo_entry_bytes(e)),
{
    lemma_json_str_clean(utf8_bytes(e.node@));
    lemma_str_array_clean(strings_bytes(e.neighbors@));
    lemma_clean_concat(json_str(utf8_bytes(e.node@)), seq![58u8]);
    lemma_clean_concat(
        json_str(utf8_bytes(e.node@)) + seq![58u8],
        str_array(strings_bytes(e.neighbors@)),
    );
    assert(topo_entry_bytes(e) =~= (json_str(utf8_bytes(e.node@)) + seq![58u8]) + str_array(
        strings_bytes(e.neighbors@),
    ));
}

pub proof fn lemma_topo_items_clean(s: Seq<TopologyEntry>)
    ensures
        line_clean(topo_items(s)),
    decreases s.len(),
{
    if s.len() == 0 {
    } else if s.len() == 1 {
        lemma_topo_entry_clean(s[0]);
    } else {
        lemma_topo_items_clean(s.drop_last());
        lemma_topo_entry_clean(s.last());
        lemma_clean_concat(topo_items(s.drop_last()), seq![44u8]);
        lemma_clean_concat(topo_items(s.drop_last()) + seq![44u8], topo_entry_bytes(s.last()));
        assert(topo_items(s) =~= (topo_items(s.drop_last()) + seq![44u8]) + topo_entry_bytes(
            s.last(),
        ));
    }
}

pub proof fn lemma_topo_map_clean(s: Seq<TopologyEntry>)
    ensures
        line_clean(topo_map(s)),
{
    lemma_topo_items_clean(s);
    lemma_clean_concat(seq![123u8], topo_items(s));
    lemma_clean_concat(seq![123u8] + topo_items(s), seq![125u8]);
    assert(topo_map(s) =~= (seq![123u8] + topo_items(s)) + seq![125u8]);
}

/// Append a topology map.
pub fn push_topo_map(out: &mut Vec<u8>, v: &Vec<TopologyEntry>)
    ensures
        final(out)@ == old(out)@ + topo_map(v@),
{
    out.push(123u8);
    proof {
        assert(v@.subrange(0, 0).len() == 0);
        assert(out@ =~= old(out)@ + seq![123u8] + topo_items(v@.subrange(0, 0)));
    }
    let n = v.len();
    let mut i: usize = 0;
    while i < n
        invariant
            0 <= i <= n,
            n == v@.len(),
            out@ == old(out)@ + seq![123u8] + topo_items(v@.subrange(0, i as int)),
        decreases n - i,
    {
        if i > 0 {
            out.push(44u8);
        }
        push_json_str(out, v[i].node.as_str());
        out.push(58u8);
        push_str_array(out, &v[i].neighbors);
        proof {
            let post = v@.subrange(0, i + 1);
            if i == 0 {
                assert(post.len() == 1);
                assert(post[0] == v@[0]);
            } else {
                assert(post.drop_last() =~= v@.subrange(0, i as int));
                assert(post.last() == v@[i as int]);
            }
            assert(out@ =~= old(out)@ + seq![123u8] + topo_items(post));
        }
        i = i + 1;
    }
    out.push(125u8);
    proof {
        assert(v@.subrange(0, n as int) =~= v@);
        assert(out@ =~= old(out)@ + topo_map(v@));
    }
}

// ---------------------------------------------------------------------
// The envelope
// ---------------------------------------------------------------------
/// Everything of a record up to and including `"type":"`.
pub open spec fn env_prefix(src: Seq<u8>, dst: Seq<u8>, id: Option<usize>, irt: Option<
    usize,
>) -> Seq<u8> {
    lit_open_src() + esc_bytes(src) + lit_mid_dest() + esc_bytes(dst) + lit_mid_body()
        + json_opt_num(id) + lit_mid_irt() + json_opt_num(irt) + lit_mid_type()
}

/// A whole record: the envelope around a payload tag and the payload's
/// remaining fields.
pub open spec fn envelope(
    src: Seq<u8>,
    dst: Seq<u8>,
    id: Option<usize>,
    irt: Option<usize>,
    tag: Seq<u8>,
    fields: Seq<u8>,
) -> Seq<u8> {
    env_prefix(src, dst, id, irt) + tag + seq![34u8] + fields + lit_close()
}

pub proof fn lemma_env_prefix_clean(src: Seq<u8>, dst: Seq<u8>, id: Option<usize>, irt: Option<
    usize,
>)
    ensures
        line_clean(env_prefix(src, dst, id, irt)),
{
    lemma_esc_bytes_clean(src);
    lemma_esc_bytes_clean(dst);
    lemma_json_opt_num_clean(id);
    lemma_json_opt_num_clean(irt);
    assert forall|i: int| 0 <= i < env_prefix(src, dst, id, irt).len() implies env_prefix(
        src,
        dst,
        id,
        irt,
    )[i] != 10u8 by {
        let a1 = lit_open_src();
        let a2 = a1 + esc_bytes(src);
        let a3 = a2 + lit_mid_dest();
        let a4 = a3 + esc_bytes(dst);
        let a5 = a4 + lit_mid_body();
        let a6 = a5 + json_opt_num(id);
        let a7 = a6 + lit_mid_irt();
        let a8 = a7 + json_opt_num(irt);
        lemma_clean_concat(a1, esc_bytes(src));
        lemma_clean_concat(a2, lit_mid_dest());
        lemma_clean_concat(a3, esc_bytes(dst));
        lemma_clean_concat(a4, lit_mid_body());
        lemma_clean_concat(a5, json_opt_num(id));
        lemma_clean_concat(a6, lit_mid_irt());
        lemma_clean_concat(a7, json_opt_num(irt));
        lemma_clean_concat(a8, lit_mid_type());
        assert(env_prefix(src, dst, id, irt) =~= a8 + lit_mid_type());
    }
}

pub proof fn lemma_envelope_clean(
    src: Seq<u8>,
    dst: Seq<u8>,
    id: Option<usize>,
    irt: Option<usize>,
    tag: Seq<u8>,
    fields: Seq<u8>,
)
    requires
        line_clean(tag),
        line_clean(fields),
    ensures
        line_clean(envelope(src, dst, id, irt, tag, fields)),
{
    lemma_env_prefix_clean(src, dst, id, irt);
    let b1 = env_prefix(src, dst, id, irt);
    let b2 = b1 + tag;
    let b3 = b2 + seq![34u8];
    let b4 = b3 + fields;
    lemma_clean_concat(b1, tag);
    lemma_clean_concat(b2, seq![34u8]);
    lemma_clean_concat(b3, fields);
    lemma_clean_concat(b4, lit_close());
    assert(envelope(src, dst, id, irt, tag, fields) =~= b4 + lit_close());
}

/// Append everything of a record up to and including `"type":"`.
pub fn push_env_prefix(
    out: &mut Vec<u8>,
    src: &str,
    dst: &str,
    id: &Option<usize>,
    irt: &Option<usize>,
)
    ensures
        final(out)@ == old(out)@ + env_prefix(src.spec_bytes(), dst.spec_bytes(), *id, *irt),
{
    push_open_src(out);
    push_escaped(out, src.as_bytes());
    push_mid_dest(out);
    push_escaped(out, dst.as_bytes());
    push_mid_body(out);
    push_opt_num(out, id);
    push_mid_irt(out);
    push_opt_num(out, irt);
    push_mid_type(out);
    proof {
        assert(out@ =~= old(out)@ + env_prefix(src.spec_bytes(), dst.spec_bytes(), *id, *irt));
    }
}

// ---------------------------------------------------------------------
// Records of the init payload namespace
// ---------------------------------------------------------------------
/// The wire tag of the payload variant.
pub open spec fn init_tag(p: InitPayload) -> Seq<u8> {
    match p {
        InitPayload::Init(_) => lit_t_init(),
        InitPayload::InitOk => lit_t_init_ok(),
    }
}

/// The payload's fields as they follow the tag on the wire.
pub open spec fn init_fields(p: InitPayload) -> Seq<u8> {
    match p {
        InitPayload::Init(i) => lit_f_node_id() + json_str(utf8_bytes(i.node_id@)) + lit_f_node_ids() + str_array(strings_bytes(i.node_ids@)),
        InitPayload::InitOk => Seq::<u8>::empty(),
    }
}

/// The full record carrying a init payload.
pub open spec fn wire_init(m: Message<InitPayload>) -> Seq<u8> {
    envelope(
        utf8_bytes(m.src@),
        utf8_bytes(m.dst@),
        m.body.id,
        m.body.in_reply_to,
        init_tag(m.body.payload),
        init_fields(m.body.payload),
    )
}

pub proof fn lemma_wire_init_clean(m: Message<InitPayload>)
    ensures
        line_clean(wire_init(m)),
{
    let p = m.body.payload;
    match p {
        InitPayload::Init(i) => {
            assert(line_clean(lit_t_init()));
            assert(line_clean(lit_f_node_id()));
            lemma_json_str_clean(utf8_bytes(i.node_id@));
            assert(line_clean(lit_f_node_ids()));
            lemma_str_array_clean(strings_bytes(i.node_ids@));
            lemma_clean_concat(lit_f_node_id(), json_str(utf8_bytes(i.node_id@)));
            lemma_clean_concat(lit_f_node_id() + json_str(utf8_bytes(i.node_id@)), lit_f_node_ids());
            lemma_clean_concat(lit_f_node_id() + json_str(utf8_bytes(i.node_id@)) + lit_f_node_ids(), str_array(strings_bytes(i.node_ids@)));
        },
        InitPayload::InitOk => {
            assert(line_clean(lit_t_init_ok()));
        },
    }
    lemma_envelope_clean(
        utf8_bytes(m.src@),
        utf8_bytes(m.dst@),
        m.body.id,
        m.body.in_reply_to,
        init_tag(p),
        init_fields(p),
    );
}

/// Render a init-payload record as the bytes of one output line
/// (without the newline).
pub fn encode_init(m: &Message<InitPayload>) -> (r: Vec<u8>)
    ensures
        r@ == wire_init(*m),
        line_clean(r@),
{
    let mut out: Vec<u8> = Vec::new();
    push_env_prefix(&mut out, m.src.as_str(), m.dst.as_str(), &m.body.id, &m.body.in_reply_to);
    match &m.body.payload {
        InitPayload::Init(i) => {
            push_t_init(&mut out);
            out.push(34u8);
            push_f_node_id(&mut out);
            push_json_str(&mut out, i.node_id.as_str());
            push_f_node_ids(&mut out);
            push_str_array(&mut out, &i.node_ids);
            push_close(&mut out);
            proof {
                assert(out@ =~= wire_init(*m));
            }
        },
        InitPayload::InitOk => {
            push_t_init_ok(&mut out);
            out.push(34u8);
            push_close(&mut out);
            proof {
                assert(out@ =~= wire_init(*m));
            }
        },
    }
    proof {
        lemma_wire_init_clean(*m);
    }
    out
}

// ---------------------------------------------------------------------
// Records of the echo payload namespace
// ---------------------------------------------------------------------
/// The wire tag of the payload variant.
pub open spec fn echo_tag(p: EchoPayload) -> Seq<u8> {
    match p {
        EchoPayload::Echo { .. } => lit_t_echo(),
        EchoPayload::EchoOk { .. } => lit_t_echo_ok(),
        EchoPayload::Init { .. } => lit_t_init(),
        EchoPayload::InitOk => lit_t_init_ok(),
    }
}

/// The payload's fields as they follow the tag on the wire.
pub open spec fn echo_fields(p: EchoPayload) -> Seq<u8> {
    match p {
        EchoPayload::Echo { echo } => lit_f_echo() + json_str(utf8_bytes(echo@)),
        EchoPayload::EchoOk { echo } => lit_f_echo() + json_str(utf8_bytes(echo@)),
        EchoPayload::Init { node_id, node_ids } => lit_f_node_id() + json_str(utf8_bytes(node_id@)) + lit_f_node_ids() + str_array(strings_bytes(node_ids@)),
        EchoPayload::InitOk => Seq::<u8>::empty(),
    }
}

/// The full record carrying a echo payload.
pub open spec fn wire_echo(m: Message<EchoPayload>) -> Seq<u8> {
    envelope(
        utf8_bytes(m.src@),
        utf8_bytes(m.dst@),
        m.body.id,
        m.body.in_reply_to,
        echo_tag(m.body.payload),
        echo_fields(m.body.payload),
    )
}

pub proof fn lemma_wire_echo_clean(m: Message<EchoPayload>)
    ensures
        line_clean(wire_echo(m)),
{
    let p = m.body.payload;
    match p {
        EchoPayload::Echo { echo } => {
            assert(line_clean(lit_t_echo()));
            assert(line_clean(lit_f_echo()));
            lemma_json_str_clean(utf8_bytes(echo@));
            lemma_clean_concat(lit_f_echo(), json_str(utf8_bytes(echo@)));
        },
        EchoPayload::EchoOk { echo } => {
            assert(line_clean(lit_t_echo_ok()));
            assert(line_clean(lit_f_echo()));
            lemma_json_str_clean(utf8_bytes(echo@));
            lemma_clean_concat(lit_f_echo(), json_str(utf8_bytes(echo@)));
        },
        EchoPayload::Init { node_id, node_ids } => {
            assert(line_clean(lit_t_init()));
            assert(line_clean(lit_f_node_id()));
            lemma_json_str_clean(utf8_bytes(node_id@));
            assert(line_clean(lit_f_node_ids()));
            lemma_str_array_clean(strings_bytes(node_ids@));
            lemma_clean_concat(lit_f_node_id(), json_str(utf8_bytes(node_id@)));
            lemma_clean_concat(lit_f_node_id() + json_str(utf8_bytes(node_id@)), lit_f_node_ids());
            lemma_clean_concat(lit_f_node_id() + json_str(utf8_bytes(node_id@)) + lit_f_node_ids(), str_array(strings_bytes(node_ids@)));
        },
        EchoPayload::InitOk => {
            assert(line_clean(lit_t_init_ok()));
        },
    }
    lemma_envelope_clean(
        utf8_bytes(m.src@),
        utf8_bytes(m.dst@),
        m.body.id,
        m.body.in_reply_to,
        echo_tag(p),
        echo_fields(p),
    );
}

/// Render a echo-payload record as the bytes of one output line
/// (without the newline).
pub fn encode_echo(m: &Message<EchoPayload>) -> (r: Vec<u8>)
    ensures
        r@ == wire_echo(*m),
        line_clean(r@),
{
    let mut out: Vec<u8> = Vec::new();
    push_env_prefix(&mut out, m.src.as_str(), m.dst.as_str(), &m.body.id, &m.body.in_reply_to);
    match &m.body.payload {
        EchoPayload::Echo { echo } => {
            push_t_echo(&mut out);
            out.push(34u8);
            push_f_echo(&mut out);
            push_json_str(&mut out, echo.as_str());
            push_close(&mut out);
            proof {
                assert(out@ =~= wire_echo(*m));
            }
        },
        EchoPayload::EchoOk { echo } => {
            push_t_echo_ok(&mut out);
            out.push(34u8);
            push_f_echo(&mut out);
            push_json_str(&mut out, echo.as_str());
            push_close(&mut out);
            proof {
                assert(out@ =~= wire_echo(*m));
            }
        },
        EchoPayload::Init { node_id, node_ids } => {
            push_t_init(&mut out);
            out.push(34u8);
            push_f_node_id(&mut out);
            push_json_str(&mut out, node_id.as_str());
            push_f_node_ids(&mut out);
            push_str_array(&mut out, node_ids);
            push_close(&mut out);
            proof {
                assert(out@ =~= wire_echo(*m));
            }
        },
        EchoPayload::InitOk => {
            push_t_init_ok(&mut out);
            out.push(34u8);
            push_close(&mut out);
            proof {
                assert(out@ =~= wire_echo(*m));
            }
        },
    }
    proof {
        lemma_wire_echo_clean(*m);
    }
    out
}

// ---------------------------------------------------------------------
// Records of the unique payload namespace
// ---------------------------------------------------------------------
/// The wire tag of the payload variant.
pub open spec fn unique_tag(p: UniquePayload) -> Seq<u8> {
    match p {
        UniquePayload::Generate => lit_t_generate(),
        UniquePayload::GenerateOk { .. } => lit_t_generate_ok(),
    }
}

/// The payload's fields as they follow the tag on the wire.
pub open spec fn unique_fields(p: UniquePayload) -> Seq<u8> {
    match p {
        UniquePayload::Generate => Seq::<u8>::empty(),
        UniquePayload::GenerateOk { guid } => lit_f_id() + json_str(utf8_bytes(guid@)),
    }
}

/// The full record carrying a unique payload.
pub open spec fn wire_unique(m: Message<UniquePayload>) -> Seq<u8> {
    envelope(
        utf8_bytes(m.src@),
        utf8_bytes(m.dst@),
        m.body.id,
        m.body.in_reply_to,
        unique_tag(m.body.payload),
        unique_fields(m.body.payload),
    )
}

pub proof fn lemma_wire_unique_clean(m: Message<UniquePayload>)
    ensures
        line_clean(wire_unique(m)),
{
    let p = m.body.payload;
    match p {
        UniquePayload::Generate => {
            assert(line_clean(lit_t_generate()));
        },
        UniquePayload::GenerateOk { guid } => {
            assert(line_clean(lit_t_generate_ok()));
            assert(line_clean(lit_f_id()));
            lemma_json_str_clean(utf8_bytes(guid@));
            lemma_clean_concat(lit_f_id(), json_str(utf8_bytes(guid@)));
        },
    }
    lemma_envelope_clean(
        utf8_bytes(m.src@),
        utf8_bytes(m.dst@),
        m.body.id,
        m.body.in_reply_to,
        unique_tag(p),
        unique_fields(p),
    );
}

/// Render a unique-payload record as the bytes of one output line
/// (without the newline).
pub fn encode_unique(m: &Message<UniquePayload>) -> (r: Vec<u8>)
    ensures
        r@ == wire_unique(*m),
        line_clean(r@),
{
    let mut out: Vec<u8> = Vec::new();
    push_env_prefix(&mut out, m.src.as_str(), m.dst.as_str(), &m.body.id, &m.body.in_reply_to);
    match &m.body.payload {
        UniquePayload::Generate => {
            push_t_generate(&mut out);
            out.push(34u8);
            push_close(&mut out);
            proof {
                assert(out@ =~= wire_unique(*m));
            }
        },
        UniquePayload::GenerateOk { guid } => {
            push_t_generate_ok(&mut out);
            out.push(34u8);
            push_f_id(&mut out);
            push_json_str(&mut out, guid.as_str());
            push_close(&mut out);
            proof {
                assert(out@ =~= wire_unique(*m));
            }
        },
    }
    proof {
        lemma_wire_unique_clean(*m);
    }
    out
}

// ---------------------------------------------------------------------
// Records of the broadcast payload namespace
// ---------------------------------------------------------------------
/// The wire tag of the payload variant.
pub open spec fn broadcast_tag(p: BroadcastPayload) -> Seq<u8> {
    match p {
        BroadcastPayload::Broadcast { .. } => lit_t_broadcast(),
        BroadcastPayload::BroadcastOk => lit_t_broadcast_ok(),
        BroadcastPayload::Read => lit_t_read(),
        BroadcastPayload::ReadOk { .. } => lit_t_read_ok(),
        BroadcastPayload::Topology { .. } => lit_t_topology(),
        BroadcastPayload::TopologyOk => lit_t_topology_ok(),
        BroadcastPayload::Gossip { .. } => lit_t_gossip(),
    }
}

/// The payload's fields as they follow the tag on the wire.
pub open spec fn broadcast_fields(p: BroadcastPayload) -> Seq<u8> {
    match p {
        BroadcastPayload::Broadcast { message } => lit_f_message() + dec_digits(message as nat),
        BroadcastPayload::BroadcastOk => Seq::<u8>::empty(),
        BroadcastPayload::Read => Seq::<u8>::empty(),
        BroadcastPayload::ReadOk { messages } => lit_f_messages() + num_array(messages@),
        BroadcastPayload::Topology { topology } => lit_f_topology() + topo_map(topology@),
        BroadcastPayload::TopologyOk => Seq::<u8>::empty(),
        BroadcastPayload::Gossip { seen } => lit_f_seen() + num_array(seen@),
    }
}

/// The full record carrying a broadcast payload.
pub open spec fn wire_broadcast(m: Message<BroadcastPayload>) -> Seq<u8> {
    envelope(
        utf8_bytes(m.src@),
        utf8_bytes(m.dst@),
        m.body.id,
        m.body.in_reply_to,
        broadcast_tag(m.body.payload),
        broadcast_fields(m.body.payload),
    )
}

pub proof fn lemma_wire_broadcast_clean(m: Message<BroadcastPayload>)
    ensures
        line_clean(wire_broadcast(m)),
{
    let p = m.body.payload;
    match p {
        BroadcastPayload::Broadcast { message } => {
            assert(line_clean(lit_t_broadcast()));
            assert(line_clean(lit_f_message()));
            lemma_dec_digits_clean(message as nat);
            lemma_clean_concat(lit_f_message(), dec_digits(message as nat));
        },
        BroadcastPayload::BroadcastOk => {
            assert(line_clean(lit_t_broadcast_ok()));
        },
        BroadcastPayload::Read => {
            assert(line_clean(lit_t_read()));
        },
        BroadcastPayload::ReadOk { messages } => {
            assert(line_clean(lit_t_read_ok()));
            assert(line_clean(lit_f_messages()));
            lemma_num_array_clean(messages@);
            lemma_clean_concat(lit_f_messages(), num_array(messages@));
        },
        BroadcastPayload::Topology { topology } => {
            assert(line_clean(lit_t_topology()));
            assert(line_clean(lit_f_topology()));
            lemma_topo_map_clean(topology@);
            lemma_clean_concat(lit_f_topology(), topo_map(topology@));
        },
        BroadcastPayload::TopologyOk => {
            assert(line_clean(lit_t_topology_ok()));
        },
        BroadcastPayload::Gossip { seen } => {
            assert(line_clean(lit_t_gossip()));
            assert(line_clean(lit_f_seen()));
            lemma_num_array_clean(seen@);
            lemma_clean_concat(lit_f_seen(), num_array(seen@));
        },
    }
    lemma_envelope_clean(
        utf8_bytes(m.src@),
        utf8_bytes(m.dst@),
        m.body.id,
        m.body.in_reply_to,
        broadcast_tag(p),
        broadcast_fields(p),
    );
}

/// Render a broadcast-payload record as the bytes of one output line
/// (without the newline).
pub fn encode_broadcast(m: &Message<BroadcastPayload>) -> (r: Vec<u8>)
    ensures
        r@ == wire_broadcast(*m),
        line_clean(r@),
{
    let mut out: Vec<u8> = Vec::new();
    push_env_prefix(&mut out, m.src.as_str(), m.dst.as_str(), &m.body.id, &m.body.in_reply_to);
    match &m.body.payload {
        BroadcastPayload::Broadcast { message } => {
            push_t_broadcast(&mut out);
            out.push(34u8);
            push_f_message(&mut out);
            push_num(&mut out, *message);
            push_close(&mut out);
            proof {
                assert(out@ =~= wire_broadcast(*m));
            }
        },
        BroadcastPayload::BroadcastOk => {
            push_t_broadcast_ok(&mut out);
            out.push(34u8);
            push_close(&mut out);
            proof {
                assert(out@ =~= wire_broadcast(*m));
            }
        },
        BroadcastPayload::Read => {
            push_t_read(&mut out);
            out.push(34u8);
            push_close(&mut out);
            proof {
                assert(out@ =~= wire_broadcast(*m));
            }
        },
        BroadcastPayload::ReadOk { messages } => {
            push_t_read_ok(&mut out);
            out.push(34u8);
            push_f_messages(&mut out);
            push_num_array(&mut out, messages);
            push_close(&mut out);
            proof {
                assert(out@ =~= wire_broadcast(*m));
            }
        },
        BroadcastPayload::Topology { topology } => {
            push_t_topology(&mut out);
            out.push(34u8);
            push_f_topology(&mut out);
            push_topo_map(&mut out, topology);
            push_close(&mut out);
            proof {
                assert(out@ =~= wire_broadcast(*m));
            }
        },
        BroadcastPayload::TopologyOk => {
            push_t_topology_ok(&mut out);
            out.push(34u8);
            push_close(&mut out);
            proof {
                assert(out@ =~= wire_broadcast(*m));
            }
        },
        BroadcastPayload::Gossip { seen } => {
            push_t_gossip(&mut out);
            out.push(34u8);
            push_f_seen(&mut out);
            push_num_array(&mut out, seen);
            push_close(&mut out);
            proof {
                assert(out@ =~= wire_broadcast(*m));
            }
        },
    }
    proof {
        lemma_wire_broadcast_clean(*m);
    }
    out
}

// ---------------------------------------------------------------------
// Records of the counter payload namespace
// ---------------------------------------------------------------------
/// The wire tag of the payload variant.
pub open spec fn counter_tag(p: CounterPayload) -> Seq<u8> {
    match p {
        CounterPayload::Add { .. } => lit_t_add(),
        CounterPayload::AddOk => lit_t_add_ok(),
        CounterPayload::Read => lit_t_read(),
        CounterPayload::ReadOk { .. } => lit_t_read_ok(),
    }
}

/// The payload's fields as they follow the tag on the wire.
pub open spec fn counter_fields(p: CounterPayload) -> Seq<u8> {
    match p {
        CounterPayload::Add { delta } => lit_f_delta() + dec_digits(delta as nat),
        CounterPayload::AddOk => Seq::<u8>::empty(),
        CounterPayload::Read => Seq::<u8>::empty(),
        CounterPayload::ReadOk { value } => lit_f_value() + dec_digits(value as nat),
    }
}

/// The full record carrying a counter payload.
pub open spec fn wire_counter(m: Message<CounterPayload>) -> Seq<u8> {
    envelope(
        utf8_bytes(m.src@),
        utf8_bytes(m.dst@),
        m.body.id,
        m.body.in_reply_to,
        counter_tag(m.body.payload),
        counter_fields(m.body.payload),
    )
}

pub proof fn lemma_wire_counter_clean(m: Message<CounterPayload>)
    ensures
        line_clean(wire_counter(m)),
{
    let p = m.body.payload;
    match p {
        CounterPayload::Add { delta } => {
            assert(line_clean(lit_t_add()));
            assert(line_clean(lit_f_delta()));
            lemma_dec_digits_clean(delta as nat);
            lemma_clean_concat(lit_f_delta(), dec_digits(delta as nat));
        },
        CounterPayload::AddOk => {
            assert(line_clean(lit_t_add_ok()));
        },
        CounterPayload::Read => {
            assert(line_clean(lit_t_read()));
        },
        CounterPayload::ReadOk { value } => {
            assert(line_clean(lit_t_read_ok()));
            assert(line_clean(lit_f_value()));
            lemma_dec_digits_clean(value as nat);
            lemma_clean_concat(lit_f_value(), dec_digits(value as nat));
        },
    }
    lemma_envelope_clean(
        utf8_bytes(m.src@),
        utf8_bytes(m.dst@),
        m.body.id,
        m.body.in_reply_to,
        counter_tag(p),
        counter_fields(p),
    );
}

/// Render a counter-payload record as the bytes of one output line
/// (without the newline).
pub fn encode_counter(m: &Message<CounterPayload>) -> (r: Vec<u8>)
    ensures
        r@ == wire_counter(*m),
        line_clean(r@),
{
    let mut out: Vec<u8> = Vec::new();
    push_env_prefix(&mut out, m.src.as_str(), m.dst.as_str(), &m.body.id, &m.body.in_reply_to);
    match &m.body.payload {
        CounterPayload::Add { delta } => {
            push_t_add(&mut out);
            out.push(34u8);
            push_f_delta(&mut out);
            push_num(&mut out, *delta);
            push_close(&mut out);
            proof {
                assert(out@ =~= wire_counter(*m));
            }
        },
        CounterPayload::AddOk => {
            push_t_add_ok(&mut out);
            out.push(34u8);
            push_close(&mut out);
            proof {
                assert(out@ =~= wire_counter(*m));
            }
        },
        CounterPayload::Read => {
            push_t_read(&mut out);
            out.push(34u8);
            push_close(&mut out);
            proof {
                assert(out@ =~= wire_counter(*m));
            }
        },
        CounterPayload::ReadOk { value } => {
            push_t_read_ok(&mut out);
            out.push(34u8);
            push_f_value(&mut out);
            push_num(&mut out, *value);
            push_close(&mut out);
            proof {
                assert(out@ =~= wire_counter(*m));
            }
        },
    }
    proof {
        lemma_wire_counter_clean(*m);
    }
    out
}

// ---------------------------------------------------------------------
// Records of the kv payload namespace
// ---------------------------------------------------------------------
/// The wire tag of the payload variant.
pub open spec fn kv_tag(p: KvPayload) -> Seq<u8> {
    match p {
        KvPayload::Read { .. } => lit_t_read(),
        KvPayload::ReadOk { .. } => lit_t_read_ok(),
        KvPayload::Cas { .. } => lit_t_cas(),
        KvPayload::CasOk => lit_t_cas_ok(),
        KvPayload::Write { .. } => lit_t_write(),
        KvPayload::WriteOk => lit_t_write_ok(),
        KvPayload::Error { .. } => lit_t_error(),
    }
}

/// The payload's fields as they follow the tag on the wire.
pub open spec fn kv_fields(p: KvPayload) -> Seq<u8> {
    match p {
        KvPayload::Read { key } => lit_f_key() + json_str(utf8_bytes(key@)),
        KvPayload::ReadOk { value } => lit_f_value() + dec_digits(value as nat),
        KvPayload::Cas { key, from, to } => lit_f_key() + json_str(utf8_bytes(key@)) + lit_f_from() + dec_digits(from as nat) + lit_f_to() + dec_digits(to as nat),
        KvPayload::CasOk => Seq::<u8>::empty(),
        KvPayload::Write { key, value } => lit_f_key() + json_str(utf8_bytes(key@)) + lit_f_value() + dec_digits(value as nat),
        KvPayload::WriteOk => Seq::<u8>::empty(),
        KvPayload::Error { code, text } => lit_f_code() + dec_digits(code as nat) + lit_f_text() + json_str(utf8_bytes(text@)),
    }
}

/// The full record carrying a kv payload.
pub open spec fn wire_kv(m: Message<KvPayload>) -> Seq<u8> {
    envelope(
        utf8_bytes(m.src@),
        utf8_bytes(m.dst@),
        m.body.id,
        m.body.in_reply_to,
        kv_tag(m.body.payload),
        kv_fields(m.body.payload),
    )
}

pub proof fn lemma_wire_kv_clean(m: Message<KvPayload>)
    ensures
        line_clean(wire_kv(m)),
{
    let p = m.body.payload;
    match p {
        KvPayload::Read { key } => {
            assert(line_clean(lit_t_read()));
            assert(line_clean(lit_f_key()));
            lemma_json_str_clean(utf8_bytes(key@));
            lemma_clean_concat(lit_f_key(), json_str(utf8_bytes(key@)));
        },
        KvPayload::ReadOk { value } => {
            assert(line_clean(lit_t_read_ok()));
            assert(line_clean(lit_f_value()));
            lemma_dec_digits_clean(value as nat);
            lemma_clean_concat(lit_f_value(), dec_digits(value as nat));
        },
        KvPayload::Cas { key, from, to } => {
            assert(line_clean(lit_t_cas()));
            assert(line_clean(lit_f_key()));
            lemma_json_str_clean(utf8_bytes(key@));
            assert(line_clean(lit_f_from()));
            lemma_dec_digits_clean(from as nat);
            assert(line_clean(lit_f_to()));
            lemma_dec_digits_clean(to as nat);
            lemma_clean_concat(lit_f_key(), json_str(utf8_bytes(key@)));
            lemma_clean_concat(lit_f_key() + json_str(utf8_bytes(key@)), lit_f_from());
            lemma_clean_concat(lit_f_key() + json_str(utf8_bytes(key@)) + lit_f_from(), dec_digits(from as nat));
            lemma_clean_concat(lit_f_key() + json_str(utf8_bytes(key@)) + lit_f_from() + dec_digits(from as nat), lit_f_to());
            lemma_clean_concat(lit_f_key() + json_str(utf8_bytes(key@)) + lit_f_from() + dec_digits(from as nat) + lit_f_to(), dec_digits(to as nat));
        },
        KvPayload::CasOk => {
            assert(line_clean(lit_t_cas_ok()));
        },
        KvPayload::Write { key, value } => {
            assert(line_clean(lit_t_write()));
            assert(line_clean(lit_f_key()));
            lemma_json_str_clean(utf8_bytes(key@));
            assert(line_clean(lit_f_value()));
            lemma_dec_digits_clean(value as nat);
            lemma_clean_concat(lit_f_key(), json_str(utf8_bytes(key@)));
            lemma_clean_concat(lit_f_key() + json_str(utf8_bytes(key@)), lit_f_value());
            lemma_clean_concat(lit_f_key() + json_str(utf8_bytes(key@)) + lit_f_value(), dec_digits(value as nat));
        },
        KvPayload::WriteOk => {
            assert(line_clean(lit_t_write_ok()));
        },
        KvPayload::Error { code, text } => {
            assert(line_clean(lit_t_error()));
            assert(line_clean(lit_f_code()));
            lemma_dec_digits_clean(code as nat);
            assert(line_clean(lit_f_text()));
            lemma_json_str_clean(utf8_bytes(text@));
            lemma_clean_concat(lit_f_code(), dec_digits(code as nat));
            lemma_clean_concat(lit_f_code() + dec_digits(code as nat), lit_f_text());
            lemma_clean_concat(lit_f_code() + dec_digits(code as nat) + lit_f_text(), json_str(utf8_bytes(text@)));
        },
    }
    lemma_envelope_clean(
        utf8_bytes(m.src@),
        utf8_bytes(m.dst@),
        m.body.id,
        m.body.in_reply_to,
        kv_tag(p),
        kv_fields(p),
    );
}

/// Render a kv-payload record as the bytes of one output line
/// (without the newline).
#[verifier::rlimit(50)]
pub fn encode_kv(m: &Message<KvPayload>) -> (r: Vec<u8>)
    ensures
        r@ == wire_kv(*m),
        line_clean(r@),
{
    let mut out: Vec<u8> = Vec::new();
    push_env_prefix(&mut out, m.src.as_str(), m.dst.as_str(), &m.body.id, &m.body.in_reply_to);
    match &m.body.payload {
        KvPayload::Read { key } => {
            push_t_read(&mut out);
            out.push(34u8);
            push_f_key(&mut out);
            push_json_str(&mut out, key.as_str());
            push_close(&mut out);
            proof {
                assert(out@ =~= wire_kv(*m));
            }
        },
        KvPayload::ReadOk { value } => {
            push_t_read_ok(&mut out);
            out.push(34u8);
            push_f_value(&mut out);
            push_num(&mut out, *value);
            push_close(&mut out);
            proof {
                assert(out@ =~= wire_kv(*m));
            }
        },
        KvPayload::Cas { key, from, to } => {
            push_t_cas(&mut out);
            out.push(34u8);
            push_f_key(&mut out);
            push_json_str(&mut out, key.as_str());
            push_f_from(&mut out);
            push_num(&mut out, *from);
            push_f_to(&mut out);
            push_num(&mut out, *to);
            push_close(&mut out);
            proof {
                assert(out@ =~= wire_kv(*m));
            }
        },
        KvPayload::CasOk => {
            push_t_cas_ok(&mut out);
            out.push(34u8);
            push_close(&mut out);
            proof {
                assert(out@ =~= wire_kv(*m));
            }
        },
        KvPayload::Write { key, value } => {
            push_t_write(&mut out);
            out.push(34u8);
            push_f_key(&mut out);
            push_json_str(&mut out, key.as_str());
            push_f_value(&mut out);
            push_num(&mut out, *value);
            push_close(&mut out);
            proof {
                assert(out@ =~= wire_kv(*m));
            }
        },
        KvPayload::WriteOk => {
            push_t_write_ok(&mut out);
            out.push(34u8);
            push_close(&mut out);
            proof {
                assert(out@ =~= wire_kv(*m));
            }
        },
        KvPayload::Error { code, text } => {
            push_t_error(&mut out);
            out.push(34u8);
            push_f_code(&mut out);
            push_num(&mut out, *code as usize);
            push_f_text(&mut out);
            push_json_str(&mut out, text.as_str());
            push_close(&mut out);
            proof {
                assert(out@ =~= wire_kv(*m));
            }
        },
    }
    proof {
        lemma_wire_kv_clean(*m);
    }
    out
}


/// Every emitted record of the init family parses back as one
/// complete record carrying exactly the envelope and payload that the
/// node put in it.
pub proof fn lemma_wire_init_parses_back(m: Message<InitPayload>)
    ensures
        read_record(wire_init(m)) == Some(
            (
                utf8_bytes(m.src@),
                utf8_bytes(m.dst@),
                opt_int(m.body.id),
                opt_int(m.body.in_reply_to),
                init_tag(m.body.payload),
                init_fields(m.body.payload),
            ),
        ),
{
    let tag = init_tag(m.body.payload);
    assert(forall|i: int| 0 <= i < tag.len() ==> plain_byte(#[trigger] tag[i])) by {
        match m.body.payload {
            InitPayload::Init(_) => {},
            InitPayload::InitOk => {},
        }
    }
    lemma_read_record(
        utf8_bytes(m.src@),
        utf8_bytes(m.dst@),
        m.body.id,
        m.body.in_reply_to,
        tag,
        init_fields(m.body.payload),
    );
}

/// Every emitted record of the echo family parses back as one
/// complete record carrying exactly the envelope and payload that the
/// node put in it.
pub proof fn lemma_wire_echo_parses_back(m: Message<EchoPayload>)
    ensures
        read_record(wire_echo(m)) == Some(
            (
                utf8_bytes(m.src@),
                utf8_bytes(m.dst@),
                opt_int(m.body.id),
                opt_int(m.body.in_reply_to),
                echo_tag(m.body.payload),
                echo_fields(m.body.payload),
            ),
        ),
{
    let tag = echo_tag(m.body.payload);
    assert(forall|i: int| 0 <= i < tag.len() ==> plain_byte(#[trigger] tag[i])) by {
        match m.body.payload {
            EchoPayload::Echo { .. } => {},
            EchoPayload::EchoOk { .. } => {},
            EchoPayload::Init { .. } => {},
            EchoPayload::InitOk => {},
        }
    }
    lemma_read_record(
        utf8_bytes(m.src@),
        utf8_bytes(m.dst@),
        m.body.id,
        m.body.in_reply_to,
        tag,
        echo_fields(m.body.payload),
    );
}

/// Every emitted record of the unique family parses back as one
/// complete record carrying exactly the envelope and payload that the
/// node put in it.
pub proof fn lemma_wire_unique_parses_back(m: Message<UniquePayload>)
    ensures
        read_record(wire_unique(m)) == Some(
            (
                utf8_bytes(m.src@),
                utf8_bytes(m.dst@),
                opt_int(m.body.id),
                opt_int(m.body.in_reply_to),
                unique_tag(m.body.payload),
                unique_fields(m.body.payload),
            ),
        ),
{
    let tag = unique_tag(m.body.payload);
    assert(forall|i: int| 0 <= i < tag.len() ==> plain_byte(#[trigger] tag[i])) by {
        match m.body.payload {
            UniquePayload::Generate => {},
            UniquePayload::GenerateOk { .. } => {},
        }
    }
    lemma_read_record(
        utf8_bytes(m.src@),
        utf8_bytes(m.dst@),
        m.body.id,
        m.body.in_reply_to,
        tag,
        unique_fields(m.body.payload),
    );
}

/// Every emitted record of the broadcast family parses back as one
/// complete record carrying exactly the envelope and payload that the
/// node put in it.
pub proof fn lemma_wire_broadcast_parses_back(m: Message<BroadcastPayload>)
    ensures
        read_record(wire_broadcast(m)) == Some(
            (
                utf8_bytes(m.src@),
                utf8_bytes(m.dst@),
                opt_int(m.body.id),
                opt_int(m.body.in_reply_to),
                broadcast_tag(m.body.payload),
                broadcast_fields(m.body.payload),
            ),
        ),
{
    let tag = broadcast_tag(m.body.payload);
    assert(forall|i: int| 0 <= i < tag.len() ==> plain_byte(#[trigger] tag[i])) by {
        match m.body.payload {
            BroadcastPayload::Broadcast { .. } => {},
            BroadcastPayload::BroadcastOk => {},
            BroadcastPayload::Read => {},
            BroadcastPayload::ReadOk { .. } => {},
            BroadcastPayload::Topology { .. } => {},
            BroadcastPayload::TopologyOk => {},
            BroadcastPayload::Gossip { .. } => {},
        }
    }
    lemma_read_record(
        utf8_bytes(m.src@),
        utf8_bytes(m.dst@),
        m.body.id,
        m.body.in_reply_to,
        tag,
        broadcast_fields(m.body.payload),
    );
}

/// Every emitted record of the counter family parses back as one
/// complete record carrying exactly the envelope and payload that the
/// node put in it.
pub proof fn lemma_wire_counter_parses_back(m: Message<CounterPayload>)
    ensures
        read_record(wire_counter(m)) == Some(
            (
                utf8_bytes(m.src@),
                utf8_bytes(m.dst@),
                opt_int(m.body.id),
                opt_int(m.body.in_reply_to),
                counter_tag(m.body.payload),
                counter_fields(m.body.payload),
            ),
        ),
{
    let tag = counter_tag(m.body.payload);
    assert(forall|i: int| 0 <= i < tag.len() ==> plain_byte(#[trigger] tag[i])) by {
        match m.body.payload {
            CounterPayload::Add { .. } => {},
            CounterPayload::AddOk => {},
            CounterPayload::Read => {},
            CounterPayload::ReadOk { .. } => {},
        }
    }
    lemma_read_record(
        utf8_bytes(m.src@),
        utf8_bytes(m.dst@),
        m.body.id,
        m.body.in_reply_to,
        tag,
        counter_fields(m.body.payload),
    );
}

/// Every emitted record of the kv family parses back as one
/// complete record carrying exactly the envelope and payload that the
/// node put in it.
pub proof fn lemma_wire_kv_parses_back(m: Message<KvPayload>)
    ensures
        read_record(wire_kv(m)) == Some(
            (
                utf8_bytes(m.src@),
                utf8_bytes(m.dst@),
                opt_int(m.body.id),
                opt_int(m.body.in_reply_to),
                kv_tag(m.body.payload),
                kv_fields(m.body.payload),
            ),
        ),
{
    let tag = kv_tag(m.body.payload);
    assert(forall|i: int| 0 <= i < tag.len() ==> plain_byte(#[trigger] tag[i])) by {
        match m.body.payload {
            KvPayload::Read { .. } => {},
            KvPayload::ReadOk { .. } => {},
            KvPayload::Cas { .. } => {},
            KvPayload::CasOk => {},
            KvPayload::Write { .. } => {},
            KvPayload::WriteOk => {},
            KvPayload::Error { .. } => {},
        }
    }
    lemma_read_record(
        utf8_bytes(m.src@),
        utf8_bytes(m.dst@),
        m.body.id,
        m.body.in_reply_to,
        tag,
        kv_fields(m.body.payload),
    );
}

} // verus!
