//! The tagged, human-readable wire encoding of application events.
//!
//! An event is carried in an operation body as a JSON object with exactly
//! one field: `{"Post":"<escaped text>"}` or `{"Follow":"<64 hex digits>"}`.
//! Text is escaped as a JSON string (quote, backslash and control bytes
//! escaped, everything else raw); a followed key is written as lowercase
//! hex. The decoder accepts exactly the canonical encodings the encoder
//! produces and insists that post text is valid UTF-8, so decoding is
//! lossless and rejects everything else.
use vstd::prelude::*;

use crate::operation::{ButtEvent, EventView};
use vstd::utf8::valid_utf8;

verus! {

pub const QUOTE: u8 = 0x22;
pub const BACKSLASH: u8 = 0x5c;
pub const LBRACE: u8 = 0x7b;
pub const RBRACE: u8 = 0x7d;

// ---------------------------------------------------------------------
// Hex
// ---------------------------------------------------------------------
/// The lowercase hex digit for a value below 16.
pub open spec fn hex_digit(n: u8) -> u8 {
    if n < 10 {
        (0x30 + n) as u8
    } else {
        (0x57 + n) as u8
    }
}

/// Lowercase hex encoding of a byte string, two digits per byte.
pub open spec fn hex_of(b: Seq<u8>) -> Seq<u8>
    decreases b.len(),
{
    if b.len() == 0 {
        Seq::empty()
    } else {
        seq![hex_digit(b.first() / 16), hex_digit(b.first() % 16)] + hex_of(b.drop_first())
    }
}

/// The value of one lowercase hex digit, `None` for any other byte.
pub open spec fn hex_val(c: u8) -> Option<u8> {
    if 0x30 <= c <= 0x39 {
        Some((c - 0x30) as u8)
    } else if 0x61 <= c <= 0x66 {
        Some((c - 0x57) as u8)
    } else {
        None
    }
}

/// Strict decoding of an even-length string of lowercase hex digits.
pub open spec fn dehex(s: Seq<u8>) -> Option<Seq<u8>>
    decreases s.len(),
{
    if s.len() == 0 {
        Some(Seq::empty())
    } else if s.len() == 1 {
        None
    } else {
        match (hex_val(s[0]), hex_val(s[1])) {
            (Some(h), Some(l)) => match dehex(s.skip(2)) {
                Some(t) => Some(seq![(16 * h + l) as u8] + t),
                None => None,
            },
            _ => None,
        }
    }
}

pub proof fn lemma_hex_of_len(b: Seq<u8>)
    ensures
        hex_of(b).len() == 2 * b.len(),
    decreases b.len(),
{
    if b.len() > 0 {
        lemma_hex_of_len(b.drop_first());
    }
}

pub proof fn lemma_hex_of_concat(a: Seq<u8>, b: Seq<u8>)
    ensures
        hex_of(a + b) == hex_of(a) + hex_of(b),
    decreases a.len(),
{
    if a.len() == 0 {
        assert(a + b =~= b);
        assert(hex_of(a) + hex_of(b) =~= hex_of(b));
    } else {
        assert((a + b).first() == a.first());
        assert((a + b).drop_first() =~= a.drop_first() + b);
        lemma_hex_of_concat(a.drop_first(), b);
        assert(seq![hex_digit(a.first() / 16), hex_digit(a.first() % 16)] + (hex_of(
            a.drop_first(),
        ) + hex_of(b)) =~= (seq![hex_digit(a.first() / 16), hex_digit(a.first() % 16)] + hex_of(
            a.drop_first(),
        )) + hex_of(b));
    }
}

/// Each hex digit decodes back to the value it encodes.
pub proof fn lemma_hex_val_digit(n: u8)
    requires
        n < 16,
    ensures
        hex_val(hex_digit(n)) == Some(n),
{
}

/// A byte that decodes as a hex digit is the canonical digit of its value.
pub proof fn lemma_digit_of_hex_val(c: u8)
    ensures
        hex_val(c) matches Some(n) ==> n < 16 && hex_digit(n) == c,
{
}

/// Decoding inverts encoding: `dehex(hex_of(b)) == Some(b)`.
pub proof fn lemma_dehex_of_hex(b: Seq<u8>)
    ensures
        dehex(hex_of(b)) == Some(b),
    decreases b.len(),
{
    if b.len() == 0 {
        assert(hex_of(b).len() == 0);
    } else {
        let s = hex_of(b);
        lemma_hex_of_len(b);
        lemma_hex_val_digit(b.first() / 16);
        lemma_hex_val_digit(b.first() % 16);
        assert(s[0] == hex_digit(b.first() / 16));
        assert(s[1] == hex_digit(b.first() % 16));
        let c = b.first();
        assert(16 * (c / 16) + c % 16 == c) by (bit_vector);
        lemma_dehex_of_hex(b.drop_first());
        assert(s.skip(2) =~= hex_of(b.drop_first()));
        assert(seq![b.first()] + b.drop_first() =~= b);
    }
}

/// Decoding is strict: a successful decode pins the input to the canonical
/// hex encoding of the result.
pub proof fn lemma_dehex_sound(s: Seq<u8>)
    ensures
        dehex(s) matches Some(b) ==> s == hex_of(b) && s.len() == 2 * b.len(),
    decreases s.len(),
{
    if s.len() >= 2 {
        if let (Some(h), Some(l)) = (hex_val(s[0]), hex_val(s[1])) {
            lemma_dehex_sound(s.skip(2));
            if let Some(t) = dehex(s.skip(2)) {
                let b0 = (16 * h + l) as u8;
                let b = seq![b0] + t;
                assert(h < 16 && l < 16) by {
                    lemma_digit_of_hex_val(s[0]);
                    lemma_digit_of_hex_val(s[1]);
                }
                assert(b0 / 16 == h && b0 % 16 == l) by (bit_vector)
                    requires
                        h < 16 && l < 16 && b0 == (16 * h + l) as u8,
                ;
                lemma_digit_of_hex_val(s[0]);
                lemma_digit_of_hex_val(s[1]);
                assert(b.first() == b0);
                assert(b.drop_first() =~= t);
                assert(s =~= seq![s[0], s[1]] + s.skip(2));
                assert(hex_of(b) =~= s);
            }
        }
    }
}

// ---------------------------------------------------------------------
// JSON string escaping
// ---------------------------------------------------------------------
/// Canonical JSON escape of one byte, as the standard human-readable
/// serializer produces it: quote and backslash get a two-byte escape,
/// control bytes get their short escape where one exists and a `\u00xx`
/// escape otherwise, every other byte is passed through raw.
pub open spec fn esc_byte(c: u8) -> Seq<u8> {
    if c == QUOTE {
        seq![BACKSLASH, QUOTE]
    } else if c == BACKSLASH {
        seq![BACKSLASH, BACKSLASH]
    } else if c == 0x08 {
        seq![BACKSLASH, 0x62u8]
    } else if c == 0x09 {
        seq![BACKSLASH, 0x74u8]
    } else if c == 0x0a {
        seq![BACKSLASH, 0x6eu8]
    } else if c == 0x0c {
        seq![BACKSLASH, 0x66u8]
    } else if c == 0x0d {
        seq![BACKSLASH, 0x72u8]
    } else if c < 0x20 {
        seq![BACKSLASH, 0x75u8, 0x30u8, 0x30u8, hex_digit(c / 16), hex_digit(c % 16)]
    } else {
        seq![c]
    }
}

/// Canonical JSON escape of a byte string.
pub open spec fn esc(t: Seq<u8>) -> Seq<u8>
    decreases t.len(),
{
    if t.len() == 0 {
        Seq::empty()
    } else {
        esc_byte(t.first()) + esc(t.drop_first())
    }
}

/// Reads one escaped string up to and including its closing quote.
/// Returns the unescaped content and the input remaining after the quote,
/// or `None` if the input is not a canonically escaped string.
pub open spec fn unesc_prefix(s: Seq<u8>) -> Option<(Seq<u8>, Seq<u8>)>
    decreases s.len(),
{
    if s.len() == 0 {
        None
    } else if s[0] == QUOTE {
        Some((Seq::empty(), s.skip(1)))
    } else if s[0] == BACKSLASH {
        if s.len() < 2 {
            None
        } else if s[1] == QUOTE || s[1] == BACKSLASH {
            unesc_cons(if s[1] == QUOTE { QUOTE } else { BACKSLASH }, unesc_prefix(s.skip(2)))
        } else if s[1] == 0x62 {
            unesc_cons(0x08, unesc_prefix(s.skip(2)))
        } else if s[1] == 0x74 {
            unesc_cons(0x09, unesc_prefix(s.skip(2)))
        } else if s[1] == 0x6e {
            unesc_cons(0x0a, unesc_prefix(s.skip(2)))
        } else if s[1] == 0x66 {
            unesc_cons(0x0c, unesc_prefix(s.skip(2)))
        } else if s[1] == 0x72 {
            unesc_cons(0x0d, unesc_prefix(s.skip(2)))
        } else if s[1] == 0x75 {
            if s.len() < 6 || s[2] != 0x30 || s[3] != 0x30 {
                None
            } else {
                match (hex_val(s[4]), hex_val(s[5])) {
                    (Some(h), Some(l)) => {
                        let c = (16 * h + l) as u8;
                        if c < 0x20 && c != 0x08 && c != 0x09 && c != 0x0a && c != 0x0c && c
                            != 0x0d {
                            unesc_cons(c, unesc_prefix(s.skip(6)))
                        } else {
                            None
                        }
                    },
                    _ => None,
                }
            }
        } else {
            None
        }
    } else if s[0] >= 0x20 {
        unesc_cons(s[0], unesc_prefix(s.skip(1)))
    } else {
        None
    }
}

/// Prepends one decoded byte to the result of decoding the rest.
pub open spec fn unesc_cons(c: u8, rest: Option<(Seq<u8>, Seq<u8>)>) -> Option<(Seq<u8>, Seq<u8>)> {
    match rest {
        Some((t, r)) => Some((seq![c] + t, r)),
        None => None,
    }
}

pub proof fn lemma_esc_concat(a: Seq<u8>, b: Seq<u8>)
    ensures
        esc(a + b) == esc(a) + esc(b),
    decreases a.len(),
{
    if a.len() == 0 {
        assert(a + b =~= b);
        assert(esc(a) + esc(b) =~= esc(b));
    } else {
        assert((a + b).first() == a.first());
        assert((a + b).drop_first() =~= a.drop_first() + b);
        lemma_esc_concat(a.drop_first(), b);
        assert(esc_byte(a.first()) + (esc(a.drop_first()) + esc(b)) =~= (esc_byte(a.first()) + esc(
            a.drop_first(),
        )) + esc(b));
    }
}

/// Unescaping inverts escaping: the escaped text followed by a closing
/// quote and anything else reads back as exactly that text and rest.
pub proof fn lemma_unesc_of_esc(t: Seq<u8>, rest: Seq<u8>)
    ensures
        unesc_prefix(esc(t) + seq![QUOTE] + rest) == Some((t, rest)),
    decreases t.len(),
{
    let s = esc(t) + seq![QUOTE] + rest;
    if t.len() == 0 {
        assert(esc(t).len() == 0);
        assert(s[0] == QUOTE);
        assert(s.skip(1) =~= rest);
    } else {
        let c = t.first();
        let e = esc_byte(c);
        lemma_unesc_of_esc(t.drop_first(), rest);
        let s2 = esc(t.drop_first()) + seq![QUOTE] + rest;
        assert(s =~= e + s2) by {
            assert(esc(t) == e + esc(t.drop_first()));
        }
        assert(forall|i: int| 0 <= i < e.len() ==> s[i] == e[i]);
        assert(s.skip(e.len() as int) =~= s2);
        if c == QUOTE || c == BACKSLASH || c == 0x08 || c == 0x09 || c == 0x0a || c == 0x0c || c
            == 0x0d {
            assert(s[0] == BACKSLASH);
            assert(unesc_prefix(s) == unesc_cons(c, unesc_prefix(s.skip(2))));
        } else if c < 0x20 {
            assert(e == seq![BACKSLASH, 0x75u8, 0x30u8, 0x30u8, hex_digit(c / 16), hex_digit(
                c % 16,
            )]);
            lemma_hex_val_digit(c / 16);
            lemma_hex_val_digit(c % 16);
            assert(16 * (c / 16) + c % 16 == c) by (bit_vector);
            assert(unesc_prefix(s) == unesc_cons(c, unesc_prefix(s.skip(6))));
        } else {
            assert(e == seq![c]);
            assert(s[0] == c && c >= 0x20 && c != QUOTE && c != BACKSLASH);
            assert(unesc_prefix(s) == unesc_cons(c, unesc_prefix(s.skip(1))));
        }
        assert(seq![c] + t.drop_first() =~= t);
    }
}

/// Unescaping is strict: a successful read pins the consumed input to the
/// canonical escape of the content followed by the closing quote.
pub proof fn lemma_unesc_sound(s: Seq<u8>)
    ensures
        unesc_prefix(s) matches Some(p) ==> s == esc(p.0) + seq![QUOTE] + p.1,
    decreases s.len(),
{
    if s.len() == 0 {
    } else if s[0] == QUOTE {
        if let Some(p) = unesc_prefix(s) {
            assert(p.0 =~= Seq::<u8>::empty());
            assert(esc(p.0) + seq![QUOTE] + p.1 =~= s);
        }
    } else {
        let step: int = if s[0] == BACKSLASH {
            if s.len() >= 2 && s[1] == 0x75 {
                6
            } else {
                2
            }
        } else {
            1
        };
        if let Some(p) = unesc_prefix(s) {
            // In every successful branch the first decoded byte `c` is
            // consumed from exactly `step` bytes equal to `esc_byte(c)`.
            let rec = unesc_prefix(s.skip(step));
            lemma_unesc_sound(s.skip(step));
            let c = first_decoded(s);
            assert(unesc_prefix(s) == unesc_cons(c, rec));
            let (t2, r2) = rec.unwrap();
            assert(p.0 == seq![c] + t2 && p.1 == r2);
            assert(s.skip(step) == esc(t2) + seq![QUOTE] + r2);
            assert(s.take(step) =~= esc_byte(c)) by {
                if s[0] == BACKSLASH && s.len() >= 2 && s[1] == 0x75 {
                    lemma_digit_of_hex_val(s[4]);
                    lemma_digit_of_hex_val(s[5]);
                    let h = hex_val(s[4]).unwrap();
                    let l = hex_val(s[5]).unwrap();
                    assert(c == (16 * h + l) as u8);
                    assert(c / 16 == h && c % 16 == l) by (bit_vector)
                        requires
                            h < 16 && l < 16 && c == (16 * h + l) as u8,
                    ;
                }
            }
            assert(s =~= s.take(step) + s.skip(step));
            assert(esc(p.0) == esc_byte(c) + esc(t2)) by {
                assert(p.0.first() == c);
                assert(p.0.drop_first() =~= t2);
            }
            assert(s =~= esc(p.0) + seq![QUOTE] + p.1);
        }
    }
}

// ---------------------------------------------------------------------
// Events
// ---------------------------------------------------------------------
/// The nine bytes of `{"Post":"`.
pub open spec fn post_prefix() -> Seq<u8> {
    seq![LBRACE, QUOTE, 0x50u8, 0x6fu8, 0x73u8, 0x74u8, QUOTE, 0x3au8, QUOTE]
}

/// The eleven bytes of `{"Follow":"`.
pub open spec fn follow_prefix() -> Seq<u8> {
    seq![LBRACE, QUOTE, 0x46u8, 0x6fu8, 0x6cu8, 0x6cu8, 0x6fu8, 0x77u8, QUOTE, 0x3au8, QUOTE]
}

pub open spec fn starts_with(s: Seq<u8>, p: Seq<u8>) -> bool {
    s.len() >= p.len() && s.take(p.len() as int) == p
}

/// A well-formed event: post text is valid UTF-8 and a followed key is
/// exactly 32 bytes.
pub open spec fn event_wf(e: EventView) -> bool {
    match e {
        EventView::Post(t) => valid_utf8(t),
        EventView::Follow(k) => k.len() == 32,
    }
}

/// The canonical body encoding of an event.
pub open spec fn encode_event(e: EventView) -> Seq<u8> {
    match e {
        EventView::Post(t) => post_prefix() + esc(t) + seq![QUOTE, RBRACE],
        EventView::Follow(k) => follow_prefix() + hex_of(k) + seq![QUOTE, RBRACE],
    }
}

/// Strict decoding of a body: succeeds exactly on canonical encodings.
pub open spec fn decode_event(s: Seq<u8>) -> Option<EventView> {
    if starts_with(s, post_prefix()) {
        match unesc_prefix(s.skip(9)) {
            Some(p) => if p.1 == seq![RBRACE] && valid_utf8(p.0) {
                Some(EventView::Post(p.0))
            } else {
                None
            },
            None => None,
        }
    } else if starts_with(s, follow_prefix()) {
        if s.len() >= 13 && s[s.len() - 2] == QUOTE && s[s.len() - 1] == RBRACE {
            match dehex(s.subrange(11, s.len() - 2)) {
                Some(k) => if k.len() == 32 {
                    Some(EventView::Follow(k))
                } else {
                    None
                },
                None => None,
            }
        } else {
            None
        }
    } else {
        None
    }
}

/// Decoding inverts encoding: every well-formed event reads back from its
/// own encoding.
pub proof fn lemma_event_roundtrip(e: EventView)
    ensures
        event_wf(e) ==> decode_event(encode_event(e)) == Some(e),
{
    if event_wf(e) {
        let s = encode_event(e);
        match e {
            EventView::Post(t) => {
                assert(s.take(9) =~= post_prefix());
                assert(s.skip(9) =~= esc(t) + seq![QUOTE] + seq![RBRACE]) by {
                    assert(esc(t) + seq![QUOTE, RBRACE] =~= esc(t) + seq![QUOTE] + seq![RBRACE]);
                }
                lemma_unesc_of_esc(t, seq![RBRACE]);
            },
            EventView::Follow(k) => {
                lemma_hex_of_len(k);
                assert(s.len() == 77);
                assert(!starts_with(s, post_prefix())) by {
                    assert(s[2] == 0x46 && post_prefix()[2] == 0x50);
                }
                assert(s.take(11) =~= follow_prefix());
                assert(s[75] == QUOTE && s[76] == RBRACE);
                assert(s.subrange(11, 75) =~= hex_of(k));
                lemma_dehex_of_hex(k);
            },
        }
    }
}

/// Decoding is strict: a successful decode yields a well-formed event and
/// pins the input to that event's canonical encoding.
pub proof fn lemma_decode_event_sound(s: Seq<u8>)
    ensures
        decode_event(s) matches Some(e) ==> event_wf(e) && s == encode_event(e),
{
    if let Some(e) = decode_event(s) {
        if starts_with(s, post_prefix()) {
            lemma_unesc_sound(s.skip(9));
            let p = unesc_prefix(s.skip(9)).unwrap();
            let t = p.0;
            assert(s.skip(9) == esc(t) + seq![QUOTE] + seq![RBRACE]);
            assert(s =~= s.take(9) + s.skip(9));
            assert(s =~= post_prefix() + esc(t) + seq![QUOTE, RBRACE]);
        } else {
            let mid = s.subrange(11, s.len() - 2);
            lemma_dehex_sound(mid);
            let k = dehex(mid).unwrap();
            assert(mid == hex_of(k) && mid.len() == 64);
            assert(s.len() == 77);
            assert(s =~= follow_prefix() + hex_of(k) + seq![QUOTE, RBRACE]) by {
                assert(s.take(11) =~= follow_prefix());
                assert(forall|i: int| 11 <= i < 75 ==> s[i] == hex_of(k)[i - 11]);
            }
        }
    }
}

/// The first byte decoded by a successful non-quote `unesc_prefix` step.
pub open spec fn first_decoded(s: Seq<u8>) -> u8 {
    if s.len() == 0 {
        0
    } else if s[0] == BACKSLASH {
        if s.len() < 2 {
            0
        } else if s[1] == QUOTE {
            QUOTE
        } else if s[1] == BACKSLASH {
            BACKSLASH
        } else if s[1] == 0x62 {
            0x08
        } else if s[1] == 0x74 {
            0x09
        } else if s[1] == 0x6e {
            0x0a
        } else if s[1] == 0x66 {
            0x0c
        } else if s[1] == 0x72 {
            0x0d
        } else if s[1] == 0x75 && s.len() >= 6 {
            match (hex_val(s[4]), hex_val(s[5])) {
                (Some(h), Some(l)) => (16 * h + l) as u8,
                _ => 0,
            }
        } else {
            0
        }
    } else {
        s[0]
    }
}

// ---------------------------------------------------------------------
// Executable encoders
// ---------------------------------------------------------------------
fn hex_digit_e(n: u8) -> (r: u8)
    requires
        n < 16,
    ensures
        r == hex_digit(n),
{
    if n < 10 {
        0x30 + n
    } else {
        0x57 + n
    }
}

proof fn lemma_esc_take_step(t: Seq<u8>, i: int)
    requires
        0 <= i < t.len(),
    ensures
        esc(t.take(i + 1)) == esc(t.take(i)) + esc_byte(t[i]),
{
    assert(t.take(i + 1) =~= t.take(i) + seq![t[i]]);
    lemma_esc_concat(t.take(i), seq![t[i]]);
    assert(esc(seq![t[i]]) =~= esc_byte(t[i])) by {
        assert(esc(Seq::<u8>::empty()) =~= Seq::<u8>::empty());
        assert(seq![t[i]].first() == t[i]);
        assert(seq![t[i]].drop_first() =~= Seq::<u8>::empty());
        assert(esc(seq![t[i]]) == esc_byte(t[i]) + esc(seq![t[i]].drop_first()));
        assert(esc_byte(t[i]) + Seq::<u8>::empty() =~= esc_byte(t[i]));
    }
}

/// Appends the canonical escape of `t` to `out`.
fn escape_append(out: &mut Vec<u8>, t: &Vec<u8>)
    ensures
        final(out)@ == old(out)@ + esc(t@),
{
    let ghost pre = out@;
    let mut i: usize = 0;
    while i < t.len()
        invariant
            i <= t.len(),
            out@ == pre + esc(t@.take(i as int)),
        decreases t.len() - i,
    {
        let c = t[i];
        proof {
            lemma_esc_take_step(t@, i as int);
        }
        if c == QUOTE {
            out.push(BACKSLASH);
            out.push(QUOTE);
        } else if c == BACKSLASH {
            out.push(BACKSLASH);
            out.push(BACKSLASH);
        } else if c == 0x08 {
            out.push(BACKSLASH);
            out.push(0x62);
        } else if c == 0x09 {
            out.push(BACKSLASH);
            out.push(0x74);
        } else if c == 0x0a {
            out.push(BACKSLASH);
            out.push(0x6e);
        } else if c == 0x0c {
            out.push(BACKSLASH);
            out.push(0x66);
        } else if c == 0x0d {
            out.push(BACKSLASH);
            out.push(0x72);
        } else if c < 0x20 {
            out.push(BACKSLASH);
            out.push(0x75);
            out.push(0x30);
            out.push(0x30);
            out.push(hex_digit_e(c / 16));
            out.push(hex_digit_e(c % 16));
        } else {
            out.push(c);
        }
        proof {
            assert(out@ =~= pre + esc(t@.take(i as int + 1)));
        }
        i += 1;
    }
    proof {
        assert(t@.take(t@.len() as int) =~= t@);
    }
}

proof fn lemma_hex_take_step(b: Seq<u8>, i: int)
    requires
        0 <= i < b.len(),
    ensures
        hex_of(b.take(i + 1)) == hex_of(b.take(i)) + seq![
            hex_digit(b[i] / 16),
            hex_digit(b[i] % 16),
        ],
{
    assert(b.take(i + 1) =~= b.take(i) + seq![b[i]]);
    lemma_hex_of_concat(b.take(i), seq![b[i]]);
    assert(hex_of(seq![b[i]]) =~= seq![hex_digit(b[i] / 16), hex_digit(b[i] % 16)]) by {
        assert(hex_of(Seq::<u8>::empty()) =~= Seq::<u8>::empty());
        assert(seq![b[i]].first() == b[i]);
        assert(seq![b[i]].drop_first() =~= Seq::<u8>::empty());
        assert(hex_of(seq![b[i]]) == seq![hex_digit(b[i] / 16), hex_digit(b[i] % 16)] + hex_of(
            seq![b[i]].drop_first(),
        ));
    }
}

/// Appends the lowercase hex encoding of `b` to `out`.
fn hex_append(out: &mut Vec<u8>, b: &Vec<u8>)
    ensures
        final(out)@ == old(out)@ + hex_of(b@),
{
    let ghost pre = out@;
    let mut i: usize = 0;
    while i < b.len()
        invariant
            i <= b.len(),
            out@ == pre + hex_of(b@.take(i as int)),
        decreases b.len() - i,
    {
        let c = b[i];
        proof {
            lemma_hex_take_step(b@, i as int);
        }
        out.push(hex_digit_e(c / 16));
        out.push(hex_digit_e(c % 16));
        proof {
            assert(out@ =~= pre + hex_of(b@.take(i as int + 1)));
        }
        i += 1;
    }
    proof {
        assert(b@.take(b@.len() as int) =~= b@);
    }
}

/// Hex output is ASCII: every byte of it is below 0x80.
pub proof fn lemma_hex_of_ascii(b: Seq<u8>)
    ensures
        forall|i: int| 0 <= i < hex_of(b).len() ==> hex_of(b)[i] < 0x80,
    decreases b.len(),
{
    if b.len() > 0 {
        lemma_hex_of_ascii(b.drop_first());
        let head = seq![hex_digit(b.first() / 16), hex_digit(b.first() % 16)];
        assert(forall|i: int|
            0 <= i < hex_of(b).len() ==> hex_of(b)[i] == if i < 2 {
                head[i]
            } else {
                hex_of(b.drop_first())[i - 2]
            });
    }
}

/// The lowercase hex encoding of a byte string.
pub fn hex_encode(b: &Vec<u8>) -> (r: Vec<u8>)
    ensures
        r@ == hex_of(b@),
{
    let mut out: Vec<u8> = Vec::new();
    hex_append(&mut out, b);
    proof {
        assert(Seq::<u8>::empty() + hex_of(b@) =~= hex_of(b@));
    }
    out
}

/// Encodes an event into its canonical body bytes.
pub fn event_to_bytes(e: &ButtEvent) -> (r: Vec<u8>)
    ensures
        r@ == encode_event(e@),
{
    let mut out: Vec<u8> = Vec::new();
    out.push(LBRACE);
    out.push(QUOTE);
    match e {
        ButtEvent::Post(t) => {
            out.push(0x50);
            out.push(0x6f);
            out.push(0x73);
            out.push(0x74);
            out.push(QUOTE);
            out.push(0x3a);
            out.push(QUOTE);
            proof {
                assert(out@ =~= post_prefix());
            }
            escape_append(&mut out, t);
            out.push(QUOTE);
            out.push(RBRACE);
            proof {
                assert(out@ =~= post_prefix() + esc(t@) + seq![QUOTE, RBRACE]);
            }
        },
        ButtEvent::Follow(k) => {
            out.push(0x46);
            out.push(0x6f);
            out.push(0x6c);
            out.push(0x6c);
            out.push(0x6f);
            out.push(0x77);
            out.push(QUOTE);
            out.push(0x3a);
            out.push(QUOTE);
            proof {
                assert(out@ =~= follow_prefix());
            }
            hex_append(&mut out, k);
            out.push(QUOTE);
            out.push(RBRACE);
            proof {
                assert(out@ =~= follow_prefix() + hex_of(k@) + seq![QUOTE, RBRACE]);
            }
        },
    }
    out
}

// ---------------------------------------------------------------------
// Executable decoders
// ---------------------------------------------------------------------
/// Relates the answer for the whole input to the answer for the part not
/// yet consumed: `done` holds what the consumed part decoded to.
pub open spec fn unesc_rel(orig: Seq<u8>, done: Seq<u8>, rem: Seq<u8>) -> bool {
    match unesc_prefix(rem) {
        Some(p) => unesc_prefix(orig) == Some((done + p.0, p.1)),
        None => unesc_prefix(orig) is None,
    }
}

proof fn lemma_unesc_rel_step(orig: Seq<u8>, done: Seq<u8>, rem: Seq<u8>, c: u8, k: int)
    requires
        0 <= k <= rem.len(),
        unesc_rel(orig, done, rem),
        unesc_prefix(rem) == unesc_cons(c, unesc_prefix(rem.skip(k))),
    ensures
        unesc_rel(orig, done + seq![c], rem.skip(k)),
{
    match unesc_prefix(rem.skip(k)) {
        Some(p) => {
            assert((done + seq![c]) + p.0 =~= done + (seq![c] + p.0));
        },
        None => {},
    }
}

/// Reads one escaped string from position `start`, returning the content
/// and the position just past the closing quote.
fn unescape_from(s: &Vec<u8>, start: usize) -> (r: Option<(Vec<u8>, usize)>)
    requires
        start <= s.len(),
    ensures
        match r {
            Some(p) => p.1 <= s.len() && unesc_prefix(s@.skip(start as int)) == Some(
                (p.0@, s@.skip(p.1 as int)),
            ),
            None => unesc_prefix(s@.skip(start as int)) is None,
        },
{
    let ghost orig = s@.skip(start as int);
    let mut i: usize = start;
    let mut out: Vec<u8> = Vec::new();
    loop
        invariant
            start <= i <= s.len(),
            orig == s@.skip(start as int),
            unesc_rel(orig, out@, s@.skip(i as int)),
        decreases s.len() - i,
    {
        let ghost rem = s@.skip(i as int);
        proof {
            assert(rem.len() == s@.len() - i);
            assert(forall|j: int| 0 <= j < rem.len() ==> rem[j] == s@[i + j]);
        }
        if i >= s.len() {
            proof {
                assert(rem.len() == 0);
                assert(unesc_prefix(rem) is None);
            }
            return None;
        }
        let c = s[i];
        if c == QUOTE {
            proof {
                assert(unesc_prefix(rem) == Some((Seq::<u8>::empty(), rem.skip(1))));
                assert(rem.skip(1) =~= s@.skip(i as int + 1));
                assert(out@ + Seq::<u8>::empty() =~= out@);
            }
            return Some((out, i + 1));
        } else if c == BACKSLASH {
            if i + 1 >= s.len() {
                proof {
                    assert(rem.len() < 2);
                    assert(unesc_prefix(rem) is None);
                }
                return None;
            }
            let d = s[i + 1];
            proof {
                assert(rem[1] == d);
            }
            if d == QUOTE || d == BACKSLASH || d == 0x62 || d == 0x74 || d == 0x6e || d == 0x66 || d
                == 0x72 {
                let v: u8 = if d == QUOTE {
                    QUOTE
                } else if d == BACKSLASH {
                    BACKSLASH
                } else if d == 0x62 {
                    0x08
                } else if d == 0x74 {
                    0x09
                } else if d == 0x6e {
                    0x0a
                } else if d == 0x66 {
                    0x0c
                } else {
                    0x0d
                };
                proof {
                    assert(unesc_prefix(rem) == unesc_cons(v, unesc_prefix(rem.skip(2))));
                    assert(rem.skip(2) =~= s@.skip(i as int + 2));
                    lemma_unesc_rel_step(orig, out@, rem, v, 2);
                }
                let ghost prev = out@;
                out.push(v);
                proof {
                    assert(out@ =~= prev + seq![v]);
                }
                i += 2;
            } else if d == 0x75 {
                if s.len() - i < 6 || s[i + 2] != 0x30 || s[i + 3] != 0x30 {
                    proof {
                        assert(rem.len() < 6 || rem[2] != 0x30 || rem[3] != 0x30);
                        assert(unesc_prefix(rem) is None);
                    }
                    return None;
                }
                let h = match hex_val_e(s[i + 4]) {
                    Some(h) => h,
                    None => {
                        proof {
                            assert(rem[4] == s@[i + 4]);
                            assert(unesc_prefix(rem) is None);
                        }
                        return None;
                    },
                };
                let l = match hex_val_e(s[i + 5]) {
                    Some(l) => l,
                    None => {
                        proof {
                            assert(rem[4] == s@[i + 4] && rem[5] == s@[i + 5]);
                            assert(unesc_prefix(rem) is None);
                        }
                        return None;
                    },
                };
                let v = 16 * h + l;
                proof {
                    assert(rem[4] == s@[i + 4] && rem[5] == s@[i + 5]);
                }
                if v < 0x20 && v != 0x08 && v != 0x09 && v != 0x0a && v != 0x0c && v != 0x0d {
                    proof {
                        assert(unesc_prefix(rem) == unesc_cons(v, unesc_prefix(rem.skip(6))));
                        assert(rem.skip(6) =~= s@.skip(i as int + 6));
                        lemma_unesc_rel_step(orig, out@, rem, v, 6);
                    }
                    let ghost prev = out@;
                    out.push(v);
                    proof {
                        assert(out@ =~= prev + seq![v]);
                    }
                    i += 6;
                } else {
                    proof {
                        assert(unesc_prefix(rem) is None);
                    }
                    return None;
                }
            } else {
                proof {
                    assert(unesc_prefix(rem) is None);
                }
                return None;
            }
        } else if c >= 0x20 {
            proof {
                assert(unesc_prefix(rem) == unesc_cons(c, unesc_prefix(rem.skip(1))));
                assert(rem.skip(1) =~= s@.skip(i as int + 1));
                lemma_unesc_rel_step(orig, out@, rem, c, 1);
            }
            let ghost prev = out@;
            out.push(c);
            proof {
                assert(out@ =~= prev + seq![c]);
            }
            i += 1;
        } else {
            proof {
                assert(unesc_prefix(rem) is None);
            }
            return None;
        }
    }
}

fn hex_val_e(c: u8) -> (r: Option<u8>)
    ensures
        r == hex_val(c),
{
    if 0x30 <= c && c <= 0x39 {
        Some(c - 0x30)
    } else if 0x61 <= c && c <= 0x66 {
        Some(c - 0x57)
    } else {
        None
    }
}

/// Relates whole-range hex decoding to decoding of the part not yet read.
pub open spec fn dehex_rel(orig: Seq<u8>, done: Seq<u8>, rem: Seq<u8>) -> bool {
    match dehex(rem) {
        Some(t) => dehex(orig) == Some(done + t),
        None => dehex(orig) is None,
    }
}

/// Decodes the hex digits of `s` between `from` and `to`.
fn hex_decode_range(s: &Vec<u8>, from: usize, to: usize) -> (r: Option<Vec<u8>>)
    requires
        from <= to <= s.len(),
    ensures
        match r {
            Some(v) => dehex(s@.subrange(from as int, to as int)) == Some(v@),
            None => dehex(s@.subrange(from as int, to as int)) is None,
        },
{
    let ghost orig = s@.subrange(from as int, to as int);
    let mut i: usize = from;
    let mut out: Vec<u8> = Vec::new();
    while i < to
        invariant
            from <= i <= to <= s.len(),
            orig == s@.subrange(from as int, to as int),
            dehex_rel(orig, out@, s@.subrange(i as int, to as int)),
        decreases to - i,
    {
        let ghost rem = s@.subrange(i as int, to as int);
        proof {
            assert(forall|j: int| 0 <= j < rem.len() ==> rem[j] == s@[i + j]);
        }
        if i + 1 >= to {
            proof {
                assert(rem.len() == 1);
                assert(dehex(rem) is None);
            }
            return None;
        }
        let h = match hex_val_e(s[i]) {
            Some(h) => h,
            None => {
                proof {
                    assert(rem[0] == s@[i as int]);
                    assert(dehex(rem) is None);
                }
                return None;
            },
        };
        let l = match hex_val_e(s[i + 1]) {
            Some(l) => l,
            None => {
                proof {
                    assert(rem[0] == s@[i as int] && rem[1] == s@[i + 1]);
                    assert(dehex(rem) is None);
                }
                return None;
            },
        };
        proof {
            assert(rem[0] == s@[i as int] && rem[1] == s@[i + 1]);
        }
        let v = 16 * h + l;
        proof {
            assert(dehex(rem) == match dehex(rem.skip(2)) {
                Some(t) => Some(seq![v] + t),
                None => None::<Seq<u8>>,
            });
            assert(rem.skip(2) =~= s@.subrange(i as int + 2, to as int));
            match dehex(rem.skip(2)) {
                Some(t) => {
                    assert((out@ + seq![v]) + t =~= out@ + (seq![v] + t));
                },
                None => {},
            }
        }
        let ghost prev = out@;
        out.push(v);
        proof {
            assert(out@ =~= prev + seq![v]);
        }
        i += 2;
    }
    proof {
        assert(s@.subrange(i as int, to as int).len() == 0);
        assert(dehex(s@.subrange(i as int, to as int)) == Some(Seq::<u8>::empty()));
        assert(out@ + Seq::<u8>::empty() =~= out@);
    }
    Some(out)
}

fn has_post_prefix(s: &Vec<u8>) -> (r: bool)
    ensures
        r == starts_with(s@, post_prefix()),
{
    if s.len() < 9 {
        proof {
            assert(!starts_with(s@, post_prefix()));
        }
        return false;
    }
    let r = s[0] == LBRACE && s[1] == QUOTE && s[2] == 0x50 && s[3] == 0x6f && s[4] == 0x73 && s[5]
        == 0x74 && s[6] == QUOTE && s[7] == 0x3a && s[8] == QUOTE;
    proof {
        if r {
            assert(s@.take(9) =~= post_prefix());
        } else {
            assert(s@.take(9) != post_prefix()) by {
                if s@.take(9) == post_prefix() {
                    assert(forall|j: int| 0 <= j < 9 ==> s@[j] == post_prefix()[j]);
                }
            }
        }
    }
    r
}

fn has_follow_prefix(s: &Vec<u8>) -> (r: bool)
    ensures
        r == starts_with(s@, follow_prefix()),
{
    if s.len() < 11 {
        proof {
            assert(!starts_with(s@, follow_prefix()));
        }
        return false;
    }
    let r = s[0] == LBRACE && s[1] == QUOTE && s[2] == 0x46 && s[3] == 0x6f && s[4] == 0x6c && s[5]
        == 0x6c && s[6] == 0x6f && s[7] == 0x77 && s[8] == QUOTE && s[9] == 0x3a && s[10] == QUOTE;
    proof {
        if r {
            assert(s@.take(11) =~= follow_prefix());
        } else {
            assert(s@.take(11) != follow_prefix()) by {
                if s@.take(11) == follow_prefix() {
                    assert(forall|j: int| 0 <= j < 11 ==> s@[j] == follow_prefix()[j]);
                }
            }
        }
    }
    r
}

/// Relies on `core::str::from_utf8`: it succeeds exactly on valid UTF-8,
/// the same notion the specification library models.
#[verifier::external_body]
fn utf8_valid(b: &Vec<u8>) -> (r: bool)
    ensures
        r == valid_utf8(b@),
{
    core::str::from_utf8(b.as_slice()).is_ok()
}

/// Decodes body bytes into an event. Succeeds exactly on the canonical
/// encoding of a well-formed event, and then returns that event.
pub fn event_from_bytes(s: &Vec<u8>) -> (r: Option<ButtEvent>)
    ensures
        r matches Some(e) ==> s@ == encode_event(e@) && event_wf(e@),
        forall|ev: EventView| event_wf(ev) && s@ == encode_event(ev) ==> (r matches Some(e)
            && e@ == ev),
        match r {
            Some(e) => decode_event(s@) == Some(e@),
            None => decode_event(s@) is None,
        },
{
    let r = event_from_bytes_raw(s);
    proof {
        lemma_decode_event_sound(s@);
        assert forall|ev: EventView| event_wf(ev) && s@ == encode_event(ev) implies r matches Some(
            e,
        ) && e@ == ev by {
            lemma_event_roundtrip(ev);
        }
    }
    r
}

/// The decoder proper, specified against the mathematical decoder.
fn event_from_bytes_raw(s: &Vec<u8>) -> (r: Option<ButtEvent>)
    ensures
        match r {
            Some(e) => decode_event(s@) == Some(e@),
            None => decode_event(s@) is None,
        },
{
    if has_post_prefix(s) {
        match unescape_from(s, 9) {
            Some((t, j)) => {
                if j == s.len() - 1 && s[j] == RBRACE {
                    proof {
                        assert(s@.skip(j as int) =~= seq![RBRACE]);
                    }
                    if utf8_valid(&t) {
                        Some(ButtEvent::Post(t))
                    } else {
                        None
                    }
                } else {
                    proof {
                        assert(s@.skip(j as int) != seq![RBRACE]) by {
                            if s@.skip(j as int) == seq![RBRACE] {
                                assert(s@.skip(j as int).len() == 1);
                                assert(s@.skip(j as int)[0] == RBRACE);
                            }
                        }
                    }
                    None
                }
            },
            None => None,
        }
    } else if has_follow_prefix(s) {
        if s.len() >= 13 && s[s.len() - 2] == QUOTE && s[s.len() - 1] == RBRACE {
            match hex_decode_range(s, 11, s.len() - 2) {
                Some(k) => {
                    if k.len() == 32 {
                        Some(ButtEvent::Follow(k))
                    } else {
                        None
                    }
                },
                None => None,
            }
        } else {
            None
        }
    } else {
        None
    }
}

} // verus!
