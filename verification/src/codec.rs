//! The canonical one-line encoding of a record, and its decoder.
//!
//! A record `{ id, title, body }` is written as the JSON object
//! `{"id":<digits>,"title":"<escaped>","body":"<escaped>"}` on a single
//! line.  Inside a string, `"` and `\` are escaped with a backslash and
//! every control character below `U+0020` is written as `\u00xx`, so an
//! encoded line never contains a raw newline.  The decoder accepts
//! exactly this canonical form; [`lemma_decode_encode`] proves that it
//! inverts the encoder.

use vstd::prelude::*;

use crate::error::StoreError;
use crate::record::{RecordView, ReviewMeta};

verus! {

// ---------------------------------------------------------------------
// Character classes and digits
// ---------------------------------------------------------------------

pub open spec fn is_digit_char(c: char) -> bool {
    0x30 <= (c as int) && (c as int) <= 0x39
}

pub open spec fn digit_val(c: char) -> nat
    recommends
        is_digit_char(c),
{
    ((c as int) - 0x30) as nat
}

pub open spec fn digit_char(d: nat) -> char
    recommends
        d < 10,
{
    ((d + 0x30) as char)
}

pub open spec fn is_hex_char(c: char) -> bool {
    is_digit_char(c) || (0x61 <= (c as int) && (c as int) <= 0x66)
}

pub open spec fn hex_val(c: char) -> nat
    recommends
        is_hex_char(c),
{
    if is_digit_char(c) {
        digit_val(c)
    } else {
        ((c as int) - 0x61 + 10) as nat
    }
}

pub open spec fn hex_char(d: nat) -> char
    recommends
        d < 16,
{
    if d < 10 {
        digit_char(d)
    } else {
        (((d - 10) + 0x61) as char)
    }
}

/// The decimal digits of `n`, most significant first.
pub open spec fn dec_chars(n: nat) -> Seq<char>
    decreases n,
{
    if n < 10 {
        seq![digit_char(n)]
    } else {
        dec_chars(n / 10) + seq![digit_char(n % 10)]
    }
}

// ---------------------------------------------------------------------
// Escaping
// ---------------------------------------------------------------------

/// How one character is written inside an encoded string.
pub open spec fn esc_char(c: char) -> Seq<char> {
    if c == '"' {
        seq!['\\', '"']
    } else if c == '\\' {
        seq!['\\', '\\']
    } else if (c as u32) < 0x20 {
        seq!['\\', 'u', '0', '0', hex_char(((c as u32) / 16) as nat), hex_char(
            ((c as u32) % 16) as nat,
        )]
    } else {
        seq![c]
    }
}

/// The escaped form of a whole string.
pub open spec fn esc(s: Seq<char>) -> Seq<char>
    decreases s.len(),
{
    if s.len() == 0 {
        Seq::empty()
    } else {
        esc_char(s[0]) + esc(s.skip(1))
    }
}

// ---------------------------------------------------------------------
// The encoded line
// ---------------------------------------------------------------------

pub open spec fn lit_id() -> Seq<char> {
    seq!['{', '"', 'i', 'd', '"', ':']
}

pub open spec fn lit_title() -> Seq<char> {
    seq![',', '"', 't', 'i', 't', 'l', 'e', '"', ':', '"']
}

pub open spec fn lit_body() -> Seq<char> {
    seq![',', '"', 'b', 'o', 'd', 'y', '"', ':', '"']
}

/// The canonical encoding of a record as one line, without the
/// trailing newline.
pub open spec fn encode_rec(r: RecordView) -> Seq<char> {
    lit_id() + dec_chars(r.id) + lit_title() + esc(r.title) + seq!['"'] + lit_body() + esc(r.body)
        + seq!['"', '}']
}

// ---------------------------------------------------------------------
// The decoder, as a specification
// ---------------------------------------------------------------------

/// Greedily consumes decimal digits, accumulating their value.
pub open spec fn parse_digits_loop(s: Seq<char>, acc: nat) -> (nat, Seq<char>)
    decreases s.len(),
{
    if s.len() > 0 && is_digit_char(s[0]) {
        parse_digits_loop(s.skip(1), acc * 10 + digit_val(s[0]))
    } else {
        (acc, s)
    }
}

/// A number: one or more digits without a leading zero, whose value
/// fits in `usize`.
pub open spec fn parse_digits(s: Seq<char>) -> Option<(nat, Seq<char>)> {
    if s.len() > 0 && is_digit_char(s[0]) && !(s[0] == '0' && s.len() >= 2 && is_digit_char(
        s[1],
    )) {
        let (v, rest) = parse_digits_loop(s, 0);
        if v <= usize::MAX {
            Some((v, rest))
        } else {
            None
        }
    } else {
        None
    }
}

pub open spec fn prepend(c: char, r: Option<(Seq<char>, Seq<char>)>) -> Option<
    (Seq<char>, Seq<char>),
> {
    match r {
        Some(p) => Some((seq![c] + p.0, p.1)),
        None => None,
    }
}

/// The body of a string, up to and including its closing quote.
/// Returns the decoded content and what follows the quote.
pub open spec fn parse_jstring(s: Seq<char>) -> Option<(Seq<char>, Seq<char>)>
    decreases s.len(),
{
    if s.len() == 0 {
        None
    } else if s[0] == '"' {
        Some((Seq::empty(), s.skip(1)))
    } else if s[0] == '\\' {
        if s.len() >= 2 && s[1] == '"' {
            prepend('"', parse_jstring(s.skip(2)))
        } else if s.len() >= 2 && s[1] == '\\' {
            prepend('\\', parse_jstring(s.skip(2)))
        } else if s.len() >= 6 && s[1] == 'u' && s[2] == '0' && s[3] == '0' && is_hex_char(s[4])
            && is_hex_char(s[5]) && hex_val(s[4]) * 16 + hex_val(s[5]) < 0x20 {
            prepend((((hex_val(s[4]) * 16 + hex_val(s[5])) as u32) as char), parse_jstring(s.skip(6)))
        } else {
            None
        }
    } else if (s[0] as u32) >= 0x20 {
        prepend(s[0], parse_jstring(s.skip(1)))
    } else {
        None
    }
}

pub open spec fn starts_with(s: Seq<char>, p: Seq<char>) -> bool {
    s.len() >= p.len() && s.subrange(0, p.len() as int) == p
}

/// The decoder: `Some` exactly on canonical encodings of a record.
pub open spec fn decode_rec(s: Seq<char>) -> Option<RecordView> {
    if !starts_with(s, lit_id()) {
        None
    } else {
        match parse_digits(s.skip(lit_id().len() as int)) {
            None => None,
            Some(p1) => if !starts_with(p1.1, lit_title()) {
                None
            } else {
                match parse_jstring(p1.1.skip(lit_title().len() as int)) {
                    None => None,
                    Some(p2) => if !starts_with(p2.1, lit_body()) {
                        None
                    } else {
                        match parse_jstring(p2.1.skip(lit_body().len() as int)) {
                            None => None,
                            Some(p3) => if p3.1.len() == 1 && p3.1[0] == '}' {
                                Some(RecordView { id: p1.0, title: p2.0, body: p3.0 })
                            } else {
                                None
                            },
                        }
                    },
                }
            },
        }
    }
}

// ---------------------------------------------------------------------
// Small facts about digits and escapes
// ---------------------------------------------------------------------

proof fn lemma_digit_char_val(d: nat)
    requires
        d < 10,
    ensures
        is_digit_char(digit_char(d)),
        digit_val(digit_char(d)) == d,
        digit_char(d) != '\n',
        digit_char(d) != '"',
        digit_char(d) != '\\',
{
    assert((digit_char(d) as int) == d + 0x30);
}

proof fn lemma_hex_char_val(d: nat)
    requires
        d < 16,
    ensures
        is_hex_char(hex_char(d)),
        hex_val(hex_char(d)) == d,
        hex_char(d) != '\n',
{
    if d < 10 {
        lemma_digit_char_val(d);
    } else {
        assert((hex_char(d) as int) == d - 10 + 0x61);
    }
}

/// No character of `s` is a raw newline.
pub open spec fn no_nl(s: Seq<char>) -> bool {
    forall|j: int| 0 <= j < s.len() ==> s[j] != '\n'
}

proof fn lemma_no_nl_concat(a: Seq<char>, b: Seq<char>)
    requires
        no_nl(a),
        no_nl(b),
    ensures
        no_nl(a + b),
{
    assert forall|j: int| 0 <= j < (a + b).len() implies (a + b)[j] != '\n' by {
        if j < a.len() {
            assert((a + b)[j] == a[j]);
        } else {
            assert((a + b)[j] == b[j - a.len()]);
        }
    }
}

proof fn lemma_esc_char_no_nl(c: char)
    ensures
        no_nl(esc_char(c)),
{
    if c == '"' || c == '\\' {
    } else if (c as u32) < 0x20 {
        lemma_hex_char_val((((c as u32) / 16) as nat));
        lemma_hex_char_val((((c as u32) % 16) as nat));
    } else {
        assert(c != '\n');
    }
}

proof fn lemma_esc_no_nl(s: Seq<char>)
    ensures
        no_nl(esc(s)),
    decreases s.len(),
{
    if s.len() == 0 {
    } else {
        lemma_esc_char_no_nl(s[0]);
        lemma_esc_no_nl(s.skip(1));
        lemma_no_nl_concat(esc_char(s[0]), esc(s.skip(1)));
    }
}

proof fn lemma_dec_chars_no_nl(n: nat)
    ensures
        no_nl(dec_chars(n)),
        dec_chars(n).len() >= 1,
        is_digit_char(dec_chars(n)[0]),
    decreases n,
{
    if n < 10 {
        lemma_digit_char_val(n);
    } else {
        lemma_dec_chars_no_nl(n / 10);
        lemma_digit_char_val(n % 10);
        lemma_no_nl_concat(dec_chars(n / 10), seq![digit_char(n % 10)]);
        assert(dec_chars(n)[0] == dec_chars(n / 10)[0]);
    }
}

/// An encoded line never contains a raw newline, so it really is one
/// line of the metadata log.
pub proof fn lemma_encode_no_nl(r: RecordView)
    ensures
        no_nl(encode_rec(r)),
{
    lemma_dec_chars_no_nl(r.id);
    lemma_esc_no_nl(r.title);
    lemma_esc_no_nl(r.body);
    lemma_no_nl_concat(lit_id(), dec_chars(r.id));
    lemma_no_nl_concat(lit_id() + dec_chars(r.id), lit_title());
    lemma_no_nl_concat(lit_id() + dec_chars(r.id) + lit_title(), esc(r.title));
    lemma_no_nl_concat(lit_id() + dec_chars(r.id) + lit_title() + esc(r.title), seq!['"']);
    lemma_no_nl_concat(
        lit_id() + dec_chars(r.id) + lit_title() + esc(r.title) + seq!['"'],
        lit_body(),
    );
    lemma_no_nl_concat(
        lit_id() + dec_chars(r.id) + lit_title() + esc(r.title) + seq!['"'] + lit_body(),
        esc(r.body),
    );
    lemma_no_nl_concat(
        lit_id() + dec_chars(r.id) + lit_title() + esc(r.title) + seq!['"'] + lit_body() + esc(
            r.body,
        ),
        seq!['"', '}'],
    );
}

// ---------------------------------------------------------------------
// Digits round trip
// ---------------------------------------------------------------------

/// `10` raised to the number of digits of `n`.
spec fn shift10(n: nat) -> nat
    decreases n,
{
    if n < 10 {
        10
    } else {
        10 * shift10(n / 10)
    }
}

proof fn lemma_digits_loop_shift(n: nat, rest: Seq<char>, acc: nat)
    ensures
        parse_digits_loop(dec_chars(n) + rest, acc) == parse_digits_loop(
            rest,
            acc * shift10(n) + n,
        ),
    decreases n,
{
    if n < 10 {
        lemma_digit_char_val(n);
        let s = dec_chars(n) + rest;
        assert(s[0] == digit_char(n));
        assert(s.skip(1) =~= rest);
        assert(parse_digits_loop(s, acc) == parse_digits_loop(rest, acc * 10 + n));
    } else {
        let d = digit_char(n % 10);
        lemma_digit_char_val(n % 10);
        assert(dec_chars(n) + rest =~= dec_chars(n / 10) + (seq![d] + rest));
        lemma_digits_loop_shift(n / 10, seq![d] + rest, acc);
        let mid = acc * shift10(n / 10) + n / 10;
        let s2 = seq![d] + rest;
        assert(s2[0] == d);
        assert(s2.skip(1) =~= rest);
        assert(parse_digits_loop(s2, mid) == parse_digits_loop(rest, mid * 10 + n % 10));
        assert(mid * 10 + n % 10 == acc * shift10(n) + n) by (nonlinear_arith)
            requires
                mid == acc * shift10(n / 10) + n / 10,
                shift10(n) == 10 * shift10(n / 10),
                n >= 10,
        {}
    }
}

/// The value accumulated by the digit loop never goes down.
proof fn lemma_digits_loop_ge(s: Seq<char>, acc: nat)
    ensures
        parse_digits_loop(s, acc).0 >= acc,
    decreases s.len(),
{
    if s.len() > 0 && is_digit_char(s[0]) {
        lemma_digits_loop_ge(s.skip(1), acc * 10 + digit_val(s[0]));
    }
}

/// The decimal digits of `n` never start with a superfluous zero.
proof fn lemma_dec_chars_leading(n: nat)
    ensures
        dec_chars(n)[0] == '0' ==> n == 0,
    decreases n,
{
    if n < 10 {
        lemma_digit_char_val(n);
        assert((digit_char(n) as int) == n + 0x30);
    } else {
        lemma_dec_chars_leading(n / 10);
        lemma_dec_chars_no_nl(n / 10);
        assert(dec_chars(n)[0] == dec_chars(n / 10)[0]);
    }
}

/// Parsing the decimal digits of `n` followed by a non-digit yields
/// exactly `n`.
proof fn lemma_parse_digits_exact(n: nat, rest: Seq<char>)
    requires
        n <= usize::MAX,
        rest.len() == 0 || !is_digit_char(rest[0]),
    ensures
        parse_digits(dec_chars(n) + rest) == Some((n, rest)),
{
    lemma_dec_chars_no_nl(n);
    lemma_dec_chars_leading(n);
    let s = dec_chars(n) + rest;
    assert(s[0] == dec_chars(n)[0]);
    if s[0] == '0' {
        assert(n == 0);
        assert(dec_chars(0nat) =~= seq![digit_char(0nat)]);
        assert(s.len() >= 2 ==> s[1] == rest[0]);
    }
    lemma_digits_loop_shift(n, rest, 0);
    assert(parse_digits_loop(rest, 0 * shift10(n) + n) == (n, rest));
}

// ---------------------------------------------------------------------
// String round trip
// ---------------------------------------------------------------------

proof fn lemma_parse_jstring_round(t: Seq<char>, rest: Seq<char>)
    ensures
        parse_jstring(esc(t) + seq!['"'] + rest) == Some((t, rest)),
    decreases t.len(),
{
    if t.len() == 0 {
        let s = esc(t) + seq!['"'] + rest;
        assert(s =~= seq!['"'] + rest);
        assert(s[0] == '"');
        assert(s.skip(1) =~= rest);
        assert(t =~= Seq::<char>::empty());
    } else {
        let c = t[0];
        let t1 = t.skip(1);
        lemma_parse_jstring_round(t1, rest);
        let tail = esc(t1) + seq!['"'] + rest;
        let s = esc(t) + seq!['"'] + rest;
        assert(s =~= esc_char(c) + tail);
        if c == '"' {
            assert(s[0] == '\\' && s[1] == '"');
            assert(s.skip(2) =~= tail);
            assert(seq![c] + t1 =~= t);
        } else if c == '\\' {
            assert(s[0] == '\\' && s[1] == '\\');
            assert(s.skip(2) =~= tail);
            assert(seq![c] + t1 =~= t);
        } else if (c as u32) < 0x20 {
            let hi = (((c as u32) / 16) as nat);
            let lo = (((c as u32) % 16) as nat);
            lemma_hex_char_val(hi);
            lemma_hex_char_val(lo);
            assert(s[0] == '\\' && s[1] == 'u' && s[2] == '0' && s[3] == '0');
            assert(s[4] == hex_char(hi) && s[5] == hex_char(lo));
            assert(s.len() >= 6);
            assert(hex_val(s[4]) * 16 + hex_val(s[5]) == (c as u32)) by {
                assert(hi * 16 + lo == (c as u32));
            }
            vstd::utf8::char_u32_cast(c, c as u32);
            assert((((hex_val(s[4]) * 16 + hex_val(s[5])) as u32) as char) == c);
            assert(s.skip(6) =~= tail);
            assert(seq![c] + t1 =~= t);
        } else {
            assert(s[0] == c);
            assert(c != '"' && c != '\\' && (c as u32) >= 0x20);
            assert(s.skip(1) =~= tail);
            assert(seq![c] + t1 =~= t);
        }
    }
}

// ---------------------------------------------------------------------
// The decoder inverts the encoder
// ---------------------------------------------------------------------

/// Round trip: decoding the canonical encoding of any record gives
/// back exactly that record.
pub proof fn lemma_decode_encode(r: RecordView)
    requires
        r.id <= usize::MAX,
    ensures
        decode_rec(encode_rec(r)) == Some(r),
{
    let s = encode_rec(r);
    let rest_b = seq!['}'];
    let after_title = lit_body() + esc(r.body) + seq!['"'] + rest_b;
    let after_digits = lit_title() + esc(r.title) + seq!['"'] + after_title;
    let digits_on = dec_chars(r.id) + after_digits;

    assert(seq!['"', '}'] =~= seq!['"'] + rest_b);
    assert(s =~= lit_id() + digits_on);

    // The opening literal.
    assert(s.subrange(0, 6) =~= lit_id());
    assert(starts_with(s, lit_id()));
    assert(s.skip(6) =~= digits_on);

    // The id digits, ended by the comma of the title literal.
    lemma_dec_chars_no_nl(r.id);
    assert(after_digits[0] == ',');
    assert(!is_digit_char(','));
    lemma_parse_digits_exact(r.id, after_digits);

    // The title literal and the title string.
    assert(after_digits.subrange(0, 10) =~= lit_title());
    assert(starts_with(after_digits, lit_title()));
    assert(after_digits.skip(10) =~= esc(r.title) + seq!['"'] + after_title);
    lemma_parse_jstring_round(r.title, after_title);

    // The body literal and the body string.
    assert(after_title.subrange(0, 9) =~= lit_body());
    assert(starts_with(after_title, lit_body()));
    assert(after_title.skip(9) =~= esc(r.body) + seq!['"'] + rest_b);
    lemma_parse_jstring_round(r.body, rest_b);

    // The closing brace.
    assert(rest_b.len() == 1 && rest_b[0] == '}');
}

// ---------------------------------------------------------------------
// The executable encoder
// ---------------------------------------------------------------------

proof fn lemma_char_eq_from_u32(a: char, b: char)
    requires
        a as u32 == b as u32,
    ensures
        a == b,
{
    vstd::utf8::char_u32_cast(a, a as u32);
    vstd::utf8::char_u32_cast(b, a as u32);
}

fn digit_char_exec(d: usize) -> (r: char)
    requires
        d < 10,
    ensures
        r == digit_char(d as nat),
{
    let b: u8 = (d as u8) + 0x30;
    let r = b as char;
    proof {
        assert(r as u32 == digit_char(d as nat) as u32);
        lemma_char_eq_from_u32(r, digit_char(d as nat));
    }
    r
}

fn hex_char_exec(d: usize) -> (r: char)
    requires
        d < 16,
    ensures
        r == hex_char(d as nat),
{
    if d < 10 {
        digit_char_exec(d)
    } else {
        let b: u8 = ((d - 10) as u8) + 0x61;
        let r = b as char;
        proof {
            assert(r as u32 == hex_char(d as nat) as u32);
            lemma_char_eq_from_u32(r, hex_char(d as nat));
        }
        r
    }
}

/// Appends the decimal digits of `n`.
pub(crate) fn push_dec(out: &mut Vec<char>, n: usize)
    ensures
        final(out)@ == old(out)@ + dec_chars(n as nat),
    decreases n,
{
    if n >= 10 {
        push_dec(out, n / 10);
    }
    let d = digit_char_exec(n % 10);
    out.push(d);
    proof {
        if n < 10 {
            assert(out@ =~= old(out)@ + dec_chars(n as nat));
        } else {
            assert(out@ =~= old(out)@ + (dec_chars((n / 10) as nat) + seq![
                digit_char((n % 10) as nat),
            ]));
            assert(out@ =~= old(out)@ + dec_chars(n as nat));
        }
    }
}

proof fn lemma_esc_snoc(s: Seq<char>, c: char)
    ensures
        esc(s.push(c)) == esc(s) + esc_char(c),
    decreases s.len(),
{
    if s.len() == 0 {
        assert(s.push(c)[0] == c);
        assert(s.push(c).skip(1) =~= Seq::<char>::empty());
        assert(esc(Seq::<char>::empty()) =~= Seq::<char>::empty());
        assert(esc(s.push(c)) == esc_char(s.push(c)[0]) + esc(s.push(c).skip(1)));
        assert(esc(s.push(c)) =~= esc_char(c));
        assert(esc(s) + esc_char(c) =~= esc_char(c));
    } else {
        assert(s.push(c)[0] == s[0]);
        assert(s.push(c).skip(1) =~= s.skip(1).push(c));
        lemma_esc_snoc(s.skip(1), c);
        assert(esc_char(s[0]) + (esc(s.skip(1)) + esc_char(c)) =~= (esc_char(s[0]) + esc(
            s.skip(1),
        )) + esc_char(c));
    }
}

/// Appends the escaped form of the string's characters.
fn push_escaped(out: &mut Vec<char>, s: &String)
    ensures
        final(out)@ == old(out)@ + esc(s@),
{
    let cv = crate::text::chars_of(s.as_str());
    let ghost base = out@;
    let mut i: usize = 0;
    while i < cv.len()
        invariant
            i <= cv.len(),
            cv@ == s@,
            out@ == base + esc(cv@.subrange(0, i as int)),
        decreases cv.len() - i,
    {
        let c = cv[i];
        let cu = c as u32;
        let ghost pre = out@;
        if c == '"' {
            out.push('\\');
            out.push('"');
        } else if c == '\\' {
            out.push('\\');
            out.push('\\');
        } else if cu < 0x20 {
            out.push('\\');
            out.push('u');
            out.push('0');
            out.push('0');
            out.push(hex_char_exec((cu / 16) as usize));
            out.push(hex_char_exec((cu % 16) as usize));
        } else {
            out.push(c);
        }
        proof {
            assert(out@ =~= pre + esc_char(cv@[i as int]));
            lemma_esc_snoc(cv@.subrange(0, i as int), cv@[i as int]);
            assert(cv@.subrange(0, i as int).push(cv@[i as int]) =~= cv@.subrange(0, i + 1));
            assert(out@ =~= base + esc(cv@.subrange(0, i + 1)));
        }
        i = i + 1;
    }
    proof {
        assert(cv@.subrange(0, cv@.len() as int) =~= cv@);
    }
}

/// Encodes a record as its canonical one-line form, without the
/// trailing newline.
pub fn encode_meta(meta: &ReviewMeta) -> (r: Vec<char>)
    ensures
        r@ == encode_rec(meta@),
{
    let mut out: Vec<char> = Vec::new();
    out.push('{');
    out.push('"');
    out.push('i');
    out.push('d');
    out.push('"');
    out.push(':');
    proof {
        assert(out@ =~= lit_id());
    }
    push_dec(&mut out, meta.id);
    let ghost s1 = lit_id() + dec_chars(meta.id as nat);
    out.push(',');
    out.push('"');
    out.push('t');
    out.push('i');
    out.push('t');
    out.push('l');
    out.push('e');
    out.push('"');
    out.push(':');
    out.push('"');
    proof {
        assert(out@ =~= s1 + lit_title());
    }
    push_escaped(&mut out, &meta.title);
    let ghost s2 = s1 + lit_title() + esc(meta.title@);
    out.push('"');
    out.push(',');
    out.push('"');
    out.push('b');
    out.push('o');
    out.push('d');
    out.push('y');
    out.push('"');
    out.push(':');
    out.push('"');
    proof {
        assert(out@ =~= s2 + seq!['"'] + lit_body());
    }
    push_escaped(&mut out, &meta.body);
    out.push('"');
    out.push('}');
    proof {
        assert(out@ =~= encode_rec(meta@));
    }
    out
}

// ---------------------------------------------------------------------
// The executable decoder
// ---------------------------------------------------------------------

pub open spec fn with_prefix(pre: Seq<char>, r: Option<(Seq<char>, Seq<char>)>) -> Option<
    (Seq<char>, Seq<char>),
> {
    match r {
        Some(p) => Some((pre + p.0, p.1)),
        None => None,
    }
}

proof fn lemma_with_prefix_empty(r: Option<(Seq<char>, Seq<char>)>)
    ensures
        with_prefix(Seq::empty(), r) == r,
{
    match r {
        Some(p) => {
            assert(Seq::<char>::empty() + p.0 =~= p.0);
        },
        None => {},
    }
}

proof fn lemma_with_prefix_prepend(pre: Seq<char>, c: char, r: Option<(Seq<char>, Seq<char>)>)
    ensures
        with_prefix(pre, prepend(c, r)) == with_prefix(pre.push(c), r),
{
    match r {
        Some(p) => {
            assert(pre + (seq![c] + p.0) =~= pre.push(c) + p.0);
        },
        None => {},
    }
}

fn is_digit_exec(c: char) -> (r: bool)
    ensures
        r == is_digit_char(c),
{
    '0' <= c && c <= '9'
}

fn is_hex_exec(c: char) -> (r: bool)
    ensures
        r == is_hex_char(c),
{
    ('0' <= c && c <= '9') || ('a' <= c && c <= 'f')
}

fn hex_val_exec(c: char) -> (r: u32)
    requires
        is_hex_char(c),
    ensures
        r as nat == hex_val(c),
        r < 16,
{
    let u = c as u32;
    if u <= 0x39 {
        u - 0x30
    } else {
        u - 0x61 + 10
    }
}

/// Parses a string body from `start`, through its closing quote.
fn parse_string_exec(line: &Vec<char>, start: usize) -> (r: Option<(Vec<char>, usize)>)
    requires
        start <= line@.len(),
    ensures
        match r {
            Some(p) => p.1 <= line@.len() && parse_jstring(line@.skip(start as int)) == Some(
                (p.0@, line@.skip(p.1 as int)),
            ),
            None => parse_jstring(line@.skip(start as int)) is None,
        },
{
    let n = line.len();
    let mut pos = start;
    let mut out: Vec<char> = Vec::new();
    proof {
        lemma_with_prefix_empty(parse_jstring(line@.skip(start as int)));
    }
    while pos < n
        invariant
            start <= pos <= n,
            n == line@.len(),
            parse_jstring(line@.skip(start as int)) == with_prefix(
                out@,
                parse_jstring(line@.skip(pos as int)),
            ),
        decreases n - pos,
    {
        let c = line[pos];
        let ghost suf = line@.skip(pos as int);
        let ghost pre = out@;
        proof {
            assert(suf[0] == line@[pos as int]);
        }
        if c == '"' {
            proof {
                assert(suf.skip(1) =~= line@.skip(pos + 1));
                assert(parse_jstring(suf) == Some((Seq::<char>::empty(), line@.skip(pos + 1))));
                assert(out@ + Seq::<char>::empty() =~= out@);
            }
            return Some((out, pos + 1));
        } else if c == '\\' {
            if pos + 1 >= n {
                proof {
                    assert(suf.len() == 1);
                    assert(parse_jstring(suf) is None);
                }
                return None;
            }
            let e = line[pos + 1];
            proof {
                assert(suf[1] == line@[pos + 1]);
            }
            if e == '"' || e == '\\' {
                out.push(e);
                proof {
                    assert(suf.skip(2) =~= line@.skip(pos + 2));
                    lemma_with_prefix_prepend(pre, e, parse_jstring(line@.skip(pos + 2)));
                    assert(parse_jstring(suf) == prepend(e, parse_jstring(line@.skip(pos + 2))));
                }
                pos = pos + 2;
            } else if e == 'u' {
                if n - pos < 6 {
                    proof {
                        assert(suf.len() < 6);
                        assert(parse_jstring(suf) is None);
                    }
                    return None;
                }
                let c2 = line[pos + 2];
                let c3 = line[pos + 3];
                let c4 = line[pos + 4];
                let c5 = line[pos + 5];
                proof {
                    assert(suf[2] == line@[pos + 2] && suf[3] == line@[pos + 3]);
                    assert(suf[4] == line@[pos + 4] && suf[5] == line@[pos + 5]);
                }
                if c2 == '0' && c3 == '0' && is_hex_exec(c4) && is_hex_exec(c5) {
                    let v = hex_val_exec(c4) * 16 + hex_val_exec(c5);
                    if v < 0x20 {
                        let dc = (v as u8) as char;
                        let ghost sc = (((hex_val(suf[4]) * 16 + hex_val(suf[5])) as u32) as char);
                        out.push(dc);
                        proof {
                            assert(dc as u32 == v);
                            assert(sc as u32 == v);
                            lemma_char_eq_from_u32(dc, sc);
                            assert(suf.skip(6) =~= line@.skip(pos + 6));
                            lemma_with_prefix_prepend(pre, sc, parse_jstring(line@.skip(pos + 6)));
                            assert(parse_jstring(suf) == prepend(
                                sc,
                                parse_jstring(line@.skip(pos + 6)),
                            ));
                        }
                        pos = pos + 6;
                    } else {
                        proof {
                            assert(parse_jstring(suf) is None);
                        }
                        return None;
                    }
                } else {
                    proof {
                        assert(parse_jstring(suf) is None);
                    }
                    return None;
                }
            } else {
                proof {
                    assert(parse_jstring(suf) is None);
                }
                return None;
            }
        } else {
            let cu = c as u32;
            if cu >= 0x20 {
                out.push(c);
                proof {
                    assert(suf.skip(1) =~= line@.skip(pos + 1));
                    lemma_with_prefix_prepend(pre, c, parse_jstring(line@.skip(pos + 1)));
                    assert(parse_jstring(suf) == prepend(c, parse_jstring(line@.skip(pos + 1))));
                }
                pos = pos + 1;
            } else {
                proof {
                    assert(parse_jstring(suf) is None);
                }
                return None;
            }
        }
    }
    proof {
        assert(line@.skip(pos as int) =~= Seq::<char>::empty());
        assert(parse_jstring(line@.skip(pos as int)) is None);
    }
    None
}

/// Decodes one line; `None` exactly when the line is not the canonical
/// encoding of any record.
pub fn decode_meta(line: &Vec<char>) -> (r: Option<ReviewMeta>)
    ensures
        match r {
            Some(m) => decode_rec(line@) == Some(m@),
            None => decode_rec(line@) is None,
        },
{
    let n = line.len();
    // The literal `{"id":`.
    if n < 6 || line[0] != '{' || line[1] != '"' || line[2] != 'i' || line[3] != 'd' || line[4]
        != '"' || line[5] != ':' {
        proof {
            if starts_with(line@, lit_id()) {
                let sub = line@.subrange(0, 6);
                assert(line@[0] == sub[0] && line@[1] == sub[1] && line@[2] == sub[2] && line@[3]
                    == sub[3] && line@[4] == sub[4] && line@[5] == sub[5]);
            }
        }
        return None;
    }
    proof {
        assert(line@.subrange(0, 6) =~= lit_id());
    }
    // The id digits.
    let mut pos: usize = 6;
    let mut acc: usize = 0;
    while pos < n && '0' <= line[pos] && line[pos] <= '9'
        invariant
            6 <= pos <= n,
            n == line@.len(),
            parse_digits_loop(line@.skip(6), 0) == parse_digits_loop(
                line@.skip(pos as int),
                acc as nat,
            ),
            pos > 6 ==> is_digit_char(line@[6]),
            pos > 7 ==> is_digit_char(line@[7]),
        decreases n - pos,
    {
        let c = line[pos];
        let d = (c as u32 - 0x30) as usize;
        let ghost suf = line@.skip(pos as int);
        proof {
            assert(suf[0] == line@[pos as int]);
            assert(d as nat == digit_val(suf[0]));
            assert(suf.skip(1) =~= line@.skip(pos + 1));
        }
        if acc > (usize::MAX - d) / 10 {
            proof {
                vstd::arithmetic::div_mod::lemma_fundamental_div_mod((usize::MAX - d) as int, 10);
                assert(acc as nat * 10 + d as nat > usize::MAX);
                lemma_digits_loop_ge(line@.skip(pos + 1), acc as nat * 10 + d as nat);
                assert(parse_digits(line@.skip(6)) is None);
                assert(line@.skip(6)[0] == line@[6]);
            }
            return None;
        }
        acc = acc * 10 + d;
        pos = pos + 1;
    }
    proof {
        let suf = line@.skip(pos as int);
        if pos < n {
            assert(suf[0] == line@[pos as int]);
        } else {
            assert(suf.len() == 0);
        }
        assert(parse_digits_loop(suf, acc as nat) == (acc as nat, suf));
    }
    if pos == 6 {
        proof {
            let s6 = line@.skip(6);
            assert(parse_digits(s6) is None);
        }
        return None;
    }
    if line[6] == '0' && pos > 7 {
        proof {
            let s6 = line@.skip(6);
            assert(s6[0] == line@[6] && s6[1] == line@[7]);
            assert(parse_digits(s6) is None);
        }
        return None;
    }
    proof {
        let s6 = line@.skip(6);
        assert(s6[0] == line@[6]);
        assert(pos > 7 ==> s6[1] == line@[7]);
        if s6[0] == '0' && s6.len() >= 2 && is_digit_char(s6[1]) {
            assert(s6[1] == line@[7]);
            assert(pos == 7);
            assert(false);
        }
        assert(parse_digits(line@.skip(6)) == Some((acc as nat, line@.skip(pos as int))));
    }
    let id: usize = acc;
    let ghost after_digits = line@.skip(pos as int);
    // The literal `,"title":"`.
    if n - pos < 10 || line[pos] != ',' || line[pos + 1] != '"' || line[pos + 2] != 't' || line[pos
        + 3] != 'i' || line[pos + 4] != 't' || line[pos + 5] != 'l' || line[pos + 6] != 'e' || line[
        pos + 7] != '"' || line[pos + 8] != ':' || line[pos + 9] != '"' {
        proof {
            if starts_with(after_digits, lit_title()) {
                let sub = after_digits.subrange(0, 10);
                assert(after_digits[0] == sub[0] && after_digits[1] == sub[1] && after_digits[2]
                    == sub[2] && after_digits[3] == sub[3] && after_digits[4] == sub[4]
                    && after_digits[5] == sub[5] && after_digits[6] == sub[6] && after_digits[7]
                    == sub[7] && after_digits[8] == sub[8] && after_digits[9] == sub[9]);
                assert(forall|k: int| 0 <= k < 10 ==> after_digits[k] == line@[pos + k]);
            }
        }
        return None;
    }
    proof {
        assert(forall|k: int| 0 <= k < 10 ==> after_digits[k] == line@[pos + k]);
        assert(after_digits.subrange(0, 10) =~= lit_title());
        assert(starts_with(after_digits, lit_title()));
        assert(after_digits.skip(10) =~= line@.skip(pos + 10));
    }
    // The title string.
    let title_parse = parse_string_exec(line, pos + 10);
    let (title_chars, pos2) = match title_parse {
        Some(p) => p,
        None => {
            return None;
        },
    };
    let ghost after_title = line@.skip(pos2 as int);
    // The literal `,"body":"`.
    if n - pos2 < 9 || line[pos2] != ',' || line[pos2 + 1] != '"' || line[pos2 + 2] != 'b' || line[
        pos2 + 3] != 'o' || line[pos2 + 4] != 'd' || line[pos2 + 5] != 'y' || line[pos2 + 6] != '"'
        || line[pos2 + 7] != ':' || line[pos2 + 8] != '"' {
        proof {
            if starts_with(after_title, lit_body()) {
                let sub = after_title.subrange(0, 9);
                assert(after_title[0] == sub[0] && after_title[1] == sub[1] && after_title[2]
                    == sub[2] && after_title[3] == sub[3] && after_title[4] == sub[4]
                    && after_title[5] == sub[5] && after_title[6] == sub[6] && after_title[7]
                    == sub[7] && after_title[8] == sub[8]);
                assert(forall|k: int| 0 <= k < 9 ==> after_title[k] == line@[pos2 + k]);
            }
        }
        return None;
    }
    proof {
        assert(forall|k: int| 0 <= k < 9 ==> after_title[k] == line@[pos2 + k]);
        assert(after_title.subrange(0, 9) =~= lit_body());
        assert(starts_with(after_title, lit_body()));
        assert(after_title.skip(9) =~= line@.skip(pos2 + 9));
    }
    // The body string.
    let body_parse = parse_string_exec(line, pos2 + 9);
    let (body_chars, pos3) = match body_parse {
        Some(p) => p,
        None => {
            return None;
        },
    };
    let ghost after_body = line@.skip(pos3 as int);
    // The closing brace, ending the line.
    if !(n - pos3 == 1 && line[pos3] == '}') {
        proof {
            if after_body.len() == 1 && after_body[0] == '}' {
                assert(after_body.len() == n - pos3);
                assert(after_body[0] == line@[pos3 as int]);
            }
        }
        return None;
    }
    proof {
        assert(after_body.len() == 1 && after_body[0] == '}');
    }
    let title = crate::text::string_of_chars(&title_chars);
    let body = crate::text::string_of_chars(&body_chars);
    let m = ReviewMeta { id, title, body };
    proof {
        assert(decode_rec(line@) == Some(m@));
    }
    Some(m)
}

/// Decodes one line of the metadata log, reporting a corrupt line.
pub fn decode_line(line: &Vec<char>) -> (r: Result<ReviewMeta, StoreError>)
    ensures
        match r {
            Ok(m) => decode_rec(line@) == Some(m@),
            Err(e) => decode_rec(line@) is None && e == StoreError::CorruptData,
        },
{
    match decode_meta(line) {
        Some(m) => Ok(m),
        None => Err(StoreError::CorruptData),
    }
}

} // verus!
