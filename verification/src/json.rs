use vstd::prelude::*;

use crate::errors::GuestError;
use crate::table::{plain_char, plain_entries, plain_key, wf_entries, FreqTable};
use vstd::utf8::{
    decode_first_scalar, decode_utf8, decode_utf8_first_scalar, encode_scalar, encode_utf8,
    encode_utf8_decode_utf8, encode_utf8_valid_utf8, has_width_1_encoding,
    length_of_first_scalar, pop_first_scalar, take_first_scalar, valid_utf8,
};

verus! {

/// A byte that may stand unescaped inside a JSON string: not a quote, not
/// a backslash, not a control character. Every byte of a multi-byte UTF-8
/// sequence is plain.
pub open spec fn plain_byte(b: u8) -> bool {
    b != 0x22 && b != 0x5c && b >= 0x20
}

pub open spec fn is_digit(b: u8) -> bool {
    0x30 <= b <= 0x39
}

/// The decimal digits of `v`, most significant first, as ASCII bytes.
pub open spec fn dec_digits(v: nat) -> Seq<u8>
    decreases v,
{
    if v < 10 {
        seq![(0x30 + v) as u8]
    } else {
        dec_digits(v / 10).push((0x30 + v % 10) as u8)
    }
}

/// The six bytes every serialized table opens with: a JSON object whose
/// one field, named `x`, holds the token mapping as an object.
pub open spec fn table_prefix() -> Seq<u8> {
    seq![0x7bu8, 0x22u8, 0x78u8, 0x22u8, 0x3au8, 0x7bu8]
}

/// One serialized entry: the token, quoted, then a colon and the count.
pub open spec fn canon_entry(k: Seq<char>, v: u32) -> Seq<u8> {
    seq![0x22u8] + encode_utf8(k) + seq![0x22u8, 0x3au8] + dec_digits(v as nat)
}

/// The serialized entries, comma-separated, in table order.
pub open spec fn canon_entries(es: Seq<(Seq<char>, u32)>) -> Seq<u8>
    decreases es.len(),
{
    if es.len() == 0 {
        Seq::empty()
    } else if es.len() == 1 {
        canon_entry(es[0].0, es[0].1)
    } else {
        canon_entry(es[0].0, es[0].1) + seq![0x2cu8] + canon_entries(es.drop_first())
    }
}

/// The canonical wire form of a frequency table, as the encoder emits it:
/// `{"x":{...}}` with no whitespace and no escapes.
pub open spec fn canon_table(es: Seq<(Seq<char>, u32)>) -> Seq<u8> {
    table_prefix() + canon_entries(es) + seq![0x7du8, 0x7du8]
}

/// The position of the closing quote of a string whose content starts at
/// `i`: `None` when a byte that would need an escape comes first, or the
/// input ends.
pub open spec fn scan_string(b: Seq<u8>, i: int) -> Option<int>
    decreases b.len() - i,
{
    if i < 0 || i >= b.len() {
        None
    } else if b[i] == 0x22 {
        Some(i)
    } else if !plain_byte(b[i]) {
        None
    } else {
        scan_string(b, i + 1)
    }
}

/// Parse a quoted token at position `i`: its characters and the position
/// after the closing quote. The content must be valid UTF-8.
pub open spec fn parse_key(b: Seq<u8>, i: int) -> Option<(Seq<char>, int)> {
    if 0 <= i < b.len() && b[i] == 0x22 {
        match scan_string(b, i + 1) {
            Some(j) => if valid_utf8(b.subrange(i + 1, j)) {
                Some((decode_utf8(b.subrange(i + 1, j)), j + 1))
            } else {
                None
            },
            None => None,
        }
    } else {
        None
    }
}

/// The first position at or after `i` that does not hold a digit.
pub open spec fn scan_digits(b: Seq<u8>, i: int) -> int
    decreases b.len() - i,
{
    if 0 <= i < b.len() && is_digit(b[i]) {
        scan_digits(b, i + 1)
    } else {
        i
    }
}

/// The value of a digit run, most significant digit first.
pub open spec fn digits_val(s: Seq<u8>) -> nat
    decreases s.len(),
{
    if s.len() == 0 {
        0
    } else {
        digits_val(s.drop_last()) * 10 + (if s.last() >= 0x30 {
            (s.last() - 0x30) as nat
        } else {
            0
        })
    }
}

/// Parse a count at position `i`: a digit run without a leading zero
/// (counts are at least one) whose value fits the count type.
pub open spec fn parse_count(b: Seq<u8>, i: int) -> Option<(u32, int)> {
    let j = scan_digits(b, i);
    if 0 <= i < b.len() && is_digit(b[i]) && b[i] != 0x30 && digits_val(b.subrange(i, j))
        <= u32::MAX {
        Some((digits_val(b.subrange(i, j)) as u32, j))
    } else {
        None
    }
}

/// Parse one `"token":count` entry at position `i`.
pub open spec fn parse_entry(b: Seq<u8>, i: int) -> Option<((Seq<char>, u32), int)> {
    match parse_key(b, i) {
        Some((k, j)) => if 0 <= j < b.len() && b[j] == 0x3a {
            match parse_count(b, j + 1) {
                Some((v, m)) => Some(((k, v), m)),
                None => None,
            }
        } else {
            None
        },
        None => None,
    }
}

/// Parse `entry (',' entry)* '}'` from position `i`: the entries and the
/// position after the closing brace.
pub open spec fn parse_entries_from(b: Seq<u8>, i: int) -> Option<(Seq<(Seq<char>, u32)>, int)>
    decreases b.len() - i,
{
    match parse_entry(b, i) {
        Some((e, m)) => if i < m && m < b.len() && b[m] == 0x2c {
            match parse_entries_from(b, m + 1) {
                Some((es, j)) => Some((seq![e] + es, j)),
                None => None,
            }
        } else if i <= m && m < b.len() && b[m] == 0x7d {
            Some((seq![e], m + 1))
        } else {
            None
        },
        None => None,
    }
}

/// Parse the inner object's body at position `i`: empty, or entries.
pub open spec fn parse_entries(b: Seq<u8>, i: int) -> Option<(Seq<(Seq<char>, u32)>, int)> {
    if 0 <= i < b.len() && b[i] == 0x7d {
        Some((Seq::empty(), i + 1))
    } else {
        parse_entries_from(b, i)
    }
}

pub open spec fn distinct_keys(es: Seq<(Seq<char>, u32)>) -> bool {
    forall|i: int, j: int| 0 <= i < j < es.len() ==> (#[trigger] es[i]).0 != (#[trigger] es[j]).0
}

/// The parse of a serialized table: the entries, in wire order, when the
/// bytes are exactly one well-shaped table and nothing else. The decoder
/// accepts exactly the inputs this function accepts.
pub open spec fn parse_table(b: Seq<u8>) -> Option<Seq<(Seq<char>, u32)>> {
    if b.len() >= 6 && b.subrange(0, 6) == table_prefix() {
        match parse_entries(b, 6) {
            Some((es, j)) => if 0 <= j < b.len() && b[j] == 0x7d && j + 1 == b.len()
                && distinct_keys(es) {
                Some(es)
            } else {
                None
            },
            None => None,
        }
    } else {
        None
    }
}

/// Every byte of the UTF-8 encoding of a plain character is plain.
proof fn lemma_encode_scalar_plain(c: char)
    requires
        plain_char(c),
    ensures
        forall|t: int|
            0 <= t < encode_scalar(c as u32).len() ==> plain_byte(
                #[trigger] encode_scalar(c as u32)[t],
            ),
{
    vstd::utf8::char_is_scalar(c);
    let v = c as u32;
    let e = encode_scalar(v);
    if has_width_1_encoding(v) {
        assert(e[0] == (v & 0x7F) as u8);
        assert(v <= 0x7F ==> (v & 0x7F) == v) by (bit_vector);
        assert(e[0] == v as u8);
        assert(plain_byte(e[0]));
        assert(e.len() == 1);
        assert forall|t: int| 0 <= t < e.len() implies plain_byte(#[trigger] e[t]) by {
            assert(t == 0);
        }
    } else {
        assert forall|t: int| 0 <= t < e.len() implies plain_byte(#[trigger] e[t]) by {
            assert(forall|x: u32| (0xC0u8 | ((x >> 6) & 0x1F) as u8) >= 0x80) by (bit_vector);
            assert(forall|x: u32| (0xE0u8 | ((x >> 12) & 0x0F) as u8) >= 0x80) by (bit_vector);
            assert(forall|x: u32| (0xF0u8 | ((x >> 18) & 0x7) as u8) >= 0x80) by (bit_vector);
            assert(forall|x: u32| (0x80u8 | (x & 0x3F) as u8) >= 0x80) by (bit_vector);
            assert(forall|x: u32| (0x80u8 | ((x >> 6) & 0x3F) as u8) >= 0x80) by (bit_vector);
            assert(forall|x: u32| (0x80u8 | ((x >> 12) & 0x3F) as u8) >= 0x80) by (bit_vector);
        }
    }
}

/// Every byte of the UTF-8 encoding of a plain token is plain.
proof fn lemma_encode_key_plain(k: Seq<char>)
    requires
        plain_key(k),
    ensures
        forall|t: int|
            0 <= t < encode_utf8(k).len() ==> plain_byte(#[trigger] encode_utf8(k)[t]),
    decreases k.len(),
{
    if k.len() > 0 {
        assert(plain_char(k[0]));
        lemma_encode_scalar_plain(k[0]);
        assert forall|t: int| 0 <= t < k.drop_first().len() implies plain_char(
            #[trigger] k.drop_first()[t],
        ) by {
            assert(k.drop_first()[t] == k[t + 1]);
        }
        lemma_encode_key_plain(k.drop_first());
        let e0 = encode_scalar(k[0] as u32);
        let er = encode_utf8(k.drop_first());
        assert(encode_utf8(k) == e0 + er);
        assert forall|t: int| 0 <= t < encode_utf8(k).len() implies plain_byte(
            #[trigger] encode_utf8(k)[t],
        ) by {
            if t < e0.len() {
                assert(encode_utf8(k)[t] == e0[t]);
            } else {
                assert(encode_utf8(k)[t] == er[t - e0.len()]);
            }
        }
    }
}

/// Scanning a run of plain non-quote bytes finds the quote that follows it.
proof fn lemma_scan_string_canon(b: Seq<u8>, i: int, j: int)
    requires
        0 <= i <= j < b.len(),
        forall|t: int| i <= t < j ==> plain_byte(#[trigger] b[t]) && b[t] != 0x22,
        b[j] == 0x22,
    ensures
        scan_string(b, i) == Some(j),
    decreases j - i,
{
    if i < j {
        lemma_scan_string_canon(b, i + 1, j);
    }
}

/// The decimal form of a count: at least one digit, all digits, value
/// preserved, and no leading zero for a positive count.
proof fn lemma_dec_digits(v: nat)
    ensures
        dec_digits(v).len() >= 1,
        forall|t: int| 0 <= t < dec_digits(v).len() ==> is_digit(#[trigger] dec_digits(v)[t]),
        digits_val(dec_digits(v)) == v,
        v >= 1 ==> dec_digits(v)[0] != 0x30,
    decreases v,
{
    if v < 10 {
        let s = dec_digits(v);
        assert(s == seq![(0x30 + v) as u8]);
        assert(s.drop_last() =~= Seq::<u8>::empty());
        assert(digits_val(s.drop_last()) == 0);
    } else {
        lemma_dec_digits(v / 10);
        let s = dec_digits(v);
        let p = dec_digits(v / 10);
        let d = (0x30 + v % 10) as u8;
        assert(s == p.push(d));
        assert(s.drop_last() =~= p);
        assert(s.last() == d);
        vstd::arithmetic::div_mod::lemma_fundamental_div_mod(v as int, 10);
        assert(v / 10 >= 1);
        assert(s[0] == p[0]);
        assert forall|t: int| 0 <= t < s.len() implies is_digit(#[trigger] s[t]) by {
            if t < p.len() {
                assert(s[t] == p[t]);
            }
        }
    }
}

/// Scanning a digit run stopped by a non-digit finds its end.
proof fn lemma_scan_digits_canon(b: Seq<u8>, i: int, j: int)
    requires
        0 <= i <= j < b.len(),
        forall|t: int| i <= t < j ==> is_digit(#[trigger] b[t]),
        !is_digit(b[j]),
    ensures
        scan_digits(b, i) == j,
    decreases j - i,
{
    if i < j {
        lemma_scan_digits_canon(b, i + 1, j);
    }
}

/// A canonical entry parses to its token and count, ending where the
/// entry ends, whenever a non-digit byte follows it.
proof fn lemma_parse_entry_canon(b: Seq<u8>, i: int, k: Seq<char>, v: u32)
    requires
        plain_key(k),
        v >= 1,
        0 <= i,
        i + canon_entry(k, v).len() < b.len(),
        b.subrange(i, i + canon_entry(k, v).len()) == canon_entry(k, v),
        !is_digit(b[i + canon_entry(k, v).len()]),
    ensures
        parse_entry(b, i) == Some(((k, v), i + canon_entry(k, v).len())),
{
    let ce = canon_entry(k, v);
    let ek = encode_utf8(k);
    let dd = dec_digits(v as nat);
    lemma_dec_digits(v as nat);
    let n = ek.len() as int;
    let m = dd.len() as int;
    assert(ce.len() == 1 + n + 2 + m);
    assert forall|t: int| 0 <= t < ce.len() implies b[i + t] == ce[t] by {
        assert(b.subrange(i, i + ce.len())[t] == b[i + t]);
    }
    assert(ce[0] == 0x22);
    assert forall|t: int| 0 <= t < n implies ce[1 + t] == ek[t] by {
        assert((seq![0x22u8] + ek)[1 + t] == ek[t]);
    }
    assert(ce[1 + n] == 0x22);
    assert(ce[2 + n] == 0x3a);
    assert forall|t: int| 0 <= t < m implies ce[3 + n + t] == dd[t] by {}
    // the quoted token
    lemma_encode_key_plain(k);
    assert forall|t: int| i + 1 <= t < i + 1 + n implies plain_byte(#[trigger] b[t]) && b[t]
        != 0x22 by {
        assert(b[t] == ce[t - i]);
        assert(ce[t - i] == ek[t - i - 1]);
    }
    assert(b[i + 1 + n] == 0x22);
    lemma_scan_string_canon(b, i + 1, i + 1 + n);
    assert(b.subrange(i + 1, i + 1 + n) =~= ek);
    encode_utf8_valid_utf8(k);
    encode_utf8_decode_utf8(k);
    assert(parse_key(b, i) == Some((k, i + 2 + n)));
    // the colon
    assert(b[i + 2 + n] == 0x3a);
    // the count
    assert forall|t: int| i + 3 + n <= t < i + 3 + n + m implies is_digit(#[trigger] b[t]) by {
        assert(b[t] == ce[t - i]);
        assert(ce[t - i] == dd[t - i - 3 - n]);
    }
    lemma_scan_digits_canon(b, i + 3 + n, i + 3 + n + m);
    assert(b.subrange(i + 3 + n, i + 3 + n + m) =~= dd);
    assert(b[i + 3 + n] == dd[0]);
    assert(b[i + 3 + n] != 0x30);
    assert(is_digit(b[i + 3 + n]));
    assert(digits_val(b.subrange(i + 3 + n, i + 3 + n + m)) == v as nat);
    assert(parse_count(b, i + 3 + n) == Some((v, i + 3 + n + m)));
}

/// A canonical entry list followed by a closing brace parses to exactly
/// those entries.
proof fn lemma_parse_entries_canon(b: Seq<u8>, i: int, es: Seq<(Seq<char>, u32)>)
    requires
        wf_entries(es),
        plain_entries(es),
        es.len() >= 1,
        0 <= i,
        i + canon_entries(es).len() < b.len(),
        b.subrange(i, i + canon_entries(es).len()) == canon_entries(es),
        b[i + canon_entries(es).len()] == 0x7d,
    ensures
        parse_entries_from(b, i) == Some((es, i + canon_entries(es).len() + 1)),
    decreases es.len(),
{
    let cs = canon_entries(es);
    let k = es[0].0;
    let v = es[0].1;
    let ce = canon_entry(k, v);
    assert(plain_key(k) && v >= 1);
    assert forall|t: int| 0 <= t < cs.len() implies b[i + t] == cs[t] by {
        assert(b.subrange(i, i + cs.len())[t] == b[i + t]);
    }
    if es.len() == 1 {
        assert(cs == ce);
        assert(!is_digit(0x7d));
        lemma_parse_entry_canon(b, i, k, v);
        let m = i + ce.len();
        assert(b[m] == 0x7d);
        assert(ce.len() >= 4);
        assert(parse_entries_from(b, i) == Some((seq![(k, v)], m + 1)));
        assert(seq![(k, v)] =~~= es);
    } else {
        let rest = es.drop_first();
        let crest = canon_entries(rest);
        assert(cs == ce + seq![0x2cu8] + crest);
        assert forall|t: int| 0 <= t < ce.len() implies cs[t] == ce[t] by {}
        assert(b.subrange(i, i + ce.len()) =~= ce);
        assert(cs[ce.len() as int] == 0x2c);
        assert(b[i + ce.len()] == 0x2c);
        assert(!is_digit(0x2c));
        lemma_parse_entry_canon(b, i, k, v);
        let m = i + ce.len();
        assert forall|t: int| 0 <= t < crest.len() implies cs[ce.len() + 1 + t] == crest[t] by {}
        assert(b.subrange(m + 1, m + 1 + crest.len()) =~= crest);
        assert forall|p: int, q: int| 0 <= p < q < rest.len() implies (#[trigger] rest[p]).0 != (
        #[trigger] rest[q]).0 by {
            assert(rest[p] == es[p + 1]);
            assert(rest[q] == es[q + 1]);
        }
        assert forall|p: int| 0 <= p < rest.len() implies (#[trigger] rest[p]).1 >= 1
            && plain_key(rest[p].0) by {
            assert(rest[p] == es[p + 1]);
        }
        assert(b[m + 1 + crest.len()] == 0x7d);
        lemma_parse_entries_canon(b, m + 1, rest);
        assert(ce.len() >= 4);
        assert(parse_entries_from(b, i) == Some((seq![(k, v)] + rest, i + cs.len() + 1)));
        assert(seq![(k, v)] + rest =~~= es);
    }
}

/// A successful string scan ends at a quote, and everything before it is
/// plain.
proof fn lemma_scan_string_props(b: Seq<u8>, i: int, j: int)
    requires
        scan_string(b, i) == Some(j),
    ensures
        i <= j < b.len(),
        b[j] == 0x22,
        forall|t: int| i <= t < j ==> plain_byte(#[trigger] b[t]) && b[t] != 0x22,
    decreases b.len() - i,
{
    if !(i < 0 || i >= b.len()) && b[i] != 0x22 && plain_byte(b[i]) {
        lemma_scan_string_props(b, i + 1, j);
    }
}

/// A digit scan stays in bounds and covers digits only.
proof fn lemma_scan_digits_props(b: Seq<u8>, i: int)
    requires
        0 <= i <= b.len(),
    ensures
        i <= scan_digits(b, i) <= b.len(),
        forall|t: int| i <= t < scan_digits(b, i) ==> is_digit(#[trigger] b[t]),
    decreases b.len() - i,
{
    if i < b.len() && is_digit(b[i]) {
        lemma_scan_digits_props(b, i + 1);
    }
}

/// A digit run with a nonzero leading digit has a positive value.
proof fn lemma_digits_val_pos(s: Seq<u8>)
    requires
        s.len() >= 1,
        0x31 <= s[0] <= 0x39,
    ensures
        digits_val(s) >= 1,
    decreases s.len(),
{
    if s.len() > 1 {
        assert(s.drop_last()[0] == s[0]);
        lemma_digits_val_pos(s.drop_last());
    }
}

/// Decoding plain bytes yields plain characters.
proof fn lemma_decode_plain(bs: Seq<u8>)
    requires
        valid_utf8(bs),
        forall|t: int| 0 <= t < bs.len() ==> plain_byte(#[trigger] bs[t]),
    ensures
        plain_key(decode_utf8(bs)),
    decreases bs.len(),
{
    if bs.len() > 0 {
        let w = decode_first_scalar(bs);
        let c = w as char;
        decode_utf8_first_scalar(bs);
        vstd::utf8::char_is_scalar(c);
        let cv = c as u32;
        let tf = take_first_scalar(bs);
        assert(encode_scalar(cv) == tf);
        if cv < 0x80 {
            assert(has_width_1_encoding(cv));
            assert(tf.len() == 1);
            assert(length_of_first_scalar(bs) == 1);
            assert(tf[0] == bs[0]);
            assert(tf[0] == vstd::utf8::leading_byte_width_1(cv));
            assert(cv <= 0x7F ==> (cv & 0x7F) == cv) by (bit_vector);
            assert(bs[0] == cv as u8);
            assert(plain_byte(bs[0]));
            assert(plain_char(c));
        } else {
            assert(plain_char(c));
        }
        let rest = pop_first_scalar(bs);
        assert(length_of_first_scalar(bs) >= 1);
        assert(rest.len() < bs.len());
        assert forall|t: int| 0 <= t < rest.len() implies plain_byte(#[trigger] rest[t]) by {
            assert(rest[t] == bs[t + length_of_first_scalar(bs)]);
        }
        lemma_decode_plain(rest);
        let dc = decode_utf8(bs);
        assert(dc == seq![c] + decode_utf8(rest));
        assert forall|t: int| 0 <= t < dc.len() implies plain_char(#[trigger] dc[t]) by {
            if t == 0 {
                assert(dc[0] == c);
            } else {
                assert(dc[t] == decode_utf8(rest)[t - 1]);
            }
        }
    }
}

/// What one parsed entry guarantees: the position advanced, the count is
/// positive, the token is plain.
proof fn lemma_parse_entry_props(b: Seq<u8>, i: int, e: (Seq<char>, u32), m: int)
    requires
        parse_entry(b, i) == Some((e, m)),
    ensures
        i < m <= b.len(),
        e.1 >= 1,
        plain_key(e.0),
{
    match scan_string(b, i + 1) {
        Some(j) => {
            lemma_scan_string_props(b, i + 1, j);
            let content = b.subrange(i + 1, j);
            assert forall|t: int| 0 <= t < content.len() implies plain_byte(
                #[trigger] content[t],
            ) by {
                assert(content[t] == b[i + 1 + t]);
            }
            lemma_decode_plain(content);
            assert(e.0 == decode_utf8(content));
            let p = j + 2;
            lemma_scan_digits_props(b, p);
            let q = scan_digits(b, p);
            assert(is_digit(b[p]) && b[p] != 0x30);
            let s = b.subrange(p, q);
            assert(scan_digits(b, p) == scan_digits(b, p + 1));
            lemma_scan_digits_props(b, p + 1);
            assert(s.len() >= 1);
            assert(s[0] == b[p]);
            lemma_digits_val_pos(s);
            assert(e.1 == digits_val(s));
        },
        None => {
            assert(false);
        },
    }
}

/// The round-trip law: the canonical wire form of a well-formed table
/// parses back to exactly its entries, so decoding what the encoder
/// emitted returns the table's full key/value set.
pub proof fn lemma_round_trip(es: Seq<(Seq<char>, u32)>)
    requires
        wf_entries(es),
        plain_entries(es),
    ensures
        parse_table(canon_table(es)) == Some(es),
{
    let b = canon_table(es);
    let cs = canon_entries(es);
    assert(b.len() == 6 + cs.len() + 2);
    assert(b.subrange(0, 6) =~= table_prefix());
    assert forall|t: int| 0 <= t < cs.len() implies b[6 + t] == cs[t] by {}
    assert(b[b.len() - 1] == 0x7d);
    assert(b[b.len() - 2] == 0x7d);
    if es.len() == 0 {
        assert(cs.len() == 0);
        assert(b[6] == 0x7d);
        assert(parse_entries(b, 6) == Some((Seq::<(Seq<char>, u32)>::empty(), 7int)));
        assert(b[7] == 0x7d);
        assert(Seq::<(Seq<char>, u32)>::empty() =~~= es);
    } else {
        assert(cs.len() >= 4);
        assert(cs[0] == 0x22) by {
            if es.len() == 1 {
            } else {
                assert(cs == canon_entry(es[0].0, es[0].1) + seq![0x2cu8] + canon_entries(
                    es.drop_first(),
                ));
            }
        }
        assert(b[6] == 0x22);
        assert(b.subrange(6, 6 + cs.len() as int) =~= cs);
        assert(b[6 + cs.len() as int] == 0x7d);
        lemma_parse_entries_canon(b, 6, es);
        assert(parse_entries(b, 6) == Some((es, 6 + cs.len() as int + 1)));
        assert(b[6 + cs.len() as int + 1] == 0x7d);
        assert(6 + cs.len() + 2 == b.len());
    }
}

/// The comma-joined entry bytes grow at the back, one entry at a time.
proof fn lemma_canon_entries_snoc(es: Seq<(Seq<char>, u32)>)
    requires
        es.len() >= 2,
    ensures
        canon_entries(es) == canon_entries(es.drop_last()) + seq![0x2cu8] + canon_entry(
            es.last().0,
            es.last().1,
        ),
    decreases es.len(),
{
    let dl = es.drop_last();
    let df = es.drop_first();
    if es.len() == 2 {
        assert(df.len() == 1);
        assert(df[0] == es[1]);
        assert(dl.len() == 1);
        assert(dl[0] == es[0]);
        assert(canon_entries(df) == canon_entry(es[1].0, es[1].1));
        assert(canon_entries(dl) == canon_entry(es[0].0, es[0].1));
        assert(es.last() == es[1]);
        assert(canon_entries(es) =~= canon_entries(dl) + seq![0x2cu8] + canon_entry(
            es.last().0,
            es.last().1,
        ));
    } else {
        assert(df.len() >= 2);
        lemma_canon_entries_snoc(df);
        assert(df.drop_last() =~~= dl.drop_first());
        assert(df.last() == es.last());
        assert(dl.len() >= 2);
        assert(dl[0] == es[0]);
        assert(canon_entries(dl) == canon_entry(dl[0].0, dl[0].1) + seq![0x2cu8] + canon_entries(
            dl.drop_first(),
        ));
        assert(canon_entries(es) =~= canon_entries(dl) + seq![0x2cu8] + canon_entry(
            es.last().0,
            es.last().1,
        ));
    }
}

/// Append the decimal digits of `v`, most significant first.
fn push_decimal(out: &mut Vec<u8>, v: u32)
    ensures
        final(out)@ == old(out)@ + dec_digits(v as nat),
    decreases v,
{
    if v < 10 {
        out.push(0x30u8 + (v as u8));
        proof {
            assert(final(out)@ =~= old(out)@ + dec_digits(v as nat));
        }
    } else {
        push_decimal(out, v / 10);
        out.push(0x30u8 + ((v % 10) as u8));
        proof {
            assert((v / 10) as nat == (v as nat) / 10);
            assert((v % 10) as nat == (v as nat) % 10);
            assert(final(out)@ =~= old(out)@ + dec_digits(v as nat));
        }
    }
}

/// Serialize a table to its canonical wire form. Encoding never fails:
/// every well-formed table is representable.
pub fn encode_table(t: &FreqTable) -> (r: Vec<u8>)
    requires
        t.wf(),
    ensures
        r@ == canon_table(t@),
{
    let n = t.len();
    let mut out: Vec<u8> = Vec::new();
    out.push(0x7bu8);
    out.push(0x22u8);
    out.push(0x78u8);
    out.push(0x22u8);
    out.push(0x3au8);
    out.push(0x7bu8);
    proof {
        assert(out@ =~= table_prefix());
        assert(canon_entries(t@.take(0)) =~= Seq::<u8>::empty());
        assert(out@ =~= table_prefix() + canon_entries(t@.take(0)));
    }
    let mut i: usize = 0;
    while i < n
        invariant
            t.wf(),
            n == t@.len(),
            i <= n,
            out@ == table_prefix() + canon_entries(t@.take(i as int)),
        decreases n - i,
    {
        if i > 0 {
            out.push(0x2cu8);
        }
        out.push(0x22u8);
        let k = t.key_at(i);
        let kb = k.as_str().as_bytes();
        out.extend_from_slice(kb);
        out.push(0x22u8);
        out.push(0x3au8);
        let v = t.count_at(i);
        push_decimal(&mut out, v);
        proof {
            let es = t@.take(i + 1);
            assert(es.last() == t@[i as int]);
            assert(es.drop_last() =~~= t@.take(i as int));
            assert(kb@ == encode_utf8(t@[i as int].0));
            if i == 0 {
                assert(es.len() == 1);
                assert(es[0] == t@[0]);
                assert(canon_entries(es) == canon_entry(t@[0].0, t@[0].1));
                assert(out@ =~= table_prefix() + canon_entries(t@.take(i + 1)));
            } else {
                lemma_canon_entries_snoc(es);
                assert(out@ =~= table_prefix() + canon_entries(t@.take(i + 1)));
            }
        }
        i = i + 1;
    }
    out.push(0x7du8);
    out.push(0x7du8);
    proof {
        assert(t@.take(n as int) =~= t@);
        assert(out@ =~= canon_table(t@));
    }
    out
}

/// Relies on str::from_utf8: it succeeds exactly on valid UTF-8 and views
/// the bytes as the scalar sequence they encode.
#[verifier::external_body]
fn utf8_to_string(b: &[u8]) -> (r: Option<String>)
    ensures
        match r {
            Some(s) => valid_utf8(b@) && s@ == decode_utf8(b@),
            None => !valid_utf8(b@),
        },
{
    match std::str::from_utf8(b) {
        Ok(s) => Some(s.to_string()),
        Err(_) => None,
    }
}

/// Decode a region as UTF-8 text; malformed bytes are a checked failure.
pub fn decode_text(b: &[u8]) -> (r: Result<String, GuestError>)
    ensures
        match r {
            Ok(s) => valid_utf8(b@) && s@ == decode_utf8(b@),
            Err(e) => e == GuestError::InvalidEncoding && !valid_utf8(b@),
        },
{
    match utf8_to_string(b) {
        Some(s) => Ok(s),
        None => Err(GuestError::InvalidEncoding),
    }
}

/// Encode text as UTF-8 bytes; every string is representable.
pub fn encode_text(s: &str) -> (r: Vec<u8>)
    ensures
        r@ == encode_utf8(s@),
{
    let kb = s.as_bytes();
    let mut out: Vec<u8> = Vec::new();
    out.extend_from_slice(kb);
    proof {
        assert(out@ =~= kb@);
    }
    out
}

/// Find the closing quote of a string whose content starts at `i`.
fn scan_string_x(b: &[u8], i: usize) -> (r: Option<usize>)
    requires
        i <= b@.len(),
    ensures
        match r {
            Some(j) => scan_string(b@, i as int) == Some(j as int) && i <= j < b@.len(),
            None => scan_string(b@, i as int) is None,
        },
{
    let n = b.len();
    let mut j = i;
    while j < n
        invariant
            i <= j <= n,
            n == b@.len(),
            scan_string(b@, i as int) == scan_string(b@, j as int),
        decreases n - j,
    {
        let c = b[j];
        if c == 0x22 {
            return Some(j);
        }
        if c == 0x5c || c < 0x20 {
            return None;
        }
        j = j + 1;
    }
    None
}

/// Parse a quoted token at `i`.
fn parse_key_x(b: &[u8], i: usize) -> (r: Option<(String, usize)>)
    requires
        i <= b@.len(),
    ensures
        match r {
            Some(p) => parse_key(b@, i as int) == Some((p.0@, p.1 as int)) && i < p.1 <= b@.len(),
            None => parse_key(b@, i as int) is None,
        },
{
    let n = b.len();
    if i >= n || b[i] != 0x22 {
        return None;
    }
    match scan_string_x(b, i + 1) {
        None => None,
        Some(j) => {
            let content = vstd::slice::slice_subrange(b, i + 1, j);
            match utf8_to_string(content) {
                None => None,
                Some(s) => Some((s, j + 1)),
            }
        },
    }
}

/// Parse a count at `i`.
fn parse_count_x(b: &[u8], i: usize) -> (r: Option<(u32, usize)>)
    requires
        i <= b@.len(),
    ensures
        match r {
            Some(p) => parse_count(b@, i as int) == Some((p.0, p.1 as int)) && i < p.1 <= b@.len(),
            None => parse_count(b@, i as int) is None,
        },
{
    let n = b.len();
    if i >= n {
        return None;
    }
    let c0 = b[i];
    if !(0x31 <= c0 && c0 <= 0x39) {
        return None;
    }
    let mut j = i;
    let mut acc: u64 = 0;
    let mut big = false;
    let mut stop = false;
    while j < n && !stop
        invariant
            i <= j <= n,
            n == b@.len(),
            scan_digits(b@, i as int) == scan_digits(b@, j as int),
            stop ==> j < n && !is_digit(b@[j as int]),
            big <==> digits_val(b@.subrange(i as int, j as int)) > u32::MAX,
            !big ==> acc == digits_val(b@.subrange(i as int, j as int)),
            acc <= u32::MAX,
        decreases n - j, (if stop { 0int } else { 1int }),
    {
        let c = b[j];
        if c < 0x30 || c > 0x39 {
            stop = true;
        } else {
            proof {
                let s1 = b@.subrange(i as int, j + 1);
                assert(s1.drop_last() =~= b@.subrange(i as int, j as int));
                assert(s1.last() == b@[j as int]);
            }
            if !big {
                let d = (c - 0x30) as u64;
                let nv = acc * 10 + d;
                if nv > 0xFFFF_FFFFu64 {
                    big = true;
                } else {
                    acc = nv;
                }
            }
            j = j + 1;
        }
    }
    proof {
        if !stop {
            assert(j == n);
            assert(scan_digits(b@, j as int) == j as int);
        } else {
            assert(scan_digits(b@, j as int) == j as int);
        }
        assert(scan_digits(b@, i as int) == j as int);
    }
    if big {
        return None;
    }
    proof {
        assert(is_digit(b@[i as int]) && b@[i as int] != 0x30);
        assert(acc == digits_val(b@.subrange(i as int, j as int)));
    }
    Some((acc as u32, j))
}

/// Parse one entry at `i`: its token, count, and end position.
fn parse_entry_x(b: &[u8], i: usize) -> (r: Option<(String, u32, usize)>)
    requires
        i <= b@.len(),
    ensures
        match r {
            Some(p) => parse_entry(b@, i as int) == Some(((p.0@, p.1), p.2 as int)) && i < p.2
                <= b@.len(),
            None => parse_entry(b@, i as int) is None,
        },
{
    match parse_key_x(b, i) {
        None => None,
        Some((k, j)) => {
            if j >= b.len() || b[j] != 0x3a {
                return None;
            }
            match parse_count_x(b, j + 1) {
                None => None,
                Some((v, m)) => Some((k, v, m)),
            }
        },
    }
}

/// The rest of the entry list parses consistently with the whole: what
/// remains at `i`, prefixed by the entries already read, is the full list.
spec fn parse_continues(b: Seq<u8>, i: int, acc: Seq<(Seq<char>, u32)>) -> bool {
    match parse_entries_from(b, i) {
        Some((es, j)) => parse_entries_from(b, 6) == Some((acc + es, j)),
        None => parse_entries_from(b, 6) is None,
    }
}

/// Deserialize a table from its wire form. Succeeds exactly on the inputs
/// the grammar accepts, and then returns exactly the entries on the wire;
/// anything else is an `InvalidEncoding` failure.
pub fn decode_table(b: &[u8]) -> (r: Result<FreqTable, GuestError>)
    ensures
        match r {
            Ok(t) => t.wf() && parse_table(b@) == Some(t@),
            Err(e) => e == GuestError::InvalidEncoding && parse_table(b@) is None,
        },
{
    let n = b.len();
    if n < 6 || b[0] != 0x7b || b[1] != 0x22 || b[2] != 0x78 || b[3] != 0x22 || b[4] != 0x3a
        || b[5] != 0x7b {
        proof {
            let p = table_prefix();
            assert(p[0] == 0x7b && p[1] == 0x22 && p[2] == 0x78 && p[3] == 0x22 && p[4] == 0x3a
                && p[5] == 0x7b);
            if n >= 6 && b@.subrange(0, 6) == p {
                assert(forall|t: int| 0 <= t < 6 ==> b@[t] == #[trigger] b@.subrange(0, 6)[t]);
                assert(false);
            }
        }
        return Err(GuestError::InvalidEncoding);
    }
    proof {
        let p = table_prefix();
        assert(p[0] == 0x7b && p[1] == 0x22 && p[2] == 0x78 && p[3] == 0x22 && p[4] == 0x3a
            && p[5] == 0x7b);
        assert(b@.subrange(0, 6) =~= p);
    }
    let mut t = FreqTable::new();
    if n == 6 {
        proof {
            assert(parse_key(b@, 6) is None);
            assert(parse_entry(b@, 6) is None);
            assert(parse_entries_from(b@, 6) is None);
            assert(parse_table(b@) is None);
        }
        return Err(GuestError::InvalidEncoding);
    }
    if b[6] == 0x7d {
        if n == 8 && b[7] == 0x7d {
            proof {
                assert(parse_entries(b@, 6) == Some((Seq::<(Seq<char>, u32)>::empty(), 7int)));
                assert(t@ =~~= Seq::<(Seq<char>, u32)>::empty());
                assert(parse_table(b@) == Some(t@));
            }
            return Ok(t);
        } else {
            proof {
                assert(parse_entries(b@, 6) == Some((Seq::<(Seq<char>, u32)>::empty(), 7int)));
                assert(parse_table(b@) is None);
            }
            return Err(GuestError::InvalidEncoding);
        }
    }
    let mut i: usize = 6;
    proof {
        assert(t@ =~~= Seq::<(Seq<char>, u32)>::empty());
        match parse_entries_from(b@, 6) {
            Some((es, j)) => {
                assert(t@ + es =~~= es);
            },
            None => {},
        }
        assert(parse_continues(b@, 6, t@));
    }
    loop
        invariant
            6 <= i <= n,
            n == b@.len(),
            n >= 7,
            b@[6] != 0x7d,
            b@.subrange(0, 6) == table_prefix(),
            t.wf(),
            parse_continues(b@, i as int, t@),
        decreases n - i,
    {
        match parse_entry_x(b, i) {
            None => {
                proof {
                    assert(parse_entries_from(b@, i as int) is None);
                    assert(parse_entries_from(b@, 6) is None);
                    assert(parse_table(b@) is None);
                }
                return Err(GuestError::InvalidEncoding);
            },
            Some((k, v, m)) => {
                proof {
                    lemma_parse_entry_props(b@, i as int, (k@, v), m as int);
                }
                let dup = match t.get(&k) {
                    Some(_) => true,
                    None => false,
                };
                if dup {
                    proof {
                        crate::table::lemma_entries_map_keys(t@, k@);
                        let w = choose|w: int|
                            0 <= w < t@.len() && (#[trigger] t@[w]).0 == k@;
                        match parse_entries_from(b@, i as int) {
                            Some((es, j)) => {
                                assert(es[0] == (k@, v));
                                let tot = t@ + es;
                                assert(tot[w] == t@[w]);
                                assert(tot[t@.len() as int] == es[0]);
                                assert(!distinct_keys(tot));
                                assert(parse_table(b@) is None);
                            },
                            None => {
                                assert(parse_table(b@) is None);
                            },
                        }
                    }
                    return Err(GuestError::InvalidEncoding);
                }
                let ghost t0 = t@;
                let ghost kk = k@;
                proof {
                    crate::table::lemma_entries_map_keys(t@, k@);
                }
                t.push_new(k, v);
                if m < n && b[m] == 0x2c {
                    proof {
                        match parse_entries_from(b@, m + 1) {
                            Some((es2, j)) => {
                                assert(parse_entries_from(b@, i as int) == Some(
                                    (seq![(kk, v)] + es2, j),
                                ));
                                assert(t0 + (seq![(kk, v)] + es2) =~~= t@ + es2);
                            },
                            None => {
                                assert(parse_entries_from(b@, i as int) is None);
                            },
                        }
                        assert(parse_continues(b@, m + 1, t@));
                    }
                    i = m + 1;
                } else if m < n && b[m] == 0x7d {
                    proof {
                        assert(parse_entries_from(b@, i as int) == Some(
                            (seq![(kk, v)], m + 1),
                        ));
                        assert(t0 + seq![(kk, v)] =~~= t@);
                        assert(parse_entries_from(b@, 6) == Some((t@, m + 1)));
                    }
                    if m + 1 < n && b[m + 1] == 0x7d && m + 2 == n {
                        proof {
                            t.lemma_wf();
                            assert(distinct_keys(t@));
                            assert(parse_table(b@) == Some(t@));
                        }
                        return Ok(t);
                    } else {
                        proof {
                            assert(parse_entries_from(b@, 6) is Some);
                            assert(parse_table(b@) is None);
                        }
                        return Err(GuestError::InvalidEncoding);
                    }
                } else {
                    proof {
                        assert(parse_entries_from(b@, i as int) is None);
                        assert(parse_entries_from(b@, 6) is None);
                        assert(parse_table(b@) is None);
                    }
                    return Err(GuestError::InvalidEncoding);
                }
            },
        }
    }
}

} // verus!
