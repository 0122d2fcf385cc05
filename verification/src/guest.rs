use vstd::prelude::*;

use crate::arena::Arena;
use crate::errors::GuestError;
use crate::json::{canon_table, decode_table, decode_text, encode_table, encode_text, parse_table};
use crate::table::merge_entries;
use crate::tokens::{text_entries, word_count};
use vstd::string::StringExecFns;
use vstd::utf8::{decode_utf8, encode_utf8, valid_utf8};

verus! {

/// The marker `fx` appends to its input text.
pub open spec fn fx_marker() -> Seq<char> {
    " <-- Tagged from Wasm"@
}

/// The text `fx` produces from an input text.
pub open spec fn fx_text(s: Seq<char>) -> Seq<char> {
    s + fx_marker()
}

/// The bytes `fx` writes back for a valid input region.
pub open spec fn fx_output(input: Seq<u8>) -> Seq<u8> {
    encode_utf8(fx_text(decode_utf8(input)))
}

/// The bytes `map` writes back for a valid input region: the serialized
/// frequency table of the input text.
pub open spec fn map_output(input: Seq<u8>) -> Seq<u8> {
    canon_table(text_entries(decode_utf8(input)))
}

/// The bytes `reduce` writes back for two valid input payloads: the
/// serialized merge of the two decoded tables. `None` when either payload
/// does not decode.
pub open spec fn reduce_output(b1: Seq<u8>, b2: Seq<u8>) -> Option<Seq<u8>> {
    match (parse_table(b1), parse_table(b2)) {
        (Some(e1), Some(e2)) => Some(canon_table(merge_entries(e1, e2))),
        _ => None,
    }
}

/// Tagging is not idempotent: applying `fx` to its own output appends a
/// second marker rather than leaving the text unchanged.
pub proof fn lemma_fx_not_idempotent(s: Seq<char>)
    ensures
        fx_text(fx_text(s)) != fx_text(s),
{
    reveal_strlit(" <-- Tagged from Wasm");
    assert(fx_marker().len() == 21);
    assert(fx_text(fx_text(s)).len() == s.len() + 42);
}

/// The in-place text transform: read the region as UTF-8 text, append the
/// marker, write the result back at the same offset, and report its byte
/// length. Fails without touching the arena when the input is not UTF-8
/// (`InvalidEncoding`) or the output does not fit below the watermark
/// (`OutOfCapacity`).
pub fn fx(a: &mut Arena, offset: usize, len: usize) -> (r: Result<usize, GuestError>)
    requires
        offset + len <= old(a)@.len(),
    ensures
        ({
            let input = old(a)@.subrange(offset as int, offset + len);
            match r {
                Ok(m) => {
                    &&& valid_utf8(input)
                    &&& m == fx_output(input).len()
                    &&& offset + m <= old(a)@.len()
                    &&& final(a)@ == old(a)@.take(offset as int) + fx_output(input) + old(
                        a,
                    )@.skip(offset + m)
                },
                Err(GuestError::InvalidEncoding) => !valid_utf8(input) && final(a)@ == old(a)@,
                Err(GuestError::OutOfCapacity) => valid_utf8(input) && offset + fx_output(
                    input,
                ).len() > old(a)@.len() && final(a)@ == old(a)@,
            }
        }),
{
    let reg = a.region(offset, len);
    let s = match decode_text(reg) {
        Ok(s) => s,
        Err(e) => {
            return Err(e);
        },
    };
    let tagged = s.concat(" <-- Tagged from Wasm");
    let out = encode_text(tagged.as_str());
    let size = a.size();
    if out.len() > size - offset {
        return Err(GuestError::OutOfCapacity);
    }
    a.write_at(offset, &out);
    Ok(out.len())
}

/// The map step: read the region as UTF-8 text, count its tokens, write
/// the serialized frequency table back at the same offset, and report its
/// byte length. Independent shards may each be mapped and later merged.
pub fn map(a: &mut Arena, offset: usize, len: usize) -> (r: Result<usize, GuestError>)
    requires
        offset + len <= old(a)@.len(),
    ensures
        ({
            let input = old(a)@.subrange(offset as int, offset + len);
            match r {
                Ok(m) => {
                    &&& valid_utf8(input)
                    &&& m == map_output(input).len()
                    &&& offset + m <= old(a)@.len()
                    &&& final(a)@ == old(a)@.take(offset as int) + map_output(input) + old(
                        a,
                    )@.skip(offset + m)
                },
                Err(GuestError::InvalidEncoding) => !valid_utf8(input) && final(a)@ == old(a)@,
                Err(GuestError::OutOfCapacity) => valid_utf8(input) && offset + map_output(
                    input,
                ).len() > old(a)@.len() && final(a)@ == old(a)@,
            }
        }),
{
    let reg = a.region(offset, len);
    let s = match decode_text(reg) {
        Ok(s) => s,
        Err(e) => {
            return Err(e);
        },
    };
    let t = word_count(s.as_str());
    let out = encode_table(&t);
    let size = a.size();
    if out.len() > size - offset {
        return Err(GuestError::OutOfCapacity);
    }
    a.write_at(offset, &out);
    Ok(out.len())
}

/// The reduce step: decode the two serialized tables sitting next to each
/// other at `offset`, fold the second into the first, write the merged
/// table back at `offset`, and report its byte length. The merge is
/// commutative and associative at the key/value level, so shard outputs
/// may be folded pairwise in any order.
pub fn reduce(a: &mut Arena, offset: usize, len1: usize, len2: usize) -> (r: Result<
    usize,
    GuestError,
>)
    requires
        offset + len1 + len2 <= old(a)@.len(),
    ensures
        ({
            let in1 = old(a)@.subrange(offset as int, offset + len1);
            let in2 = old(a)@.subrange(offset + len1, offset + len1 + len2);
            match r {
                Ok(m) => match reduce_output(in1, in2) {
                    Some(out) => {
                        &&& m == out.len()
                        &&& offset + m <= old(a)@.len()
                        &&& final(a)@ == old(a)@.take(offset as int) + out + old(a)@.skip(
                            offset + m,
                        )
                    },
                    None => false,
                },
                Err(GuestError::InvalidEncoding) => reduce_output(in1, in2) is None && final(a)@
                    == old(a)@,
                Err(GuestError::OutOfCapacity) => match reduce_output(in1, in2) {
                    Some(out) => offset + out.len() > old(a)@.len() && final(a)@ == old(a)@,
                    None => false,
                },
            }
        }),
{
    let size = a.size();
    let reg1 = a.region(offset, len1);
    let mut t1 = match decode_table(reg1) {
        Ok(t) => t,
        Err(e) => {
            return Err(e);
        },
    };
    let off2 = offset + len1;
    let reg2 = a.region(off2, len2);
    let t2 = match decode_table(reg2) {
        Ok(t) => t,
        Err(e) => {
            return Err(e);
        },
    };
    t1.merge_from(&t2);
    let out = encode_table(&t1);
    if out.len() > size - offset {
        return Err(GuestError::OutOfCapacity);
    }
    a.write_at(offset, &out);
    Ok(out.len())
}

} // verus!
