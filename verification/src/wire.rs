//! Self-delimiting byte fields: a length of eight bytes, most significant
//! first, and after it that many bytes.

use vstd::prelude::*;
use vstd::slice::slice_subrange;
use vstd::slice::slice_to_vec;
use vstd::utf8::decode_utf8;
use vstd::utf8::encode_utf8;
use vstd::utf8::valid_utf8;

verus! {

/// `n` without its `k` lowest bytes.
pub open spec fn drop_bytes(n: u64, k: nat) -> u64
    decreases k,
{
    if k == 0 {
        n
    } else {
        drop_bytes(n, (k - 1) as nat) / 256
    }
}

/// The eight bytes of `n`, most significant first.
pub open spec fn u64_bytes(n: u64) -> Seq<u8> {
    seq![
        (drop_bytes(n, 7) % 256) as u8,
        (drop_bytes(n, 6) % 256) as u8,
        (drop_bytes(n, 5) % 256) as u8,
        (drop_bytes(n, 4) % 256) as u8,
        (drop_bytes(n, 3) % 256) as u8,
        (drop_bytes(n, 2) % 256) as u8,
        (drop_bytes(n, 1) % 256) as u8,
        (n % 256) as u8,
    ]
}

/// The number that the first eight bytes of `b` stand for.
pub open spec fn u64_of(b: Seq<u8>) -> int
    recommends
        b.len() >= 8,
{
    b[0] as int * 0x100_0000_0000_0000 + b[1] as int * 0x1_0000_0000_0000 + b[2] as int
        * 0x100_0000_0000 + b[3] as int * 0x1_0000_0000 + b[4] as int * 0x100_0000 + b[5] as int
        * 0x1_0000 + b[6] as int * 0x100 + b[7] as int
}

/// Reading the bytes of a number gives the number back.
pub proof fn lemma_u64_round_trip(n: u64)
    ensures
        u64_bytes(n).len() == 8,
        u64_of(u64_bytes(n)) == n,
{
    reveal_with_fuel(drop_bytes, 9);
    let q1 = n / 256;
    let q2 = q1 / 256;
    let q3 = q2 / 256;
    let q4 = q3 / 256;
    let q5 = q4 / 256;
    let q6 = q5 / 256;
    let q7 = q6 / 256;
    assert(drop_bytes(n, 7) == q7);
    assert(q7 < 256);
    assert(q6 == q7 * 256 + q6 % 256);
    assert(q5 == q6 * 256 + q5 % 256);
    assert(q4 == q5 * 256 + q4 % 256);
    assert(q3 == q4 * 256 + q3 % 256);
    assert(q2 == q3 * 256 + q2 % 256);
    assert(q1 == q2 * 256 + q1 % 256);
    assert(n == q1 * 256 + n % 256);
}

/// A byte string behind its length.
pub open spec fn field(b: Seq<u8>) -> Seq<u8> {
    u64_bytes(b.len() as u64) + b
}

/// Splits the first field off `b`: the field's bytes and what follows them.
/// `None` where `b` ends before the field does.
pub open spec fn split_field(b: Seq<u8>) -> Option<(Seq<u8>, Seq<u8>)> {
    if b.len() < 8 {
        None
    } else if u64_of(b) > b.len() - 8 {
        None
    } else {
        Some((b.subrange(8, 8 + u64_of(b)), b.subrange(8 + u64_of(b), b.len() as int)))
    }
}

/// A field in front of other bytes is split off whole.
pub proof fn lemma_split_field(b: Seq<u8>, rest: Seq<u8>)
    requires
        b.len() <= u64::MAX,
    ensures
        split_field(field(b) + rest) == Some((b, rest)),
{
    let all = field(b) + rest;
    lemma_u64_round_trip(b.len() as u64);
    assert(all.len() == 8 + b.len() + rest.len());
    assert forall|i: int| 0 <= i < 8 implies all[i] == u64_bytes(b.len() as u64)[i] by {}
    assert(u64_of(all) == b.len());
    assert(all.subrange(8, 8 + b.len() as int) =~= b);
    assert(all.subrange(8 + b.len() as int, all.len() as int) =~= rest);
}

/// Appends the eight bytes of `n`.
pub fn put_u64(out: &mut Vec<u8>, n: u64)
    ensures
        final(out)@ == old(out)@ + u64_bytes(n),
{
    reveal_with_fuel(drop_bytes, 9);
    let q1: u64 = n / 256;
    let q2: u64 = q1 / 256;
    let q3: u64 = q2 / 256;
    let q4: u64 = q3 / 256;
    let q5: u64 = q4 / 256;
    let q6: u64 = q5 / 256;
    let q7: u64 = q6 / 256;
    out.push((q7 % 256) as u8);
    out.push((q6 % 256) as u8);
    out.push((q5 % 256) as u8);
    out.push((q4 % 256) as u8);
    out.push((q3 % 256) as u8);
    out.push((q2 % 256) as u8);
    out.push((q1 % 256) as u8);
    out.push((n % 256) as u8);
    assert(out@ =~= old(out)@ + u64_bytes(n));
}

/// Reads the number in the eight bytes at `at`.
pub fn get_u64(data: &[u8], at: usize) -> (n: u64)
    requires
        at + 8 <= data@.len(),
    ensures
        n == u64_of(data@.subrange(at as int, data@.len() as int)),
{
    let b0: u64 = data[at] as u64;
    let b1: u64 = data[at + 1] as u64;
    let b2: u64 = data[at + 2] as u64;
    let b3: u64 = data[at + 3] as u64;
    let b4: u64 = data[at + 4] as u64;
    let b5: u64 = data[at + 5] as u64;
    let b6: u64 = data[at + 6] as u64;
    let b7: u64 = data[at + 7] as u64;
    b0 * 0x100_0000_0000_0000 + b1 * 0x1_0000_0000_0000 + b2 * 0x100_0000_0000 + b3 * 0x1_0000_0000
        + b4 * 0x100_0000 + b5 * 0x1_0000 + b6 * 0x100 + b7
}

/// Appends `bytes` as a field.
pub fn put_field(out: &mut Vec<u8>, bytes: &[u8])
    ensures
        final(out)@ == old(out)@ + field(bytes@),
{
    put_u64(out, bytes.len() as u64);
    let ghost mid = out@;
    out.extend_from_slice(bytes);
    assert(out@ =~= mid + bytes@);
    assert(out@ =~= old(out)@ + field(bytes@));
}

/// Finds the field that starts at `at`: where its bytes begin and end.
pub fn read_field(data: &[u8], at: usize) -> (span: Option<(usize, usize)>)
    requires
        at <= data@.len(),
    ensures
        match span {
            Some((from, to)) => at + 8 == from && from <= to <= data@.len() && split_field(
                data@.subrange(at as int, data@.len() as int),
            ) == Some(
                (
                    data@.subrange(from as int, to as int),
                    data@.subrange(to as int, data@.len() as int),
                ),
            ),
            None => split_field(data@.subrange(at as int, data@.len() as int)) is None,
        },
{
    let ghost b = data@.subrange(at as int, data@.len() as int);
    if data.len() - at < 8 {
        return None;
    }
    let n = get_u64(data, at);
    let room = data.len() - at - 8;
    if n > room as u64 {
        return None;
    }
    let from = at + 8;
    let to = from + n as usize;
    assert(b.subrange(8, 8 + u64_of(b)) =~= data@.subrange(from as int, to as int));
    assert(b.subrange(8 + u64_of(b), b.len() as int) =~= data@.subrange(
        to as int,
        data@.len() as int,
    ));
    Some((from, to))
}

/// The text that `bytes` spell in UTF-8, if they spell one.
pub open spec fn text_of(bytes: Seq<u8>) -> Option<Seq<char>> {
    if valid_utf8(bytes) {
        Some(decode_utf8(bytes))
    } else {
        None
    }
}

/// The bytes of a text spell that text.
pub proof fn lemma_text_round_trip(text: Seq<char>)
    ensures
        text_of(encode_utf8(text)) == Some(text),
{
    vstd::utf8::encode_utf8_valid_utf8(text);
    vstd::utf8::encode_utf8_decode_utf8(text);
}

/// `String::from_utf8` of std.  It hands back a string exactly when the bytes
/// are valid UTF-8, and the string's own bytes are then the bytes given.
#[verifier::external_body]
fn string_from_utf8(bytes: Vec<u8>) -> (text: Option<String>)
    ensures
        match text {
            Some(s) => valid_utf8(bytes@) && encode_utf8(s@) == bytes@,
            None => !valid_utf8(bytes@),
        },
{
    String::from_utf8(bytes).ok()
}

/// Reads the bytes of `data` between `from` and `to` as a text.
pub fn read_text(data: &[u8], from: usize, to: usize) -> (text: Option<String>)
    requires
        from <= to <= data@.len(),
    ensures
        match text {
            Some(s) => text_of(data@.subrange(from as int, to as int)) == Some(s@),
            None => text_of(data@.subrange(from as int, to as int)) is None,
        },
{
    let piece = slice_to_vec(slice_subrange(data, from, to));
    let text = string_from_utf8(piece);
    proof {
        if text is Some {
            vstd::utf8::encode_utf8_decode_utf8(text->0@);
        }
    }
    text
}

} // verus!
