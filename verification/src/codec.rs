//! The byte format of a spilled shard, with its round-trip guarantee:
//! decoding an encoded shard yields exactly the rows that were written.

use vstd::prelude::*;

use vstd::utf8::is_scalar;

use crate::value::{AttrV, DataAttribute, DataAttributes};

verus! {

/// Eight little-endian base-256 digits of a number below 2^64.
pub open spec fn enc_u64(x: int) -> Seq<u8> {
    seq![
        (x % 256) as u8,
        ((x / 0x100) % 256) as u8,
        ((x / 0x10000) % 256) as u8,
        ((x / 0x1000000) % 256) as u8,
        ((x / 0x100000000) % 256) as u8,
        ((x / 0x10000000000) % 256) as u8,
        ((x / 0x1000000000000) % 256) as u8,
        ((x / 0x100000000000000) % 256) as u8,
    ]
}

/// The number the first eight bytes spell, and the rest.
pub open spec fn dec_u64(b: Seq<u8>) -> Option<(int, Seq<u8>)> {
    if b.len() < 8 {
        None
    } else {
        Some(
            (
                b[0] + b[1] * 0x100 + b[2] * 0x10000 + b[3] * 0x1000000 + b[4] * 0x100000000 + b[5]
                    * 0x10000000000 + b[6] * 0x1000000000000 + b[7] * 0x100000000000000,
                b.skip(8),
            ),
        )
    }
}

/// A signed number as a sign byte and a magnitude.
pub open spec fn enc_i64(k: int) -> Seq<u8> {
    if k >= 0 {
        seq![0u8] + enc_u64(k)
    } else {
        seq![1u8] + enc_u64(-k)
    }
}

/// The signed number the first nine bytes spell, and the rest.
pub open spec fn dec_i64(b: Seq<u8>) -> Option<(int, Seq<u8>)> {
    if b.len() < 1 {
        None
    } else {
        let rest = b.drop_first();
        match dec_u64(rest) {
            None => None,
            Some((m, r)) => {
                if b[0] == 0u8 && m <= 0x7fff_ffff_ffff_ffff {
                    Some((m, r))
                } else if b[0] == 1u8 && 1 <= m <= 0x8000_0000_0000_0000 {
                    Some((-m, r))
                } else {
                    None
                }
            },
        }
    }
}

/// The code point of a character.
pub open spec fn char_code(c: char) -> int {
    (c as u32) as int
}

/// A character sequence, each code point in eight bytes.
pub open spec fn enc_chars(s: Seq<char>) -> Seq<u8>
    decreases s.len(),
{
    if s.len() == 0 {
        Seq::empty()
    } else {
        enc_u64(char_code(s[0])) + enc_chars(s.drop_first())
    }
}

/// The next `n` characters, and the rest.
pub open spec fn dec_chars(n: nat, b: Seq<u8>) -> Option<(Seq<char>, Seq<u8>)>
    decreases n,
{
    if n == 0 {
        Some((Seq::empty(), b))
    } else {
        match dec_u64(b) {
            None => None,
            Some((x, r)) => {
                if 0 <= x <= u32::MAX && is_scalar(x as u32) {
                    match dec_chars((n - 1) as nat, r) {
                        None => None,
                        Some((s, r2)) => Some((seq![(x as u32) as char] + s, r2)),
                    }
                } else {
                    None
                }
            },
        }
    }
}

/// A raw byte sequence of known length.
pub open spec fn dec_bytes(n: nat, b: Seq<u8>) -> Option<(Seq<u8>, Seq<u8>)> {
    if b.len() < n {
        None
    } else {
        Some((b.take(n as int), b.skip(n as int)))
    }
}

/// One value: a tag byte, then its payload.
pub open spec fn enc_value(v: AttrV) -> Seq<u8> {
    match v {
        AttrV::Str(s) => seq![0u8] + enc_u64(s.len() as int) + enc_chars(s),
        AttrV::Num(n) => seq![1u8] + enc_i64(n),
        AttrV::Id(n) => seq![2u8] + enc_i64(n),
        AttrV::Bytes(bs) => seq![3u8] + enc_u64(bs.len() as int) + bs,
        AttrV::NullId => seq![4u8],
        AttrV::Null => seq![5u8],
    }
}

/// The next value, and the rest.
pub open spec fn dec_value(b: Seq<u8>) -> Option<(AttrV, Seq<u8>)> {
    if b.len() < 1 {
        None
    } else {
        let t = b[0];
        let r = b.drop_first();
        if t == 0u8 {
            match dec_u64(r) {
                None => None,
                Some((n, r2)) => {
                    if n <= usize::MAX {
                        match dec_chars(n as nat, r2) {
                            None => None,
                            Some((s, r3)) => Some((AttrV::Str(s), r3)),
                        }
                    } else {
                        None
                    }
                },
            }
        } else if t == 1u8 {
            match dec_i64(r) {
                None => None,
                Some((n, r2)) => Some((AttrV::Num(n), r2)),
            }
        } else if t == 2u8 {
            match dec_i64(r) {
                None => None,
                Some((n, r2)) => Some((AttrV::Id(n), r2)),
            }
        } else if t == 3u8 {
            match dec_u64(r) {
                None => None,
                Some((n, r2)) => {
                    if n <= usize::MAX {
                        match dec_bytes(n as nat, r2) {
                            None => None,
                            Some((bs, r3)) => Some((AttrV::Bytes(bs), r3)),
                        }
                    } else {
                        None
                    }
                },
            }
        } else if t == 4u8 {
            Some((AttrV::NullId, r))
        } else if t == 5u8 {
            Some((AttrV::Null, r))
        } else {
            None
        }
    }
}

/// The values of one row, in order.
pub open spec fn enc_vals(row: Seq<AttrV>) -> Seq<u8>
    decreases row.len(),
{
    if row.len() == 0 {
        Seq::empty()
    } else {
        enc_value(row[0]) + enc_vals(row.drop_first())
    }
}

pub open spec fn dec_vals(n: nat, b: Seq<u8>) -> Option<(Seq<AttrV>, Seq<u8>)>
    decreases n,
{
    if n == 0 {
        Some((Seq::empty(), b))
    } else {
        match dec_value(b) {
            None => None,
            Some((v, r)) => match dec_vals((n - 1) as nat, r) {
                None => None,
                Some((vs, r2)) => Some((seq![v] + vs, r2)),
            },
        }
    }
}

/// One row: its width, then its values.
pub open spec fn enc_row(row: Seq<AttrV>) -> Seq<u8> {
    enc_u64(row.len() as int) + enc_vals(row)
}

pub open spec fn dec_row(b: Seq<u8>) -> Option<(Seq<AttrV>, Seq<u8>)> {
    match dec_u64(b) {
        None => None,
        Some((n, r)) => {
            if n <= usize::MAX {
                dec_vals(n as nat, r)
            } else {
                None
            }
        },
    }
}

/// The entries of a shard, each a key and its row.
pub open spec fn enc_entries(s: Seq<(int, Seq<AttrV>)>) -> Seq<u8>
    decreases s.len(),
{
    if s.len() == 0 {
        Seq::empty()
    } else {
        enc_i64(s[0].0) + enc_row(s[0].1) + enc_entries(s.drop_first())
    }
}

pub open spec fn dec_entries(n: nat, b: Seq<u8>) -> Option<(Seq<(int, Seq<AttrV>)>, Seq<u8>)>
    decreases n,
{
    if n == 0 {
        Some((Seq::empty(), b))
    } else {
        match dec_i64(b) {
            None => None,
            Some((k, r)) => match dec_row(r) {
                None => None,
                Some((row, r2)) => match dec_entries((n - 1) as nat, r2) {
                    None => None,
                    Some((s, r3)) => Some((seq![(k, row)] + s, r3)),
                },
            },
        }
    }
}

/// A whole shard: the entry count, then the entries.
pub open spec fn enc_records(s: Seq<(int, Seq<AttrV>)>) -> Seq<u8> {
    enc_u64(s.len() as int) + enc_entries(s)
}

/// The shard a byte string spells, when it spells one exactly.
pub open spec fn dec_records(b: Seq<u8>) -> Option<Seq<(int, Seq<AttrV>)>> {
    match dec_u64(b) {
        None => None,
        Some((n, r)) => {
            if n <= usize::MAX {
                match dec_entries(n as nat, r) {
                    None => None,
                    Some((s, rest)) => if rest.len() == 0 {
                        Some(s)
                    } else {
                        None
                    },
                }
            } else {
                None
            }
        },
    }
}

/// A value the format can carry: texts and blobs of addressable length,
/// numbers in the signed 64-bit range.
pub open spec fn val_bounded(v: AttrV) -> bool {
    match v {
        AttrV::Str(s) => s.len() <= usize::MAX,
        AttrV::Num(n) => i64::MIN <= n <= i64::MAX,
        AttrV::Id(n) => i64::MIN <= n <= i64::MAX,
        AttrV::Bytes(bs) => bs.len() <= usize::MAX,
        AttrV::NullId => true,
        AttrV::Null => true,
    }
}

pub open spec fn row_bounded(row: Seq<AttrV>) -> bool {
    row.len() <= usize::MAX && forall|i: int| 0 <= i < row.len() ==> val_bounded(#[trigger] row[i])
}

pub open spec fn records_bounded(s: Seq<(int, Seq<AttrV>)>) -> bool {
    s.len() <= usize::MAX && forall|i: int|
        0 <= i < s.len() ==> i64::MIN <= (#[trigger] s[i]).0 <= i64::MAX && row_bounded(s[i].1)
}

proof fn lemma_dec_enc_u64(x: int, rest: Seq<u8>)
    requires
        0 <= x < 0x1_0000_0000_0000_0000,
    ensures
        dec_u64(enc_u64(x) + rest) == Some((x, rest)),
{
    let b = enc_u64(x) + rest;
    assert(b.len() >= 8);
    assert(b.skip(8) =~= rest);
    let x1 = x / 0x100;
    let x2 = x / 0x10000;
    let x3 = x / 0x1000000;
    let x4 = x / 0x100000000;
    let x5 = x / 0x10000000000;
    let x6 = x / 0x1000000000000;
    let x7 = x / 0x100000000000000;
    vstd::arithmetic::div_mod::lemma_div_denominator(x, 0x100, 0x100);
    vstd::arithmetic::div_mod::lemma_div_denominator(x, 0x10000, 0x100);
    vstd::arithmetic::div_mod::lemma_div_denominator(x, 0x1000000, 0x100);
    vstd::arithmetic::div_mod::lemma_div_denominator(x, 0x100000000, 0x100);
    vstd::arithmetic::div_mod::lemma_div_denominator(x, 0x10000000000, 0x100);
    vstd::arithmetic::div_mod::lemma_div_denominator(x, 0x1000000000000, 0x100);
    vstd::arithmetic::div_mod::lemma_fundamental_div_mod(x, 0x100);
    vstd::arithmetic::div_mod::lemma_fundamental_div_mod(x1, 0x100);
    vstd::arithmetic::div_mod::lemma_fundamental_div_mod(x2, 0x100);
    vstd::arithmetic::div_mod::lemma_fundamental_div_mod(x3, 0x100);
    vstd::arithmetic::div_mod::lemma_fundamental_div_mod(x4, 0x100);
    vstd::arithmetic::div_mod::lemma_fundamental_div_mod(x5, 0x100);
    vstd::arithmetic::div_mod::lemma_fundamental_div_mod(x6, 0x100);
    assert(x7 < 0x100) by {
        vstd::arithmetic::div_mod::lemma_div_is_ordered(x, 0xffff_ffff_ffff_ffff, 0x100000000000000);
    }
    assert(x7 % 0x100 == x7) by {
        vstd::arithmetic::div_mod::lemma_small_mod(x7 as nat, 0x100);
    }
}

proof fn lemma_dec_enc_i64(k: int, rest: Seq<u8>)
    requires
        i64::MIN <= k <= i64::MAX,
    ensures
        dec_i64(enc_i64(k) + rest) == Some((k, rest)),
{
    let b = enc_i64(k) + rest;
    if k >= 0 {
        assert(b.drop_first() =~= enc_u64(k) + rest);
        lemma_dec_enc_u64(k, rest);
    } else {
        assert(b.drop_first() =~= enc_u64(-k) + rest);
        lemma_dec_enc_u64(-k, rest);
    }
}

proof fn lemma_dec_enc_chars(s: Seq<char>, rest: Seq<u8>)
    ensures
        dec_chars(s.len(), enc_chars(s) + rest) == Some((s, rest)),
    decreases s.len(),
{
    if s.len() == 0 {
        assert(enc_chars(s) + rest =~= rest);
    } else {
        let c = s[0];
        vstd::utf8::char_is_scalar(c);
        vstd::utf8::char_u32_cast(c, c as u32);
        lemma_dec_enc_chars(s.drop_first(), rest);
        assert(enc_chars(s) + rest =~= enc_u64(char_code(c)) + (enc_chars(s.drop_first()) + rest));
        lemma_dec_enc_u64(char_code(c), enc_chars(s.drop_first()) + rest);
        assert(seq![c] + s.drop_first() =~= s);
    }
}

#[verifier::rlimit(100)]
proof fn lemma_dec_enc_value(v: AttrV, rest: Seq<u8>)
    requires
        val_bounded(v),
    ensures
        dec_value(enc_value(v) + rest) == Some((v, rest)),
{
    let b = enc_value(v) + rest;
    match v {
        AttrV::Str(s) => {
            assert(b.drop_first() =~= enc_u64(s.len() as int) + (enc_chars(s) + rest));
            lemma_dec_enc_u64(s.len() as int, enc_chars(s) + rest);
            lemma_dec_enc_chars(s, rest);
        },
        AttrV::Num(n) => {
            assert(b.drop_first() =~= enc_i64(n) + rest);
            lemma_dec_enc_i64(n, rest);
        },
        AttrV::Id(n) => {
            assert(b.drop_first() =~= enc_i64(n) + rest);
            lemma_dec_enc_i64(n, rest);
        },
        AttrV::Bytes(bs) => {
            assert(b.drop_first() =~= enc_u64(bs.len() as int) + (bs + rest));
            lemma_dec_enc_u64(bs.len() as int, bs + rest);
            assert((bs + rest).take(bs.len() as int) =~= bs);
            assert((bs + rest).skip(bs.len() as int) =~= rest);
        },
        AttrV::NullId => {
            assert(b.drop_first() =~= rest);
        },
        AttrV::Null => {
            assert(b.drop_first() =~= rest);
        },
    }
}

proof fn lemma_dec_enc_vals(row: Seq<AttrV>, rest: Seq<u8>)
    requires
        forall|i: int| 0 <= i < row.len() ==> val_bounded(#[trigger] row[i]),
    ensures
        dec_vals(row.len(), enc_vals(row) + rest) == Some((row, rest)),
    decreases row.len(),
{
    if row.len() == 0 {
        assert(enc_vals(row) + rest =~= rest);
    } else {
        lemma_dec_enc_vals(row.drop_first(), rest);
        assert(enc_vals(row) + rest =~= enc_value(row[0]) + (enc_vals(row.drop_first()) + rest));
        lemma_dec_enc_value(row[0], enc_vals(row.drop_first()) + rest);
        assert(seq![row[0]] + row.drop_first() =~= row);
    }
}

proof fn lemma_dec_enc_row(row: Seq<AttrV>, rest: Seq<u8>)
    requires
        row_bounded(row),
    ensures
        dec_row(enc_row(row) + rest) == Some((row, rest)),
{
    assert(enc_row(row) + rest =~= enc_u64(row.len() as int) + (enc_vals(row) + rest));
    lemma_dec_enc_u64(row.len() as int, enc_vals(row) + rest);
    lemma_dec_enc_vals(row, rest);
}

#[verifier::rlimit(100)]
proof fn lemma_dec_enc_entries(s: Seq<(int, Seq<AttrV>)>, rest: Seq<u8>)
    requires
        forall|i: int|
            0 <= i < s.len() ==> i64::MIN <= (#[trigger] s[i]).0 <= i64::MAX && row_bounded(s[i].1),
    ensures
        dec_entries(s.len(), enc_entries(s) + rest) == Some((s, rest)),
    decreases s.len(),
{
    if s.len() == 0 {
        assert(enc_entries(s) + rest =~= rest);
    } else {
        lemma_dec_enc_entries(s.drop_first(), rest);
        let tail = enc_entries(s.drop_first()) + rest;
        let after_key = enc_row(s[0].1) + tail;
        assert(enc_entries(s) + rest =~= enc_i64(s[0].0) + after_key);
        lemma_dec_enc_i64(s[0].0, after_key);
        lemma_dec_enc_row(s[0].1, tail);
        assert(seq![(s[0].0, s[0].1)] + s.drop_first() =~= s);
    }
}

/// Yields the character with the given code point, if it is one.
///
/// Relies on `char::from_u32`: it answers the character for every Unicode
/// scalar value and nothing otherwise.
#[verifier::external_body]
fn char_from_u32(x: u32) -> (r: Option<char>)
    ensures
        match r {
            Some(c) => c as u32 == x,
            None => !is_scalar(x),
        },
{
    char::from_u32(x)
}

fn push_u64(out: &mut Vec<u8>, x: u64)
    ensures
        final(out)@ == old(out)@ + enc_u64(x as int),
{
    out.push((x % 256) as u8);
    out.push(((x / 0x100) % 256) as u8);
    out.push(((x / 0x10000) % 256) as u8);
    out.push(((x / 0x1000000) % 256) as u8);
    out.push(((x / 0x100000000) % 256) as u8);
    out.push(((x / 0x10000000000) % 256) as u8);
    out.push(((x / 0x1000000000000) % 256) as u8);
    out.push(((x / 0x100000000000000) % 256) as u8);
    proof {
        assert(out@ =~= old(out)@ + enc_u64(x as int));
    }
}

fn push_i64(out: &mut Vec<u8>, k: i64)
    ensures
        final(out)@ == old(out)@ + enc_i64(k as int),
{
    if k >= 0 {
        out.push(0u8);
        push_u64(out, k as u64);
        proof {
            assert(out@ =~= old(out)@ + enc_i64(k as int));
        }
    } else {
        out.push(1u8);
        let m: u64 = ((-(k + 1)) as u64) + 1;
        proof {
            assert(m as int == -(k as int));
        }
        push_u64(out, m);
        proof {
            assert(out@ =~= old(out)@ + enc_i64(k as int));
        }
    }
}

fn push_chars(out: &mut Vec<u8>, s: &Vec<char>)
    ensures
        final(out)@ == old(out)@ + enc_chars(s@),
{
    let n = s.len();
    let mut i: usize = 0;
    proof {
        assert(s@.skip(0) =~= s@);
    }
    while i < n
        invariant
            i <= n,
            n == s@.len(),
            out@ + enc_chars(s@.skip(i as int)) == old(out)@ + enc_chars(s@),
        decreases n - i,
    {
        let ghost pre = out@;
        proof {
            assert(s@.skip(i as int)[0] == s@[i as int]);
            assert(s@.skip(i as int).drop_first() =~= s@.skip(i + 1));
        }
        let c = s[i];
        push_u64(out, (c as u32) as u64);
        proof {
            assert(out@ + enc_chars(s@.skip(i + 1)) =~= pre + enc_chars(s@.skip(i as int)));
        }
        i = i + 1;
    }
    proof {
        assert(s@.skip(n as int) =~= Seq::<char>::empty());
        assert(out@ + enc_chars(s@.skip(n as int)) =~= out@);
    }
}

fn push_bytes(out: &mut Vec<u8>, bs: &Vec<u8>)
    ensures
        final(out)@ == old(out)@ + bs@,
{
    let n = bs.len();
    let mut i: usize = 0;
    while i < n
        invariant
            i <= n,
            n == bs@.len(),
            out@ == old(out)@ + bs@.take(i as int),
        decreases n - i,
    {
        out.push(bs[i]);
        proof {
            assert(old(out)@ + bs@.take(i + 1) =~= (old(out)@ + bs@.take(i as int)).push(
                bs@[i as int],
            ));
        }
        i = i + 1;
    }
    proof {
        assert(old(out)@ + bs@.take(n as int) =~= old(out)@ + bs@);
    }
}

fn encode_value(out: &mut Vec<u8>, v: &DataAttribute)
    ensures
        final(out)@ == old(out)@ + enc_value(v@),
        val_bounded(v@),
{
    match v {
        DataAttribute::String(s) => {
            out.push(0u8);
            let cs = crate::text::chars_of(s.as_str());
            push_u64(out, cs.len() as u64);
            push_chars(out, &cs);
            proof {
                assert(out@ =~= old(out)@ + enc_value(v@));
            }
        },
        DataAttribute::Number(n) => {
            out.push(1u8);
            push_i64(out, *n);
            proof {
                assert(out@ =~= old(out)@ + enc_value(v@));
            }
        },
        DataAttribute::Id(n) => {
            out.push(2u8);
            push_i64(out, *n);
            proof {
                assert(out@ =~= old(out)@ + enc_value(v@));
            }
        },
        DataAttribute::Data(bs) => {
            out.push(3u8);
            push_u64(out, bs.len() as u64);
            push_bytes(out, bs);
            proof {
                assert(out@ =~= old(out)@ + enc_value(v@));
            }
        },
        DataAttribute::NullId => {
            out.push(4u8);
            proof {
                assert(out@ =~= old(out)@ + enc_value(v@));
            }
        },
        DataAttribute::Null => {
            out.push(5u8);
            proof {
                assert(out@ =~= old(out)@ + enc_value(v@));
            }
        },
    }
}

fn encode_row(out: &mut Vec<u8>, row: &DataAttributes)
    ensures
        final(out)@ == old(out)@ + enc_row(row@),
        row_bounded(row@),
{
    push_u64(out, row.attributes.len() as u64);
    let n = row.attributes.len();
    let mut i: usize = 0;
    proof {
        assert(row@.skip(0) =~= row@);
        assert(out@ + enc_vals(row@.skip(0)) =~= old(out)@ + enc_row(row@));
    }
    while i < n
        invariant
            i <= n,
            n == row.attributes@.len(),
            out@ + enc_vals(row@.skip(i as int)) == old(out)@ + enc_row(row@),
            forall|j: int| 0 <= j < i ==> val_bounded(#[trigger] row@[j]),
        decreases n - i,
    {
        let ghost pre = out@;
        proof {
            assert(row@.skip(i as int)[0] == row@[i as int]);
            assert(row@.skip(i as int).drop_first() =~= row@.skip(i + 1));
            assert(row@[i as int] == row.attributes@[i as int]@);
        }
        encode_value(out, &row.attributes[i]);
        proof {
            assert(out@ + enc_vals(row@.skip(i + 1)) =~= pre + enc_vals(row@.skip(i as int)));
        }
        i = i + 1;
    }
    proof {
        assert(row@.skip(n as int) =~= Seq::<AttrV>::empty());
        assert(out@ + enc_vals(row@.skip(n as int)) =~= out@);
    }
}

fn encode_entry(out: &mut Vec<u8>, key: i64, row: &DataAttributes)
    ensures
        final(out)@ == old(out)@ + (enc_i64(key as int) + enc_row(row@)),
        i64::MIN <= key as int <= i64::MAX && row_bounded(row@),
{
    push_i64(out, key);
    encode_row(out, row);
    proof {
        assert(out@ =~= old(out)@ + (enc_i64(key as int) + enc_row(row@)));
    }
}

/// The view of a record vector.
pub open spec fn records_view(v: Seq<(i64, DataAttributes)>) -> Seq<(int, Seq<AttrV>)> {
    Seq::new(v.len(), |i: int| (v[i].0 as int, v[i].1@))
}

/// Serializes a shard's records.
#[verifier::rlimit(100)]
pub fn encode_records(records: &Vec<(i64, DataAttributes)>) -> (b: Vec<u8>)
    ensures
        b@ == enc_records(records_view(records@)),
        records_bounded(records_view(records@)),
        dec_records(b@) == Some(records_view(records@)),
{
    let ghost rv = records_view(records@);
    let mut out: Vec<u8> = Vec::new();
    push_u64(&mut out, records.len() as u64);
    let n = records.len();
    let mut i: usize = 0;
    proof {
        assert(rv.skip(0) =~= rv);
        assert(out@ =~= Seq::<u8>::empty() + enc_u64(rv.len() as int));
        assert(out@ + enc_entries(rv) =~= enc_records(rv));
        assert(out@ + enc_entries(rv.skip(0)) == out@ + enc_entries(rv));
    }
    while i < n
        invariant
            i <= n,
            n == records@.len(),
            rv == records_view(records@),
            out@ + enc_entries(rv.skip(i as int)) == enc_records(rv),
            forall|j: int|
                0 <= j < i ==> i64::MIN <= (#[trigger] rv[j]).0 <= i64::MAX && row_bounded(rv[j].1),
        decreases n - i,
    {
        let ghost pre = out@;
        proof {
            assert(rv.skip(i as int)[0] == rv[i as int]);
            assert(rv.skip(i as int).drop_first() =~= rv.skip(i + 1));
        }
        encode_entry(&mut out, records[i].0, &records[i].1);
        proof {
            assert(out@ + enc_entries(rv.skip(i + 1)) =~= pre + enc_entries(rv.skip(i as int)));
        }
        i = i + 1;
    }
    proof {
        assert(rv.skip(n as int) =~= Seq::<(int, Seq<AttrV>)>::empty());
        assert(out@ + enc_entries(rv.skip(n as int)) =~= out@);
        assert(records_bounded(rv));
        lemma_records_round_trip(rv);
    }
    out
}

fn read_u64(b: &Vec<u8>, off: usize) -> (r: Option<(u64, usize)>)
    requires
        off <= b@.len(),
    ensures
        match r {
            Some(p) => off + 8 == p.1 && p.1 <= b@.len() && dec_u64(b@.skip(off as int)) == Some(
                (p.0 as int, b@.skip(p.1 as int)),
            ),
            None => dec_u64(b@.skip(off as int)) is None,
        },
{
    if b.len() - off < 8 {
        return None;
    }
    proof {
        assert forall|k: int| 0 <= k && off + k < b@.len() implies b@.skip(off as int)[k] == b@[
            off + k
        ] by {}
        assert(b@.skip(off as int).skip(8) =~= b@.skip(off + 8));
    }
    let x: u64 = (b[off] as u64) + (b[off + 1] as u64) * 0x100 + (b[off + 2] as u64) * 0x10000 + (
    b[off + 3] as u64) * 0x1000000 + (b[off + 4] as u64) * 0x100000000 + (b[off + 5] as u64)
        * 0x10000000000 + (b[off + 6] as u64) * 0x1000000000000 + (b[off + 7] as u64)
        * 0x100000000000000;
    Some((x, off + 8))
}

fn read_i64(b: &Vec<u8>, off: usize) -> (r: Option<(i64, usize)>)
    requires
        off <= b@.len(),
    ensures
        match r {
            Some(p) => off < p.1 <= b@.len() && dec_i64(b@.skip(off as int)) == Some(
                (p.0 as int, b@.skip(p.1 as int)),
            ),
            None => dec_i64(b@.skip(off as int)) is None,
        },
{
    proof {
        if off < b@.len() {
            assert(b@.skip(off as int)[0] == b@[off as int]);
            assert(b@.skip(off as int).drop_first() =~= b@.skip(off + 1));
        }
    }
    if b.len() == off {
        return None;
    }
    let sign = b[off];
    match read_u64(b, off + 1) {
        None => None,
        Some((m, off2)) => {
            if sign == 0u8 && m <= 0x7fff_ffff_ffff_ffff {
                Some((m as i64, off2))
            } else if sign == 1u8 && 1 <= m && m <= 0x8000_0000_0000_0000 {
                if m == 0x8000_0000_0000_0000 {
                    Some((i64::MIN, off2))
                } else {
                    Some((-(m as i64), off2))
                }
            } else {
                None
            }
        },
    }
}

fn read_chars(b: &Vec<u8>, off: usize, n: usize) -> (r: Option<(Vec<char>, usize)>)
    requires
        off <= b@.len(),
    ensures
        match r {
            Some(p) => off <= p.1 <= b@.len() && dec_chars(n as nat, b@.skip(off as int)) == Some(
                (p.0@, b@.skip(p.1 as int)),
            ),
            None => dec_chars(n as nat, b@.skip(off as int)) is None,
        },
    decreases n,
{
    if n == 0 {
        let v: Vec<char> = Vec::new();
        proof {
            assert(v@ =~= Seq::<char>::empty());
        }
        return Some((v, off));
    }
    match read_u64(b, off) {
        None => None,
        Some((x, off2)) => {
            if x <= u32::MAX as u64 {
                match char_from_u32(x as u32) {
                    None => None,
                    Some(c) => {
                        match read_chars(b, off2, n - 1) {
                            None => None,
                            Some((rest, off3)) => {
                                let ghost restv = rest@;
                                let mut v: Vec<char> = Vec::new();
                                v.push(c);
                                let mut rest = rest;
                                v.append(&mut rest);
                                proof {
                                    assert(v@ =~= seq![c] + restv);
                                    assert(c as u32 == x as u32);
                                    assert((x as int as u32) as char == c) by {
                                        vstd::utf8::char_u32_cast(c, c as u32);
                                    }
                                }
                                Some((v, off3))
                            },
                        }
                    },
                }
            } else {
                None
            }
        },
    }
}

fn read_bytes(b: &Vec<u8>, off: usize, n: usize) -> (r: Option<(Vec<u8>, usize)>)
    requires
        off <= b@.len(),
    ensures
        match r {
            Some(p) => off <= p.1 <= b@.len() && dec_bytes(n as nat, b@.skip(off as int)) == Some(
                (p.0@, b@.skip(p.1 as int)),
            ),
            None => dec_bytes(n as nat, b@.skip(off as int)) is None,
        },
{
    if b.len() - off < n {
        return None;
    }
    let mut v: Vec<u8> = Vec::new();
    let mut i: usize = 0;
    while i < n
        invariant
            i <= n,
            off + n <= b@.len(),
            b@.len() <= usize::MAX,
            v@ == b@.subrange(off as int, off + i),
        decreases n - i,
    {
        v.push(b[off + i]);
        proof {
            assert(b@.subrange(off as int, off + i + 1) =~= b@.subrange(off as int, off + i).push(
                b@[off + i],
            ));
        }
        i = i + 1;
    }
    proof {
        assert(v@ =~= b@.skip(off as int).take(n as int));
        assert(b@.skip(off as int).skip(n as int) =~= b@.skip(off + n));
    }
    Some((v, off + n))
}

fn read_value(b: &Vec<u8>, off: usize) -> (r: Option<(DataAttribute, usize)>)
    requires
        off <= b@.len(),
    ensures
        match r {
            Some(p) => off < p.1 <= b@.len() && dec_value(b@.skip(off as int)) == Some(
                (p.0@, b@.skip(p.1 as int)),
            ),
            None => dec_value(b@.skip(off as int)) is None,
        },
{
    proof {
        if off < b@.len() {
            assert(b@.skip(off as int)[0] == b@[off as int]);
            assert(b@.skip(off as int).drop_first() =~= b@.skip(off + 1));
        }
    }
    if b.len() == off {
        return None;
    }
    let t = b[off];
    if t == 0u8 {
        match read_u64(b, off + 1) {
            None => None,
            Some((n, off2)) => {
                if n <= usize::MAX as u64 {
                    match read_chars(b, off2, n as usize) {
                        None => None,
                        Some((cs, off3)) => {
                            let s = crate::text::chars_to_string(&cs);
                            Some((DataAttribute::String(s), off3))
                        },
                    }
                } else {
                    None
                }
            },
        }
    } else if t == 1u8 {
        match read_i64(b, off + 1) {
            None => None,
            Some((n, off2)) => Some((DataAttribute::Number(n), off2)),
        }
    } else if t == 2u8 {
        match read_i64(b, off + 1) {
            None => None,
            Some((n, off2)) => Some((DataAttribute::Id(n), off2)),
        }
    } else if t == 3u8 {
        match read_u64(b, off + 1) {
            None => None,
            Some((n, off2)) => {
                if n <= usize::MAX as u64 {
                    match read_bytes(b, off2, n as usize) {
                        None => None,
                        Some((bs, off3)) => Some((DataAttribute::Data(bs), off3)),
                    }
                } else {
                    None
                }
            },
        }
    } else if t == 4u8 {
        Some((DataAttribute::NullId, off + 1))
    } else if t == 5u8 {
        Some((DataAttribute::Null, off + 1))
    } else {
        None
    }
}

fn read_row(b: &Vec<u8>, off: usize) -> (r: Option<(DataAttributes, usize)>)
    requires
        off <= b@.len(),
    ensures
        match r {
            Some(p) => off <= p.1 <= b@.len() && dec_row(b@.skip(off as int)) == Some(
                (p.0@, b@.skip(p.1 as int)),
            ),
            None => dec_row(b@.skip(off as int)) is None,
        },
{
    match read_u64(b, off) {
        None => None,
        Some((n, off2)) => {
            if n <= usize::MAX as u64 {
                match read_vals(b, off2, n as usize) {
                    None => None,
                    Some((vals, off3)) => {
                        let row = DataAttributes { attributes: vals };
                        Some((row, off3))
                    },
                }
            } else {
                None
            }
        },
    }
}

fn read_vals(b: &Vec<u8>, off: usize, n: usize) -> (r: Option<(Vec<DataAttribute>, usize)>)
    requires
        off <= b@.len(),
    ensures
        match r {
            Some(p) => off <= p.1 <= b@.len() && dec_vals(n as nat, b@.skip(off as int)) == Some(
                (crate::parser::utils::vals_view(p.0@), b@.skip(p.1 as int)),
            ),
            None => dec_vals(n as nat, b@.skip(off as int)) is None,
        },
    decreases n,
{
    if n == 0 {
        let v: Vec<DataAttribute> = Vec::new();
        proof {
            assert(crate::parser::utils::vals_view(v@) =~= Seq::<AttrV>::empty());
        }
        return Some((v, off));
    }
    match read_value(b, off) {
        None => None,
        Some((val, off2)) => {
            match read_vals(b, off2, n - 1) {
                None => None,
                Some((rest, off3)) => {
                    let ghost restv = rest@;
                    let mut v: Vec<DataAttribute> = Vec::new();
                    v.push(val);
                    let mut rest = rest;
                    v.append(&mut rest);
                    proof {
                        assert(crate::parser::utils::vals_view(v@) =~= seq![val@]
                            + crate::parser::utils::vals_view(restv));
                    }
                    Some((v, off3))
                },
            }
        },
    }
}

fn read_entries(b: &Vec<u8>, off: usize, n: usize) -> (r: Option<
    (Vec<(i64, DataAttributes)>, usize),
>)
    requires
        off <= b@.len(),
    ensures
        match r {
            Some(p) => off <= p.1 <= b@.len() && dec_entries(n as nat, b@.skip(off as int)) == Some(
                (records_view(p.0@), b@.skip(p.1 as int)),
            ),
            None => dec_entries(n as nat, b@.skip(off as int)) is None,
        },
    decreases n,
{
    if n == 0 {
        let v: Vec<(i64, DataAttributes)> = Vec::new();
        proof {
            assert(records_view(v@) =~= Seq::<(int, Seq<AttrV>)>::empty());
        }
        return Some((v, off));
    }
    match read_i64(b, off) {
        None => None,
        Some((k, off2)) => {
            match read_row(b, off2) {
                None => None,
                Some((row, off3)) => {
                    match read_entries(b, off3, n - 1) {
                        None => None,
                        Some((rest, off4)) => {
                            let ghost restv = rest@;
                            let ghost rowv = row@;
                            let mut v: Vec<(i64, DataAttributes)> = Vec::new();
                            v.push((k, row));
                            let mut rest = rest;
                            v.append(&mut rest);
                            proof {
                                assert(records_view(v@) =~= seq![(k as int, rowv)] + records_view(
                                    restv,
                                ));
                            }
                            Some((v, off4))
                        },
                    }
                },
            }
        },
    }
}

/// Reads a shard's records back from their serialized form; nothing unless
/// the bytes spell a whole shard exactly.
pub fn decode_records(b: &Vec<u8>) -> (r: Option<Vec<(i64, DataAttributes)>>)
    ensures
        match r {
            Some(v) => dec_records(b@) == Some(records_view(v@)),
            None => dec_records(b@) is None,
        },
{
    proof {
        assert(b@.skip(0) =~= b@);
    }
    match read_u64(b, 0) {
        None => None,
        Some((n, off)) => {
            if n <= usize::MAX as u64 {
                match read_entries(b, off, n as usize) {
                    None => None,
                    Some((v, off2)) => {
                        if off2 == b.len() {
                            proof {
                                assert(b@.skip(off2 as int) =~= Seq::<u8>::empty());
                            }
                            Some(v)
                        } else {
                            None
                        }
                    },
                }
            } else {
                None
            }
        },
    }
}

/// Law: decoding an encoded shard yields exactly the rows that were
/// encoded; spilling and reloading loses nothing.
pub proof fn lemma_records_round_trip(s: Seq<(int, Seq<AttrV>)>)
    requires
        records_bounded(s),
    ensures
        dec_records(enc_records(s)) == Some(s),
{
    let rest = Seq::<u8>::empty();
    assert(enc_records(s) =~= enc_u64(s.len() as int) + (enc_entries(s) + rest));
    lemma_dec_enc_u64(s.len() as int, enc_entries(s) + rest);
    lemma_dec_enc_entries(s, rest);
}

} // verus!
