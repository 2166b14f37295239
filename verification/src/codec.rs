use vstd::prelude::*;
use vstd::utf8::{decode_utf8, encode_utf8, valid_utf8};

use crate::model::{Entry, EntryView};
use crate::StoreError;

verus! {

/// Length of the random salt at the front of a store file.
pub const SALT_LEN: usize = 16;

/// Length of the AEAD nonce that follows the salt.
pub const NONCE_LEN: usize = 12;

/// The eight little-endian bytes of a 64-bit length.
pub open spec fn le64(n: u64) -> Seq<u8> {
    seq![
        (n & 0xff) as u8,
        ((n >> 8) & 0xff) as u8,
        ((n >> 16) & 0xff) as u8,
        ((n >> 24) & 0xff) as u8,
        ((n >> 32) & 0xff) as u8,
        ((n >> 40) & 0xff) as u8,
        ((n >> 48) & 0xff) as u8,
        ((n >> 56) & 0xff) as u8,
    ]
}

/// The 64-bit value held by eight little-endian bytes.
pub open spec fn le64_val(b: Seq<u8>) -> u64
    recommends
        b.len() == 8,
{
    (b[0] as u64) | (b[1] as u64) << 8 | (b[2] as u64) << 16 | (b[3] as u64) << 24 | (
    b[4] as u64) << 32 | (b[5] as u64) << 40 | (b[6] as u64) << 48 | (b[7] as u64) << 56
}

proof fn lemma_le64_val(n: u64)
    ensures
        le64_val(le64(n)) == n,
{
    assert(((n & 0xff) as u8 as u64) | (((n >> 8) & 0xff) as u8 as u64) << 8 | (((n >> 16)
        & 0xff) as u8 as u64) << 16 | (((n >> 24) & 0xff) as u8 as u64) << 24 | (((n >> 32)
        & 0xff) as u8 as u64) << 32 | (((n >> 40) & 0xff) as u8 as u64) << 40 | (((n >> 48)
        & 0xff) as u8 as u64) << 48 | (((n >> 56) & 0xff) as u8 as u64) << 56 == n)
        by (bit_vector);
}

/// A text field whose UTF-8 encoding fits behind a 64-bit length prefix.
pub open spec fn str_fits(s: Seq<char>) -> bool {
    encode_utf8(s).len() <= u64::MAX
}

/// One length-prefixed UTF-8 field.
pub open spec fn enc_str(s: Seq<char>) -> Seq<u8> {
    le64(encode_utf8(s).len() as u64) + encode_utf8(s)
}

/// One record: name, password, info, in that fixed order.
pub open spec fn enc_entry(e: EntryView) -> Seq<u8> {
    enc_str(e.name) + enc_str(e.password) + enc_str(e.info)
}

/// All records, one after another.
pub open spec fn enc_list(c: Seq<EntryView>) -> Seq<u8>
    decreases c.len(),
{
    if c.len() == 0 {
        Seq::empty()
    } else {
        enc_entry(c[0]) + enc_list(c.drop_first())
    }
}

/// The plaintext layout of a collection: a 64-bit record count, then the records.
pub open spec fn spec_encode(c: Seq<EntryView>) -> Seq<u8> {
    le64(c.len() as u64) + enc_list(c)
}

pub open spec fn encodable_entry(e: EntryView) -> bool {
    str_fits(e.name) && str_fits(e.password) && str_fits(e.info)
}

/// The collection can be written faithfully: every length fits its prefix.
pub open spec fn encodable(c: Seq<EntryView>) -> bool {
    c.len() <= u64::MAX && forall|i: int| 0 <= i < c.len() ==> encodable_entry(#[trigger] c[i])
}

/// Reads one length-prefixed UTF-8 field off the front of `b`.
pub open spec fn dec_str(b: Seq<u8>) -> Option<(Seq<char>, Seq<u8>)> {
    if b.len() < 8 {
        Option::None
    } else {
        let l = le64_val(b.subrange(0, 8)) as int;
        if 8 + l > b.len() {
            Option::None
        } else {
            let fb = b.subrange(8, 8 + l);
            if valid_utf8(fb) {
                Option::Some((decode_utf8(fb), b.skip(8 + l)))
            } else {
                Option::None
            }
        }
    }
}

/// Reads one record off the front of `b`.
pub open spec fn dec_entry(b: Seq<u8>) -> Option<(EntryView, Seq<u8>)> {
    match dec_str(b) {
        Option::None => Option::None,
        Option::Some((name, b1)) => match dec_str(b1) {
            Option::None => Option::None,
            Option::Some((password, b2)) => match dec_str(b2) {
                Option::None => Option::None,
                Option::Some((info, b3)) => Option::Some(
                    (EntryView { name, password, info }, b3),
                ),
            },
        },
    }
}

/// Reads exactly `n` records off the front of `b`.
pub open spec fn dec_list(b: Seq<u8>, n: nat) -> Option<(Seq<EntryView>, Seq<u8>)>
    decreases n,
{
    if n == 0 {
        Option::Some((Seq::empty(), b))
    } else {
        match dec_entry(b) {
            Option::None => Option::None,
            Option::Some((e, b1)) => match dec_list(b1, (n - 1) as nat) {
                Option::None => Option::None,
                Option::Some((es, b2)) => Option::Some((seq![e] + es, b2)),
            },
        }
    }
}

/// Reads a whole plaintext payload; `None` is a malformed store.
pub open spec fn spec_decode(b: Seq<u8>) -> Option<Seq<EntryView>> {
    if b.len() < 8 {
        Option::None
    } else {
        match dec_list(b.skip(8), le64_val(b.subrange(0, 8)) as nat) {
            Option::None => Option::None,
            Option::Some((es, rest)) => if rest.len() == 0 {
                Option::Some(es)
            } else {
                Option::None
            },
        }
    }
}

proof fn lemma_dec_enc_str(s: Seq<char>, tail: Seq<u8>)
    requires
        str_fits(s),
    ensures
        dec_str(enc_str(s) + tail) == Option::Some((s, tail)),
{
    broadcast use vstd::utf8::encode_utf8_valid_utf8;
    broadcast use vstd::utf8::encode_utf8_decode_utf8;

    let eb = encode_utf8(s);
    let b = enc_str(s) + tail;
    assert(b.len() == 8 + eb.len() + tail.len());
    assert(b.subrange(0, 8) =~= le64(eb.len() as u64));
    lemma_le64_val(eb.len() as u64);
    assert(le64_val(b.subrange(0, 8)) == eb.len());
    assert(b.subrange(8, 8 + eb.len() as int) =~= eb);
    assert(b.skip(8 + eb.len() as int) =~= tail);
}

proof fn lemma_dec_enc_entry(e: EntryView, tail: Seq<u8>)
    requires
        encodable_entry(e),
    ensures
        dec_entry(enc_entry(e) + tail) == Option::Some((e, tail)),
{
    let b = enc_entry(e) + tail;
    assert(b =~= enc_str(e.name) + (enc_str(e.password) + (enc_str(e.info) + tail)));
    lemma_dec_enc_str(e.name, enc_str(e.password) + (enc_str(e.info) + tail));
    lemma_dec_enc_str(e.password, enc_str(e.info) + tail);
    lemma_dec_enc_str(e.info, tail);
}

proof fn lemma_dec_enc_list(c: Seq<EntryView>, tail: Seq<u8>)
    requires
        forall|i: int| 0 <= i < c.len() ==> encodable_entry(#[trigger] c[i]),
    ensures
        dec_list(enc_list(c) + tail, c.len() as nat) == Option::Some((c, tail)),
    decreases c.len(),
{
    if c.len() == 0 {
        assert(enc_list(c) + tail =~= tail);
        assert(c =~= Seq::<EntryView>::empty());
    } else {
        let rest = c.drop_first();
        let b = enc_list(c) + tail;
        assert(b =~= enc_entry(c[0]) + (enc_list(rest) + tail));
        lemma_dec_enc_entry(c[0], enc_list(rest) + tail);
        lemma_dec_enc_list(rest, tail);
        assert(seq![c[0]] + rest =~= c);
    }
}

/// Decoding inverts encoding: a collection written with `spec_encode` reads
/// back unchanged.
pub proof fn lemma_decode_encode(c: Seq<EntryView>)
    requires
        encodable(c),
    ensures
        spec_decode(spec_encode(c)) == Option::Some(c),
{
    let b = spec_encode(c);
    assert(b.subrange(0, 8) =~= le64(c.len() as u64));
    lemma_le64_val(c.len() as u64);
    assert(b.skip(8) =~= enc_list(c) + Seq::<u8>::empty());
    lemma_dec_enc_list(c, Seq::empty());
}

/// Copies `bytes[start .. start + len]` into a fresh vector.
pub(crate) fn copy_range(bytes: &Vec<u8>, start: usize, len: usize) -> (r: Vec<u8>)
    requires
        start + len <= bytes.len(),
    ensures
        r@ =~= bytes@.subrange(start as int, start as int + len as int),
{
    let mut r: Vec<u8> = Vec::new();
    let mut i: usize = 0;
    while i < len
        invariant
            start + len <= bytes.len(),
            i <= len,
            r.len() == i,
            forall|j: int| 0 <= j < i ==> r@[j] == bytes@[start + j],
        decreases len - i,
    {
        r.push(bytes[start + i]);
        i = i + 1;
    }
    r
}

/// Relies on `String::from_utf8`: it accepts exactly the byte strings that
/// are valid UTF-8 and decodes them to the characters they encode.
#[verifier::external_body]
pub(crate) fn bytes_to_string(bytes: Vec<u8>) -> (r: Option<String>)
    ensures
        match r {
            Option::Some(s) => valid_utf8(bytes@) && s@ == decode_utf8(bytes@),
            Option::None => !valid_utf8(bytes@),
        },
{
    String::from_utf8(bytes).ok()
}

fn write_u64(out: &mut Vec<u8>, n: u64)
    ensures
        final(out)@ =~= old(out)@ + le64(n),
{
    out.push((n & 0xff) as u8);
    out.push(((n >> 8) & 0xff) as u8);
    out.push(((n >> 16) & 0xff) as u8);
    out.push(((n >> 24) & 0xff) as u8);
    out.push(((n >> 32) & 0xff) as u8);
    out.push(((n >> 40) & 0xff) as u8);
    out.push(((n >> 48) & 0xff) as u8);
    out.push(((n >> 56) & 0xff) as u8);
}

fn read_u64(bytes: &Vec<u8>, pos: usize) -> (r: u64)
    requires
        pos + 8 <= bytes.len(),
    ensures
        r == le64_val(bytes@.subrange(pos as int, pos as int + 8)),
{
    let r = (bytes[pos] as u64) | (bytes[pos + 1] as u64) << 8 | (bytes[pos + 2] as u64) << 16 | (
    bytes[pos + 3] as u64) << 24 | (bytes[pos + 4] as u64) << 32 | (bytes[pos + 5] as u64) << 40 | (
    bytes[pos + 6] as u64) << 48 | (bytes[pos + 7] as u64) << 56;
    proof {
        let b = bytes@.subrange(pos as int, pos as int + 8);
        assert(b[0] == bytes@[pos as int]);
        assert(b[1] == bytes@[pos as int + 1]);
        assert(b[2] == bytes@[pos as int + 2]);
        assert(b[3] == bytes@[pos as int + 3]);
        assert(b[4] == bytes@[pos as int + 4]);
        assert(b[5] == bytes@[pos as int + 5]);
        assert(b[6] == bytes@[pos as int + 6]);
        assert(b[7] == bytes@[pos as int + 7]);
    }
    r
}

fn write_str(out: &mut Vec<u8>, s: &str)
    ensures
        final(out)@ =~= old(out)@ + enc_str(s@),
        str_fits(s@),
{
    let mut bs = s.as_bytes_vec();
    proof {
        assert(bs@ == encode_utf8(s@));
        assert(usize::BITS == 32 || usize::BITS == 64);
        assert(usize::MAX <= u64::MAX) by {
            vstd::layout::unsigned_int_max_values();
            if usize::BITS == 32 {
                vstd::arithmetic::power2::lemma_pow2_strictly_increases(32, 64);
            }
        }
    }
    write_u64(out, bs.len() as u64);
    out.append(&mut bs);
}

/// Serializes the entry list into its plaintext payload.
pub fn encode_entries(entries: &Vec<Entry>) -> (r: Vec<u8>)
    ensures
        r@ == spec_encode(entries.deep_view()),
        encodable(entries.deep_view()),
{
    let dv_len = entries.len();
    let mut out: Vec<u8> = Vec::new();
    write_u64(&mut out, dv_len as u64);
    let mut i: usize = 0;
    proof {
        assert(entries.deep_view().take(0) =~= Seq::<EntryView>::empty());
        assert(out@ =~= le64(dv_len as u64) + enc_list(entries.deep_view().take(0)));
    }
    while i < dv_len
        invariant
            dv_len == entries.len(),
            i <= dv_len,
            out@ =~= le64(dv_len as u64) + enc_list(entries.deep_view().take(i as int)),
            forall|j: int|
                0 <= j < i ==> encodable_entry(#[trigger] entries.deep_view()[j]),
        decreases dv_len - i,
    {
        let ghost dv = entries.deep_view();
        let ghost pre = out@;
        let e = &entries[i];
        write_str(&mut out, e.name.as_str());
        write_str(&mut out, e.password.as_str());
        write_str(&mut out, e.info.as_str());
        proof {
            assert(dv[i as int] == entries[i as int]@);
            assert(out@ =~= pre + enc_entry(dv[i as int]));
            lemma_enc_list_append(dv.take(i as int), seq![dv[i as int]]);
            assert(dv.take(i as int) + seq![dv[i as int]] =~= dv.take(i + 1));
            assert(enc_list(seq![dv[i as int]]) =~= enc_entry(dv[i as int])) by {
                let s1 = seq![dv[i as int]];
                assert(s1.len() == 1);
                assert(s1[0] == dv[i as int]);
                assert(s1.drop_first() =~= Seq::<EntryView>::empty());
                assert(enc_list(Seq::<EntryView>::empty()) =~= Seq::<u8>::empty());
                assert(enc_list(s1) =~= enc_entry(s1[0]) + enc_list(s1.drop_first()));
                assert(enc_entry(dv[i as int]) + Seq::<u8>::empty() =~= enc_entry(dv[i as int]));
            }
            assert(out@ =~= le64(dv_len as u64) + enc_list(dv.take(i + 1)));
        }
        i = i + 1;
    }
    proof {
        assert(entries.deep_view().take(dv_len as int) =~= entries.deep_view());
    }
    out
}

proof fn lemma_enc_list_append(a: Seq<EntryView>, b: Seq<EntryView>)
    ensures
        enc_list(a + b) == enc_list(a) + enc_list(b),
    decreases a.len(),
{
    if a.len() == 0 {
        assert(a + b =~= b);
        assert(enc_list(a) =~= Seq::<u8>::empty());
        assert(enc_list(a) + enc_list(b) =~= enc_list(b));
    } else {
        assert((a + b).drop_first() =~= a.drop_first() + b);
        lemma_enc_list_append(a.drop_first(), b);
        assert((a + b)[0] == a[0]);
        assert(enc_list(a + b) =~= enc_entry(a[0]) + (enc_list(a.drop_first()) + enc_list(b)));
        assert(enc_list(a) + enc_list(b) =~= enc_entry(a[0]) + (enc_list(a.drop_first())
            + enc_list(b)));
    }
}

fn parse_str(bytes: &Vec<u8>, pos: usize) -> (r: Result<(String, usize), StoreError>)
    requires
        pos <= bytes.len(),
    ensures
        match r {
            Ok((s, p2)) => {
                &&& pos <= p2 <= bytes@.len()
                &&& dec_str(bytes@.skip(pos as int)) == Option::Some(
                    (s@, bytes@.skip(p2 as int)),
                )
            },
            Err(e) => e == StoreError::MalformedStore && dec_str(bytes@.skip(pos as int))
                is None,
        },
{
    let ghost b = bytes@.skip(pos as int);
    let n = bytes.len();
    if n - pos < 8 {
        return Err(StoreError::MalformedStore);
    }
    let l = read_u64(bytes, pos);
    proof {
        assert(b.subrange(0, 8) =~= bytes@.subrange(pos as int, pos as int + 8));
    }
    let remaining = n - pos - 8;
    if l > remaining as u64 {
        return Err(StoreError::MalformedStore);
    }
    let lu = l as usize;
    let fb = copy_range(bytes, pos + 8, lu);
    proof {
        assert(fb@ =~= b.subrange(8, 8 + l as int));
    }
    match bytes_to_string(fb) {
        Some(s) => {
            let p2 = pos + 8 + lu;
            proof {
                assert(b.skip(8 + l as int) =~= bytes@.skip(p2 as int));
            }
            Ok((s, p2))
        },
        None => Err(StoreError::MalformedStore),
    }
}

fn parse_entry(bytes: &Vec<u8>, pos: usize) -> (r: Result<(Entry, usize), StoreError>)
    requires
        pos <= bytes.len(),
    ensures
        match r {
            Ok((e, p2)) => {
                &&& pos <= p2 <= bytes@.len()
                &&& dec_entry(bytes@.skip(pos as int)) == Option::Some(
                    (e@, bytes@.skip(p2 as int)),
                )
            },
            Err(e) => e == StoreError::MalformedStore && dec_entry(bytes@.skip(pos as int))
                is None,
        },
{
    let (name, p1) = match parse_str(bytes, pos) {
        Ok(v) => v,
        Err(e) => {
            return Err(e);
        },
    };
    let (password, p2) = match parse_str(bytes, p1) {
        Ok(v) => v,
        Err(e) => {
            return Err(e);
        },
    };
    let (info, p3) = match parse_str(bytes, p2) {
        Ok(v) => v,
        Err(e) => {
            return Err(e);
        },
    };
    Ok((Entry { name, password, info }, p3))
}

/// Parses a plaintext payload back into entries; any malformation is
/// `MalformedStore`.
#[verifier::rlimit(50)]
pub fn decode_entries(bytes: &Vec<u8>) -> (r: Result<Vec<Entry>, StoreError>)
    ensures
        match r {
            Ok(es) => spec_decode(bytes@) == Option::Some(es.deep_view()),
            Err(e) => e == StoreError::MalformedStore && spec_decode(bytes@) is None,
        },
{
    let n = bytes.len();
    if n < 8 {
        return Err(StoreError::MalformedStore);
    }
    let count = read_u64(bytes, 0);
    proof {
        assert(bytes@.subrange(0, 8) =~= bytes@.subrange(0 as int, 0 as int + 8));
    }
    let mut acc: Vec<Entry> = Vec::new();
    let mut pos: usize = 8;
    let mut i: u64 = 0;
    proof {
        assert(acc.deep_view() =~= Seq::<EntryView>::empty());
        match dec_list(bytes@.skip(8), count as nat) {
            Option::None => {},
            Option::Some((es, r2)) => {
                assert(acc.deep_view() + es =~= es);
            },
        }
    }
    while i < count
        invariant
            n == bytes.len(),
            8 <= pos <= n,
            i <= count,
            count == le64_val(bytes@.subrange(0, 8)),
            dec_list(bytes@.skip(8), count as nat) == match dec_list(
                bytes@.skip(pos as int),
                (count - i) as nat,
            ) {
                Option::None => Option::None::<(Seq<EntryView>, Seq<u8>)>,
                Option::Some((es, r2)) => Option::Some((acc.deep_view() + es, r2)),
            },
        decreases count - i,
    {
        match parse_entry(bytes, pos) {
            Ok((e, p2)) => {
                proof {
                    let b_cur = bytes@.skip(pos as int);
                    let b_next = bytes@.skip(p2 as int);
                    assert(dec_entry(b_cur) == Option::Some((e@, b_next)));
                    let ghost pre = acc.deep_view();
                    match dec_list(b_next, (count - i - 1) as nat) {
                        Option::None => {},
                        Option::Some((es, r2)) => {
                            assert(pre + (seq![e@] + es) =~= (pre + seq![e@]) + es);
                        },
                    }
                }
                let ghost pre = acc.deep_view();
                acc.push(e);
                proof {
                    assert(acc.deep_view() =~= pre + seq![e@]);
                }
                pos = p2;
            },
            Err(err) => {
                proof {
                    assert((count - i) as nat != 0);
                    assert(dec_list(bytes@.skip(pos as int), (count - i) as nat) is None);
                    assert(dec_list(bytes@.skip(8), count as nat) is None);
                    assert(spec_decode(bytes@) is None);
                }
                return Err(err);
            },
        }
        i = i + 1;
    }
    if pos != n {
        proof {
            assert(bytes@.skip(pos as int).len() > 0);
        }
        return Err(StoreError::MalformedStore);
    }
    proof {
        assert(bytes@.skip(pos as int).len() == 0);
        assert(acc.deep_view() + Seq::<EntryView>::empty() =~= acc.deep_view());
    }
    Ok(acc)
}

} // verus!
