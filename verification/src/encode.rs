//! The primitive wire codec: base-128 varints, length-prefixed UTF-8
//! strings, and fixed-width little-endian 64-bit values.

use vstd::prelude::*;
use vstd::arithmetic::power::{pow, lemma_pow_increases};
use vstd::string::StrSliceExecFns;
use vstd::utf8::{decode_utf8, encode_utf8, encode_utf8_decode_utf8, encode_utf8_valid_utf8, valid_utf8};

use crate::Error;

verus! {

/// The base-128 varint encoding of `n`: each byte carries 7 value bits,
/// least-significant group first; every byte but the last has its high bit
/// set.
pub open spec fn varint_enc(n: nat) -> Seq<u8>
    decreases n,
{
    if n < 128 {
        seq![n as u8]
    } else {
        seq![(n % 128 + 128) as u8] + varint_enc(n / 128)
    }
}

/// Decoding state after some groups have been read: `acc` is the value so
/// far and `mul` the weight (128^groups) of the next group. Fails with
/// `EOF` when the bytes end before a terminating byte, and with
/// `MalformedStream` when the accumulated magnitude would overflow a `u64`.
pub open spec fn varint_dec_at(b: Seq<u8>, pos: int, acc: u64, mul: nat) -> Result<(u64, int), Error>
    decreases b.len() - pos,
{
    if pos < 0 || pos >= b.len() {
        Err(Error::EOF)
    } else {
        let byte = b[pos];
        let group = (byte % 128) as nat;
        if acc + group * mul > u64::MAX {
            Err(Error::MalformedStream)
        } else {
            let acc2 = (acc + group * mul) as u64;
            if byte < 128 {
                Ok((acc2, pos + 1))
            } else {
                varint_dec_at(b, pos + 1, acc2, mul * 128)
            }
        }
    }
}

/// The value and end position of the varint starting at `pos` in `b`.
pub open spec fn varint_dec(b: Seq<u8>, pos: int) -> Result<(u64, int), Error> {
    varint_dec_at(b, pos, 0, 1)
}

/// Encodes `n` as a base-128 varint.
pub fn uint64_varint(n: u64) -> (r: Vec<u8>)
    ensures
        r@ == varint_enc(n as nat),
{
    let mut res: Vec<u8> = Vec::new();
    let mut val: u64 = n;
    while val >= 128
        invariant
            varint_enc(n as nat) == res@ + varint_enc(val as nat),
        decreases val,
    {
        let ghost res0 = res@;
        let ghost v: nat = val as nat;
        let b: u8 = ((val % 128) + 128) as u8;
        res.push(b);
        val = val / 128;
        proof {
            assert(varint_enc(v) == seq![b] + varint_enc(v / 128));
            assert(res@ + varint_enc(val as nat) =~= res0 + varint_enc(v));
        }
    }
    let ghost res0 = res@;
    let last: u8 = val as u8;
    res.push(last);
    proof {
        assert(res@ =~= res0 + varint_enc(val as nat));
    }
    res
}

/// Encodes a length or count as a base-128 varint.
pub fn usize_varint(n: usize) -> (r: Vec<u8>)
    ensures
        r@ == varint_enc(n as nat),
{
    uint64_varint(n as u64)
}

/// Decodes the varint starting at `start`, returning the value and the
/// position just past it.
pub fn decode_varint(data: &Vec<u8>, start: usize) -> (r: Result<(u64, usize), Error>)
    ensures
        match varint_dec(data@, start as int) {
            Ok((v, p)) => r == Ok::<(u64, usize), Error>((v, p as usize)),
            Err(e) => r == Err::<(u64, usize), Error>(e),
        },
{
    let mut pos: usize = start;
    let mut acc: u64 = 0;
    let mut m: u64 = 1;
    let mut m_big: bool = false;
    let ghost mut mul: nat = 1;
    loop
        invariant
            start <= pos <= data@.len() || pos == start,
            !m_big ==> mul == m as nat,
            m_big ==> mul > u64::MAX,
            varint_dec(data@, start as int) == varint_dec_at(data@, pos as int, acc, mul),
        decreases data@.len() - pos,
    {
        if pos >= data.len() {
            return Err(Error::EOF);
        }
        let byte = data[pos];
        let group: u64 = (byte % 128) as u64;
        let ghost g: nat = (byte % 128) as nat;
        if group > 0 {
            if m_big {
                proof {
                    assert(g * mul >= mul) by (nonlinear_arith)
                        requires
                            g >= 1,
                            mul >= 0,
                    ;
                }
                return Err(Error::MalformedStream);
            }
            proof {
                assert(group as u128 * m as u128 <= 127 * (u64::MAX as u128)) by (nonlinear_arith)
                    requires
                        group <= 127,
                        m <= u64::MAX,
                ;
            }
            let total: u128 = (acc as u128) + (group as u128) * (m as u128);
            proof {
                assert(g * mul == (group as int) * (m as int));
                assert(total == acc + g * mul);
            }
            if total > u64::MAX as u128 {
                return Err(Error::MalformedStream);
            }
            acc = total as u64;
        } else {
            proof {
                assert(g == 0);
                assert(g * mul == 0) by (nonlinear_arith)
                    requires
                        g == 0,
                ;
            }
        }
        if byte < 128 {
            return Ok((acc, pos + 1));
        }
        pos = pos + 1;
        proof {
            mul = mul * 128;
        }
        if m <= u64::MAX / 128 {
            m = m * 128;
        } else {
            m_big = true;
        }
    }
}

/// The `k`-byte little-endian encoding of `n` (low byte first).
pub open spec fn le_enc(n: nat, k: nat) -> Seq<u8>
    decreases k,
{
    if k == 0 {
        seq![]
    } else {
        seq![(n % 256) as u8] + le_enc(n / 256, (k - 1) as nat)
    }
}

/// The value of the `k` little-endian bytes of `b` starting at `pos`.
pub open spec fn le_val(b: Seq<u8>, pos: int, k: nat) -> nat
    decreases k,
{
    if k == 0 {
        0nat
    } else {
        (b[pos] + 256 * le_val(b, pos + 1, (k - 1) as nat)) as nat
    }
}

/// The powers of 256 up to the eighth, written out.
pub proof fn lemma_pow256_values()
    ensures
        pow(256, 0) == 1,
        pow(256, 1) == 0x100,
        pow(256, 2) == 0x10000,
        pow(256, 3) == 0x1000000,
        pow(256, 4) == 0x100000000,
        pow(256, 5) == 0x10000000000,
        pow(256, 6) == 0x1000000000000,
        pow(256, 7) == 0x100000000000000,
        pow(256, 8) == 0x10000000000000000,
{
    reveal(pow);
    assert(pow(256, 0) == 1);
    assert(pow(256, 1) == 256 * pow(256, 0));
    assert(pow(256, 2) == 256 * pow(256, 1));
    assert(pow(256, 3) == 256 * pow(256, 2));
    assert(pow(256, 4) == 256 * pow(256, 3));
    assert(pow(256, 5) == 256 * pow(256, 4));
    assert(pow(256, 6) == 256 * pow(256, 5));
    assert(pow(256, 7) == 256 * pow(256, 6));
    assert(pow(256, 8) == 256 * pow(256, 7));
}

/// The encoding of `n` into `k` bytes is exactly `k` bytes long.
pub proof fn lemma_le_enc_len(n: nat, k: nat)
    ensures
        le_enc(n, k).len() == k,
    decreases k,
{
    if k > 0 {
        lemma_le_enc_len(n / 256, (k - 1) as nat);
    }
}

/// `k` little-endian bytes hold a value below 256^k; for the eight bytes of
/// a 64-bit value this bounds the result by `u64::MAX`.
pub proof fn lemma_le_val_bound(b: Seq<u8>, pos: int, k: nat)
    requires
        k <= 8,
    ensures
        le_val(b, pos, k) < pow(256, k),
        le_val(b, pos, k) <= u64::MAX,
    decreases k,
{
    reveal(pow);
    lemma_pow256_values();
    if k == 0 {
    } else {
        lemma_le_val_bound(b, pos + 1, (k - 1) as nat);
        let rest = le_val(b, pos + 1, (k - 1) as nat);
        assert(pow(256, k) == 256 * pow(256, (k - 1) as nat));
        assert(b[pos] + 256 * rest < 256 * pow(256, (k - 1) as nat)) by (nonlinear_arith)
            requires
                b[pos] < 256,
                rest < pow(256, (k - 1) as nat),
        ;
        if k < 8 {
            lemma_pow_increases(256, k, 8);
        }
    }
}

/// Little-endian round trip: the bytes of `le_enc(n, k)`, read back, give
/// `n` whenever `n` fits in `k` bytes.
pub proof fn lemma_le_round_trip(b: Seq<u8>, pos: int, n: nat, k: nat)
    requires
        0 <= pos,
        pos + k <= b.len(),
        b.subrange(pos, pos + k as int) == le_enc(n, k),
        n < pow(256, k),
    ensures
        le_val(b, pos, k) == n,
    decreases k,
{
    reveal(pow);
    if k == 0 {
    } else {
        let e = le_enc(n, k);
        assert(b[pos] == e[0]);
        assert(b.subrange(pos + 1, pos + k as int) =~= le_enc(n / 256, (k - 1) as nat)) by {
            lemma_le_enc_len(n, k);
            lemma_le_enc_len(n / 256, (k - 1) as nat);
            assert(le_enc(n, k) == seq![(n % 256) as u8] + le_enc(n / 256, (k - 1) as nat));
            assert(forall|i: int|
                0 <= i < k - 1 ==> #[trigger] b.subrange(pos + 1, pos + k as int)[i] == b.subrange(
                    pos,
                    pos + k as int,
                )[i + 1]);
        }
        assert(n / 256 < pow(256, (k - 1) as nat)) by (nonlinear_arith)
            requires
                n < pow(256, k),
                pow(256, k) == 256 * pow(256, (k - 1) as nat),
                n / 256 <= n,
                256 * (n / 256) <= n,
        ;
        lemma_le_round_trip(b, pos + 1, n / 256, (k - 1) as nat);
        assert(le_val(b, pos, k) == n % 256 + 256 * (n / 256));
    }
}

/// Encodes a 64-bit IEEE-754 bit pattern as eight little-endian bytes.
pub fn number(bits: u64) -> (r: Vec<u8>)
    ensures
        r@ == le_enc(bits as nat, 8),
{
    let mut res: Vec<u8> = Vec::new();
    let mut v: u64 = bits;
    let mut i: usize = 0;
    while i < 8
        invariant
            i <= 8,
            le_enc(bits as nat, 8) == res@ + le_enc(v as nat, (8 - i) as nat),
        decreases 8 - i,
    {
        let ghost res0 = res@;
        let ghost v0: nat = v as nat;
        let b: u8 = (v % 256) as u8;
        res.push(b);
        v = v / 256;
        i = i + 1;
        proof {
            assert(le_enc(v0, (8 - i + 1) as nat) == seq![b] + le_enc(v0 / 256, (8 - i) as nat));
            assert(res@ + le_enc(v as nat, (8 - i) as nat) =~= res0 + le_enc(v0, (8 - i + 1) as nat));
        }
    }
    proof {
        assert(res@ =~= res@ + le_enc(v as nat, 0));
    }
    res
}

/// The eight little-endian bytes starting at `pos`, read back as a 64-bit
/// value; `EOF` when fewer than eight bytes remain.
pub open spec fn num_dec(b: Seq<u8>, pos: int) -> Result<(u64, int), Error> {
    if pos < 0 || pos + 8 > b.len() {
        Err(Error::EOF)
    } else {
        Ok((le_val(b, pos, 8) as u64, pos + 8))
    }
}

/// Decodes the eight-byte little-endian value starting at `start`.
pub fn decode_number(data: &Vec<u8>, start: usize) -> (r: Result<(u64, usize), Error>)
    ensures
        match num_dec(data@, start as int) {
            Ok((v, p)) => r == Ok::<(u64, usize), Error>((v, p as usize)),
            Err(e) => r == Err::<(u64, usize), Error>(e),
        },
{
    if data.len() < 8 || start > data.len() - 8 {
        return Err(Error::EOF);
    }
    let mut acc: u64 = 0;
    let mut i: usize = 8;
    while i > 0
        invariant
            i <= 8,
            start + 8 <= data@.len(),
            data@.len() <= usize::MAX,
            acc == le_val(data@, start + i, (8 - i) as nat),
        decreases i,
    {
        i = i - 1;
        proof {
            let kk: nat = (8 - i - 1) as nat;
            lemma_le_val_bound(data@, start + i + 1, kk);
            if kk < 7 {
                lemma_pow_increases(256, kk, 7);
            }
            lemma_pow256_values();
        }
        acc = acc * 256 + (data[start + i] as u64);
    }
    proof {
        lemma_le_val_bound(data@, start as int, 8);
    }
    Ok((acc, start + 8))
}

/// `buf` with `data` written over it at `pos`: bytes before `pos` stay,
/// the written bytes follow, and whatever of the old contents lies beyond
/// the written range stays as well.
pub open spec fn splice(buf: Seq<u8>, pos: int, data: Seq<u8>) -> Seq<u8>
    recommends
        0 <= pos <= buf.len(),
{
    buf.take(pos) + data + (if pos + data.len() <= buf.len() {
        buf.skip(pos + data.len())
    } else {
        Seq::<u8>::empty()
    })
}

/// Two writes in a row land the concatenation: writing `d1` at `pos` and
/// then `d2` right after it is one write of `d1 + d2`.
pub proof fn lemma_splice_concat(buf: Seq<u8>, pos: int, d1: Seq<u8>, d2: Seq<u8>)
    requires
        0 <= pos <= buf.len(),
    ensures
        splice(splice(buf, pos, d1), pos + d1.len(), d2) == splice(buf, pos, d1 + d2),
{
    assert(splice(splice(buf, pos, d1), pos + d1.len(), d2) =~= splice(buf, pos, d1 + d2));
}

/// Writes `data` into `buf` at `pos`, overwriting what is there and
/// growing the buffer when the write runs past its end. Returns the
/// position just past the written bytes.
pub fn write_bytes(buf: &mut Vec<u8>, pos: usize, data: &Vec<u8>) -> (newpos: usize)
    requires
        pos <= old(buf)@.len(),
        pos + data@.len() <= usize::MAX,
    ensures
        final(buf)@ == splice(old(buf)@, pos as int, data@),
        newpos == pos + data@.len(),
        final(buf)@.len() >= old(buf)@.len(),
        newpos <= final(buf)@.len(),
{
    let mut i: usize = 0;
    while i < data.len()
        invariant
            i <= data@.len(),
            pos <= old(buf)@.len(),
            pos + data@.len() <= usize::MAX,
            buf@ == splice(old(buf)@, pos as int, data@.take(i as int)),
            buf@.len() == if pos + i <= old(buf)@.len() {
                old(buf)@.len() as int
            } else {
                pos + i
            },
        decreases data@.len() - i,
    {
        let b = data[i];
        if pos + i < buf.len() {
            buf.set(pos + i, b);
        } else {
            buf.push(b);
        }
        i = i + 1;
        proof {
            assert(buf@ =~= splice(old(buf)@, pos as int, data@.take(i as int)));
        }
    }
    proof {
        assert(data@.take(data@.len() as int) =~= data@);
    }
    pos + data.len()
}

/// The wire form of a string: a varint byte length, then that many bytes of
/// UTF-8.
pub open spec fn str_enc(s: Seq<char>) -> Seq<u8> {
    varint_enc(encode_utf8(s).len()) + encode_utf8(s)
}

/// The string starting at `pos` in `b` and the position just past it:
/// a varint length, then that many bytes, which must be valid UTF-8.
/// Truncation is `EOF`; invalid UTF-8 is `MalformedStream`.
pub open spec fn str_dec(b: Seq<u8>, pos: int) -> Result<(Seq<char>, int), Error> {
    match varint_dec(b, pos) {
        Err(e) => Err(e),
        Ok((len, p)) => if p + len > b.len() {
            Err(Error::EOF)
        } else {
            let bytes = b.subrange(p, p + len);
            if valid_utf8(bytes) {
                Ok((decode_utf8(bytes), p + len))
            } else {
                Err(Error::MalformedStream)
            }
        },
    }
}

/// Relies on `String::from_utf8`: it succeeds exactly on input that is
/// valid UTF-8, and then returns the string whose UTF-8 encoding is that
/// input.
#[verifier::external_body]
fn bytes_to_string(bytes: Vec<u8>) -> (r: Option<String>)
    ensures
        r is Some <==> valid_utf8(bytes@),
        r is Some ==> encode_utf8(r.unwrap()@) == bytes@,
        r is Some ==> r.unwrap()@ == decode_utf8(bytes@),
{
    match String::from_utf8(bytes) {
        Ok(s) => Some(s),
        Err(_) => None,
    }
}

/// Encodes a string as its varint byte length followed by its UTF-8 bytes.
pub fn string(s: &str) -> (r: Vec<u8>)
    ensures
        r@ == str_enc(s@),
{
    let mut bytes = s.as_bytes_vec();
    let mut res = usize_varint(bytes.len());
    res.append(&mut bytes);
    res
}

/// A successful varint decode lands strictly past its start and no further
/// than the end of the bytes.
pub proof fn lemma_varint_dec_range(b: Seq<u8>, pos: int, acc: u64, mul: nat)
    ensures
        varint_dec_at(b, pos, acc, mul) matches Ok((v, p)) ==> pos < p <= b.len(),
    decreases b.len() - pos,
{
    if 0 <= pos < b.len() {
        let byte = b[pos];
        let group = (byte % 128) as nat;
        if acc + group * mul <= u64::MAX && byte >= 128 {
            lemma_varint_dec_range(b, pos + 1, (acc + group * mul) as u64, mul * 128);
        }
    }
}

/// Decodes the length-prefixed UTF-8 string starting at `start`.
pub fn decode_string(data: &Vec<u8>, start: usize) -> (r: Result<(String, usize), Error>)
    ensures
        match str_dec(data@, start as int) {
            Ok((sv, p)) => r is Ok && r.unwrap().0@ == sv && r.unwrap().1 == p as usize,
            Err(e) => r is Err && r.unwrap_err() == e,
        },
{
    let (len64, p) = match decode_varint(data, start) {
        Ok(v) => v,
        Err(e) => {
            return Err(e);
        },
    };
    proof {
        lemma_varint_dec_range(data@, start as int, 0, 1);
    }
    if len64 > (data.len() - p) as u64 {
        return Err(Error::EOF);
    }
    let len = len64 as usize;
    let mut bytes: Vec<u8> = Vec::new();
    let mut i: usize = 0;
    while i < len
        invariant
            i <= len,
            p + len <= data@.len(),
            data@.len() <= usize::MAX,
            bytes@ == data@.subrange(p as int, p + i),
        decreases len - i,
    {
        bytes.push(data[p + i]);
        i = i + 1;
        proof {
            assert(bytes@ =~= data@.subrange(p as int, p + i));
        }
    }
    match bytes_to_string(bytes) {
        Some(st) => Ok((st, p + len)),
        None => Err(Error::MalformedStream),
    }
}

/// Decoding from any state inverts the encoding: if the bytes at `pos` are
/// `varint_enc(n)` and the value still to be accumulated fits, the decoder
/// finishes with it.
pub proof fn lemma_varint_dec_at_enc(b: Seq<u8>, pos: int, n: nat, acc: u64, mul: nat)
    requires
        0 <= pos,
        pos + varint_enc(n).len() <= b.len(),
        b.subrange(pos, pos + varint_enc(n).len() as int) == varint_enc(n),
        mul >= 1,
        acc + n * mul <= u64::MAX,
    ensures
        varint_dec_at(b, pos, acc, mul) == Ok::<(u64, int), Error>(
            ((acc + n * mul) as u64, pos + varint_enc(n).len()),
        ),
    decreases n,
{
    let e = varint_enc(n);
    assert(b[pos] == e[0]);
    if n < 128 {
        assert((b[pos] % 128) as nat == n);
    } else {
        let byte = e[0];
        let g: nat = (byte % 128) as nat;
        assert(g == n % 128);
        assert(g * mul <= n * mul) by (nonlinear_arith)
            requires
                g <= n,
                mul >= 0,
        ;
        let acc2: u64 = (acc + g * mul) as u64;
        let n2 = n / 128;
        let e2 = varint_enc(n2);
        assert(e == seq![byte] + e2);
        assert(b.subrange(pos + 1, pos + 1 + e2.len() as int) =~= e2) by {
            assert(forall|i: int|
                0 <= i < e2.len() ==> #[trigger] b.subrange(pos + 1, pos + 1 + e2.len() as int)[i]
                    == b.subrange(pos, pos + e.len() as int)[i + 1]);
        }
        assert(acc2 + n2 * (mul * 128) == acc + n * mul) by (nonlinear_arith)
            requires
                n == 128 * (n / 128) + n % 128,
                n2 == n / 128,
                g == n % 128,
                acc2 == acc + g * mul,
        ;
        lemma_varint_dec_at_enc(b, pos + 1, n2, acc2, mul * 128);
    }
}

/// Decoding inverts encoding in place: the varint bytes of `n` at `pos`
/// decode to `n`, ending just past them.
pub proof fn lemma_varint_round_trip_at(b: Seq<u8>, pos: int, n: u64)
    requires
        0 <= pos,
        pos + varint_enc(n as nat).len() <= b.len(),
        b.subrange(pos, pos + varint_enc(n as nat).len() as int) == varint_enc(n as nat),
    ensures
        varint_dec(b, pos) == Ok::<(u64, int), Error>((n, pos + varint_enc(n as nat).len())),
{
    assert(n as nat * 1 == n) by (nonlinear_arith);
    lemma_varint_dec_at_enc(b, pos, n as nat, 0, 1);
}

/// Law: for every value, decoding its varint encoding gives the value back
/// and consumes exactly the encoding.
pub proof fn lemma_varint_round_trip(n: u64)
    ensures
        varint_dec(varint_enc(n as nat), 0) == Ok::<(u64, int), Error>(
            (n, varint_enc(n as nat).len() as int),
        ),
{
    let e = varint_enc(n as nat);
    assert(e.subrange(0, e.len() as int) =~= e);
    lemma_varint_round_trip_at(e, 0, n);
}

/// The byte count of the varint encoding of `n`: one byte for each
/// seven-bit group.
pub open spec fn varint_len(n: nat) -> nat
    decreases n,
{
    if n < 128 {
        1
    } else {
        1 + varint_len(n / 128)
    }
}

/// Law: the encoding of `n` takes one byte per seven-bit group: `k` bytes
/// exactly when `n < 128^k` and (for `k > 1`) `n >= 128^(k-1)`; in
/// particular one byte for `n < 128`.
pub proof fn lemma_varint_enc_len(n: nat)
    ensures
        varint_enc(n).len() == varint_len(n),
        varint_len(n) >= 1,
        n < pow(128, varint_len(n)),
        varint_len(n) > 1 ==> pow(128, (varint_len(n) - 1) as nat) <= n,
    decreases n,
{
    reveal(pow);
    if n < 128 {
        assert(pow(128, 1) == 128 * pow(128, 0));
    } else {
        lemma_varint_enc_len(n / 128);
        let lp = varint_len(n / 128);
        assert(pow(128, lp + 1) == 128 * pow(128, lp));
        assert(n < 128 * pow(128, lp)) by (nonlinear_arith)
            requires
                n / 128 < pow(128, lp),
                n == 128 * (n / 128) + n % 128,
                n % 128 < 128,
        ;
        if lp > 1 {
            assert(pow(128, lp) == 128 * pow(128, (lp - 1) as nat));
            assert(pow(128, lp) <= n) by (nonlinear_arith)
                requires
                    pow(128, (lp - 1) as nat) <= n / 128,
                    pow(128, lp) == 128 * pow(128, (lp - 1) as nat),
                    n == 128 * (n / 128) + n % 128,
                    n % 128 >= 0,
            ;
        } else {
            assert(pow(128, 1) == 128 * pow(128, 0));
        }
    }
}

/// Law: decoding inverts encoding for strings: the wire form of `s` at
/// `pos` decodes back to `s`, ending just past it.
pub proof fn lemma_str_round_trip(b: Seq<u8>, pos: int, s: Seq<char>)
    requires
        0 <= pos,
        pos + str_enc(s).len() <= b.len(),
        b.subrange(pos, pos + str_enc(s).len() as int) == str_enc(s),
        b.len() <= u64::MAX,
    ensures
        str_dec(b, pos) == Ok::<(Seq<char>, int), Error>((s, pos + str_enc(s).len())),
{
    let u = encode_utf8(s);
    let lv = varint_enc(u.len());
    let e = str_enc(s);
    assert(e == lv + u);
    assert(b.subrange(pos, pos + lv.len() as int) =~= lv) by {
        assert(forall|i: int|
            0 <= i < lv.len() ==> #[trigger] b.subrange(pos, pos + lv.len() as int)[i]
                == b.subrange(pos, pos + e.len() as int)[i]);
    }
    lemma_varint_round_trip_at(b, pos, u.len() as u64);
    let p = pos + lv.len();
    assert(b.subrange(p, p + u.len() as int) =~= u) by {
        assert(forall|i: int|
            0 <= i < u.len() ==> #[trigger] b.subrange(p, p + u.len() as int)[i] == b.subrange(
                pos,
                pos + e.len() as int,
            )[i + lv.len()]);
    }
    encode_utf8_valid_utf8(s);
    encode_utf8_decode_utf8(s);
}

/// Splitting a subrange known to be a concatenation: each part matches its
/// own subrange.
pub proof fn lemma_subrange_split(b: Seq<u8>, pos: int, d1: Seq<u8>, d2: Seq<u8>)
    requires
        0 <= pos,
        pos + d1.len() + d2.len() <= b.len(),
        b.subrange(pos, pos + d1.len() + d2.len()) == d1 + d2,
    ensures
        b.subrange(pos, pos + d1.len() as int) == d1,
        b.subrange(pos + d1.len(), pos + d1.len() + d2.len()) == d2,
{
    assert(forall|i: int|
        0 <= i < d1.len() ==> #[trigger] b.subrange(pos, pos + d1.len() as int)[i] == b.subrange(
            pos,
            pos + d1.len() + d2.len(),
        )[i]);
    assert(b.subrange(pos, pos + d1.len() as int) =~= d1);
    assert(forall|i: int|
        0 <= i < d2.len() ==> #[trigger] b.subrange(pos + d1.len(), pos + d1.len() + d2.len())[i]
            == b.subrange(pos, pos + d1.len() + d2.len())[i + d1.len()]);
    assert(b.subrange(pos + d1.len(), pos + d1.len() + d2.len()) =~= d2);
}

} // verus!
