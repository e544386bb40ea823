//! Byte-level primitives of the tagged record codec: fixed-width integers,
//! fixed-size identifiers and length-prefixed byte strings.
//!
//! Every persisted record is built from these three forms alone.  Each
//! reader is exact: it consumes precisely the bytes its writer produced,
//! and on any input that no writer produces it fails with a typed error.

use vstd::prelude::*;

use crate::error::Error;

verus! {

/// The encoding of a 64-bit integer: eight bytes, most significant first.
pub open spec fn enc_u64(x: u64) -> Seq<u8> {
    seq![
        ((x >> 56) & 0xff) as u8,
        ((x >> 48) & 0xff) as u8,
        ((x >> 40) & 0xff) as u8,
        ((x >> 32) & 0xff) as u8,
        ((x >> 24) & 0xff) as u8,
        ((x >> 16) & 0xff) as u8,
        ((x >> 8) & 0xff) as u8,
        (x & 0xff) as u8,
    ]
}

/// The integer read back from eight bytes, most significant first.
pub open spec fn dec_u64(b: Seq<u8>) -> u64
    recommends
        b.len() == 8,
{
    (((b[0] as u64) << 56) | ((b[1] as u64) << 48) | ((b[2] as u64) << 40) | ((b[3] as u64) << 32)
        | ((b[4] as u64) << 24) | ((b[5] as u64) << 16) | ((b[6] as u64) << 8) | (b[7] as u64))
}

/// Reading the eight bytes of an encoded integer yields the integer back.
pub proof fn lemma_u64_roundtrip(x: u64)
    ensures
        dec_u64(enc_u64(x)) == x,
{
    assert((((((x >> 56) & 0xff) as u8) as u64) << 56 | ((((x >> 48) & 0xff) as u8) as u64) << 48
        | ((((x >> 40) & 0xff) as u8) as u64) << 40 | ((((x >> 32) & 0xff) as u8) as u64) << 32
        | ((((x >> 24) & 0xff) as u8) as u64) << 24 | ((((x >> 16) & 0xff) as u8) as u64) << 16
        | ((((x >> 8) & 0xff) as u8) as u64) << 8 | (((x & 0xff) as u8) as u64)) == x)
        by (bit_vector);
}

/// Eight bytes that read back as `x` are the encoding of `x`.
pub proof fn lemma_u64_bytes_roundtrip(b: Seq<u8>)
    requires
        b.len() == 8,
    ensures
        enc_u64(dec_u64(b)) == b,
{
    let b0 = b[0];
    let b1 = b[1];
    let b2 = b[2];
    let b3 = b[3];
    let b4 = b[4];
    let b5 = b[5];
    let b6 = b[6];
    let b7 = b[7];
    let x = dec_u64(b);
    assert(x == ((b0 as u64) << 56) | ((b1 as u64) << 48) | ((b2 as u64) << 40) | ((b3 as u64)
        << 32) | ((b4 as u64) << 24) | ((b5 as u64) << 16) | ((b6 as u64) << 8) | (b7 as u64));
    assert({
        let x = ((b0 as u64) << 56) | ((b1 as u64) << 48) | ((b2 as u64) << 40) | ((b3 as u64)
            << 32) | ((b4 as u64) << 24) | ((b5 as u64) << 16) | ((b6 as u64) << 8) | (b7 as u64);
        ((x >> 56) & 0xff) as u8 == b0 && ((x >> 48) & 0xff) as u8 == b1 && ((x >> 40) & 0xff) as u8
            == b2 && ((x >> 32) & 0xff) as u8 == b3 && ((x >> 24) & 0xff) as u8 == b4 && ((x >> 16)
            & 0xff) as u8 == b5 && ((x >> 8) & 0xff) as u8 == b6 && (x & 0xff) as u8 == b7
    }) by (bit_vector);
    assert(enc_u64(x) =~= b);
}

/// The encoding of a byte string: its length as an eight-byte integer,
/// then the bytes themselves.
pub open spec fn enc_bytes(b: Seq<u8>) -> Seq<u8> {
    enc_u64(b.len() as u64) + b
}

/// A range of a buffer, split at an interior point, is the concatenation of
/// the two halves.
pub proof fn lemma_subrange_concat(b: Seq<u8>, p: int, q: int, r: int)
    requires
        0 <= p <= q <= r <= b.len(),
    ensures
        b.subrange(p, r) == b.subrange(p, q) + b.subrange(q, r),
{
    assert(b.subrange(p, r) =~= b.subrange(p, q) + b.subrange(q, r));
}

/// Equal concatenations with equally long first parts have equal parts.
pub proof fn lemma_concat_split(x: Seq<u8>, y: Seq<u8>, u: Seq<u8>, v: Seq<u8>)
    requires
        x + y == u + v,
        x.len() == u.len(),
    ensures
        x == u,
        y == v,
{
    assert(x =~= u) by {
        assert forall|i: int| 0 <= i < x.len() implies #[trigger] x[i] == u[i] by {
            assert((x + y)[i] == x[i]);
            assert((u + v)[i] == u[i]);
        }
    }
    assert((x + y).len() == x.len() + y.len());
    assert((u + v).len() == u.len() + v.len());
    assert(y.len() == v.len());
    assert(y =~= v) by {
        assert forall|i: int| 0 <= i < y.len() implies #[trigger] y[i] == v[i] by {
            assert((x + y)[x.len() + i] == y[i]);
            assert((u + v)[u.len() + i] == v[i]);
        }
    }
}

/// Appends the eight-byte encoding of `x`.
pub fn write_u64(out: &mut Vec<u8>, x: u64)
    ensures
        final(out)@ == old(out)@ + enc_u64(x),
{
    out.push(((x >> 56) & 0xff) as u8);
    out.push(((x >> 48) & 0xff) as u8);
    out.push(((x >> 40) & 0xff) as u8);
    out.push(((x >> 32) & 0xff) as u8);
    out.push(((x >> 24) & 0xff) as u8);
    out.push(((x >> 16) & 0xff) as u8);
    out.push(((x >> 8) & 0xff) as u8);
    out.push((x & 0xff) as u8);
    assert(out@ =~= old(out)@ + enc_u64(x));
}

/// Appends the 32 bytes of a fixed-size identifier.
pub fn write_id(out: &mut Vec<u8>, id: &[u8; 32])
    ensures
        final(out)@ == old(out)@ + id@,
{
    let mut i: usize = 0;
    while i < 32
        invariant
            i <= 32,
            out@ == old(out)@ + id@.subrange(0, i as int),
        decreases 32 - i,
    {
        out.push(id[i]);
        i = i + 1;
        assert(out@ =~= old(out)@ + id@.subrange(0, i as int));
    }
    assert(out@ =~= old(out)@ + id@);
}

/// Appends the length-prefixed encoding of a byte string.
pub fn write_bytes(out: &mut Vec<u8>, b: &Vec<u8>)
    ensures
        final(out)@ == old(out)@ + enc_bytes(b@),
{
    write_u64(out, b.len() as u64);
    let mut i: usize = 0;
    while i < b.len()
        invariant
            i <= b@.len(),
            out@ == old(out)@ + enc_u64(b@.len() as u64) + b@.subrange(0, i as int),
        decreases b@.len() - i,
    {
        out.push(b[i]);
        i = i + 1;
        assert(out@ =~= old(out)@ + enc_u64(b@.len() as u64) + b@.subrange(0, i as int));
    }
    assert(out@ =~= old(out)@ + enc_bytes(b@));
}

/// Reads an eight-byte integer, advancing `pos` past it.
pub fn read_u64(buff: &Vec<u8>, pos: &mut usize) -> (r: Result<u64, Error>)
    ensures
        r is Ok <==> *old(pos) + 8 <= buff@.len(),
        r is Ok ==> *final(pos) == *old(pos) + 8 && r->Ok_0 == dec_u64(
            buff@.subrange(*old(pos) as int, *old(pos) + 8),
        ),
        r is Err ==> *final(pos) == *old(pos) && r matches Err(Error::StorageError(_)),
{
    if *pos <= buff.len() && buff.len() - *pos >= 8 {
        let p = *pos;
        let v: u64 = ((buff[p] as u64) << 56) | ((buff[p + 1] as u64) << 48) | ((buff[p + 2]
            as u64) << 40) | ((buff[p + 3] as u64) << 32) | ((buff[p + 4] as u64) << 24) | ((buff[p
            + 5] as u64) << 16) | ((buff[p + 6] as u64) << 8) | (buff[p + 7] as u64);
        *pos = p + 8;
        proof {
            let s = buff@.subrange(p as int, p + 8);
            assert(s[0] == buff@[p as int] && s[1] == buff@[p + 1] && s[2] == buff@[p + 2] && s[3]
                == buff@[p + 3] && s[4] == buff@[p + 4] && s[5] == buff@[p + 5] && s[6] == buff@[p
                + 6] && s[7] == buff@[p + 7]);
        }
        Ok(v)
    } else {
        Err(Error::StorageError("record truncated".to_owned()))
    }
}

/// Reads a 32-byte identifier, advancing `pos` past it.
pub fn read_id(buff: &Vec<u8>, pos: &mut usize) -> (r: Result<[u8; 32], Error>)
    ensures
        r is Ok <==> *old(pos) + 32 <= buff@.len(),
        r matches Ok(id) ==> id@ == buff@.subrange(*old(pos) as int, *old(pos) + 32) && *final(pos)
            == *old(pos) + 32,
        r is Err ==> *final(pos) == *old(pos) && r matches Err(Error::StorageError(_)),
{
    if *pos <= buff.len() && buff.len() - *pos >= 32 {
        let p = *pos;
        let mut id: [u8; 32] = [0; 32];
        let mut i: usize = 0;
        while i < 32
            invariant
                i <= 32,
                p + 32 <= buff@.len(),
                buff@.len() <= usize::MAX,
                id@.subrange(0, i as int) == buff@.subrange(p as int, p + i),
            decreases 32 - i,
        {
            id[i] = buff[p + i];
            i = i + 1;
            assert(id@.subrange(0, i as int) =~= buff@.subrange(p as int, p + i));
        }
        *pos = p + 32;
        assert(id@ =~= id@.subrange(0, 32));
        Ok(id)
    } else {
        Err(Error::StorageError("record truncated".to_owned()))
    }
}

/// Reads a single byte, advancing `pos` past it.
pub fn read_u8(buff: &Vec<u8>, pos: &mut usize) -> (r: Result<u8, Error>)
    ensures
        r is Ok <==> *old(pos) + 1 <= buff@.len(),
        r is Ok ==> *final(pos) == *old(pos) + 1 && r->Ok_0 == buff@[*old(pos) as int],
        r is Err ==> *final(pos) == *old(pos) && r matches Err(Error::StorageError(_)),
{
    if *pos < buff.len() {
        let b = buff[*pos];
        *pos = *pos + 1;
        Ok(b)
    } else {
        Err(Error::StorageError("record truncated".to_owned()))
    }
}

/// Reads a length-prefixed byte string, advancing `pos` past it.
pub fn read_bytes(buff: &Vec<u8>, pos: &mut usize) -> (r: Result<Vec<u8>, Error>)
    ensures
        r matches Ok(v) ==> *old(pos) + enc_bytes(v@).len() <= buff@.len() && buff@.subrange(
            *old(pos) as int,
            *old(pos) + enc_bytes(v@).len(),
        ) == enc_bytes(v@) && *final(pos) == *old(pos) + enc_bytes(v@).len(),
        forall|s: Seq<u8>|
            *old(pos) + enc_bytes(s).len() <= buff@.len() && buff@.subrange(
                *old(pos) as int,
                *old(pos) + enc_bytes(s).len(),
            ) == enc_bytes(s) ==> r is Ok && r->Ok_0@ == s && *final(pos) == *old(pos) + enc_bytes(
                s,
            ).len(),
        r is Err ==> *final(pos) == *old(pos) && r matches Err(Error::StorageError(_)),
{
    let ghost p0 = *pos;
    let mut p = *pos;
    let len64 = match read_u64(buff, &mut p) {
        Ok(l) => l,
        Err(e) => {
            proof {
                lemma_read_bytes_short(buff@, p0 as int);
            }
            return Err(e);
        },
    };
    let remaining: usize = buff.len() - p;
    if (remaining as u64) < len64 {
        proof {
            assert(buff@.len() <= usize::MAX);
            lemma_read_bytes_mismatch(buff@, p0 as int, len64);
        }
        return Err(Error::StorageError("record truncated".to_owned()));
    }
    let len = len64 as usize;
    let mut v: Vec<u8> = Vec::new();
    let mut i: usize = 0;
    while i < len
        invariant
            i <= len,
            p + len <= buff@.len(),
            buff@.len() <= usize::MAX,
            v@ == buff@.subrange(p as int, p + i),
        decreases len - i,
    {
        v.push(buff[p + i]);
        i = i + 1;
        assert(v@ =~= buff@.subrange(p as int, p + i));
    }
    *pos = p + len;
    proof {
        let lb = buff@.subrange(p0 as int, p0 + 8);
        lemma_u64_bytes_roundtrip(lb);
        assert(enc_u64(v@.len() as u64) == lb);
        assert(buff@.subrange(p0 as int, p0 + enc_bytes(v@).len()) =~= enc_bytes(v@)) by {
            assert forall|i: int| 0 <= i < 8 implies #[trigger] buff@.subrange(
                p0 as int,
                p0 + enc_bytes(v@).len(),
            )[i] == enc_bytes(v@)[i] by {
                assert(enc_bytes(v@)[i] == lb[i]);
                assert(lb[i] == buff@[p0 + i]);
            }
            assert forall|i: int| 8 <= i < enc_bytes(v@).len() implies #[trigger] buff@.subrange(
                p0 as int,
                p0 + enc_bytes(v@).len(),
            )[i] == enc_bytes(v@)[i] by {
                assert(enc_bytes(v@)[i] == v@[i - 8]);
                assert(v@[i - 8] == buff@[p + (i - 8)]);
            }
        }
        assert(buff@.len() <= u64::MAX);
        assert forall|s: Seq<u8>|
            p0 + enc_bytes(s).len() <= buff@.len() && buff@.subrange(
                p0 as int,
                p0 + enc_bytes(s).len(),
            ) == enc_bytes(s) implies v@ == s && p + len == p0 + enc_bytes(s).len() by {
            lemma_read_bytes_agrees(buff@, p0 as int, s, v@);
        }
    }
    Ok(v)
}

/// When fewer than eight bytes remain, no byte-string encoding fits.
proof fn lemma_read_bytes_short(b: Seq<u8>, p: int)
    requires
        !(p + 8 <= b.len()),
    ensures
        forall|s: Seq<u8>| !(p + enc_bytes(s).len() <= b.len() && b.subrange(p, p + enc_bytes(s).len()) == enc_bytes(s)),
{
    assert forall|s: Seq<u8>| !(p + enc_bytes(s).len() <= b.len()) by {
        assert(enc_bytes(s).len() >= 8);
    }
}

/// When the announced length exceeds the remaining bytes, no byte-string
/// encoding with that prefix fits.
proof fn lemma_read_bytes_mismatch(b: Seq<u8>, p: int, len64: u64)
    requires
        b.len() <= u64::MAX,
        p >= 0,
        p + 8 <= b.len(),
        len64 == dec_u64(b.subrange(p, p + 8)),
        !(len64 <= b.len() - (p + 8)),
    ensures
        forall|s: Seq<u8>| !(p + enc_bytes(s).len() <= b.len() && b.subrange(p, p + enc_bytes(s).len()) == enc_bytes(s)),
{
    assert forall|s: Seq<u8>|
        p + enc_bytes(s).len() <= b.len() implies !(b.subrange(p, p + enc_bytes(s).len())
        == enc_bytes(s)) by {
        if b.subrange(p, p + enc_bytes(s).len()) == enc_bytes(s) {
            assert(s.len() + 8 <= b.len() - p);
            assert(b.subrange(p, p + 8) =~= enc_u64(s.len() as u64)) by {
                assert forall|i: int| 0 <= i < 8 implies #[trigger] b.subrange(p, p + 8)[i]
                    == enc_u64(s.len() as u64)[i] by {
                    assert(b.subrange(p, p + enc_bytes(s).len())[i] == enc_bytes(s)[i]);
                    assert(enc_bytes(s)[i] == enc_u64(s.len() as u64)[i]);
                }
            }
            lemma_u64_roundtrip(s.len() as u64);
            assert(len64 == s.len() as u64);
            assert(s.len() <= b.len() - (p + 8));
        }
    }
}

/// Two byte strings whose encodings both start at the same position of the
/// same buffer are the same string.
proof fn lemma_read_bytes_agrees(b: Seq<u8>, p: int, s: Seq<u8>, v: Seq<u8>)
    requires
        b.len() <= u64::MAX,
        p >= 0,
        p + enc_bytes(s).len() <= b.len(),
        b.subrange(p, p + enc_bytes(s).len()) == enc_bytes(s),
        p + enc_bytes(v).len() <= b.len(),
        b.subrange(p, p + enc_bytes(v).len()) == enc_bytes(v),
    ensures
        v == s,
{
    assert(b.subrange(p, p + 8) =~= enc_u64(s.len() as u64)) by {
        assert forall|i: int| 0 <= i < 8 implies #[trigger] b.subrange(p, p + 8)[i] == enc_u64(
            s.len() as u64,
        )[i] by {
            assert(b.subrange(p, p + enc_bytes(s).len())[i] == enc_bytes(s)[i]);
            assert(enc_bytes(s)[i] == enc_u64(s.len() as u64)[i]);
        }
    }
    assert(b.subrange(p, p + 8) =~= enc_u64(v.len() as u64)) by {
        assert forall|i: int| 0 <= i < 8 implies #[trigger] b.subrange(p, p + 8)[i] == enc_u64(
            v.len() as u64,
        )[i] by {
            assert(b.subrange(p, p + enc_bytes(v).len())[i] == enc_bytes(v)[i]);
            assert(enc_bytes(v)[i] == enc_u64(v.len() as u64)[i]);
        }
    }
    lemma_u64_roundtrip(s.len() as u64);
    lemma_u64_roundtrip(v.len() as u64);
    assert(s.len() as u64 == v.len() as u64);
    assert(s.len() == v.len());
    assert(v =~= s) by {
        assert forall|i: int| 0 <= i < s.len() implies #[trigger] v[i] == s[i] by {
            assert(b.subrange(p, p + enc_bytes(s).len())[8 + i] == enc_bytes(s)[8 + i]);
            assert(enc_bytes(s)[8 + i] == s[i]);
            assert(b.subrange(p, p + enc_bytes(v).len())[8 + i] == enc_bytes(v)[8 + i]);
            assert(enc_bytes(v)[8 + i] == v[i]);
        }
    }
}

} // verus!
