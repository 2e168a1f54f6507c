//! A small deterministic binary encoding: little-endian numbers and
//! length-prefixed byte strings.  It frames both the persisted cache files
//! and the byte form of a commit that its id is computed from.

use vstd::prelude::*;
use vstd::string::StrSliceExecFns;

verus! {

/// The eight little-endian bytes of a 64-bit number.
pub open spec fn le64(n: u64) -> Seq<u8> {
    Seq::new(8, |i: int| (n >> ((8 * i) as u64)) as u8)
}

/// A length-prefixed byte string.
pub open spec fn enc_bytes(b: Seq<u8>) -> Seq<u8> {
    le64(b.len() as u64) + b
}

/// A length-prefixed UTF-8 string.
pub open spec fn enc_str(s: Seq<char>) -> Seq<u8> {
    enc_bytes(vstd::utf8::encode_utf8(s))
}

/// Append the eight little-endian bytes of `n`.
pub fn push_u64(out: &mut Vec<u8>, n: u64)
    ensures
        final(out)@ == old(out)@ + le64(n),
{
    let mut i: usize = 0;
    while i < 8
        invariant
            i <= 8,
            out@ == old(out)@ + le64(n).take(i as int),
        decreases 8 - i,
    {
        let sh: u64 = 8 * (i as u64);
        let b: u8 = #[verifier::truncate] ((n >> sh) as u8);
        let ghost before = out@;
        out.push(b);
        proof {
            assert(le64(n)[i as int] == b);
            assert(out@ =~= old(out)@ + le64(n).take(i + 1));
        }
        i = i + 1;
    }
    proof {
        assert(le64(n).take(8) =~= le64(n));
    }
}

/// Append a length prefix and the bytes of `b`.
pub fn push_bytes(out: &mut Vec<u8>, b: &Vec<u8>)
    ensures
        final(out)@ == old(out)@ + enc_bytes(b@),
{
    let n = b.len();
    push_u64(out, n as u64);
    let mut i: usize = 0;
    while i < n
        invariant
            n == b@.len(),
            i <= n,
            out@ == old(out)@ + le64(b@.len() as u64) + b@.take(i as int),
        decreases n - i,
    {
        out.push(b[i]);
        proof {
            assert(out@ =~= old(out)@ + le64(b@.len() as u64) + b@.take(i + 1));
        }
        i = i + 1;
    }
    proof {
        assert(b@.take(n as int) =~= b@);
        assert(old(out)@ + le64(b@.len() as u64) + b@ =~= old(out)@ + enc_bytes(b@));
    }
}

/// Append a length prefix and the UTF-8 bytes of `s`.
pub fn push_str_enc(out: &mut Vec<u8>, s: &str)
    ensures
        final(out)@ == old(out)@ + enc_str(s@),
{
    let bv = s.as_bytes_vec();
    push_bytes(out, &bv);
}

/// Read the number encoded at `pos`, if eight bytes are there.
pub fn read_u64(b: &Vec<u8>, pos: usize) -> (r: Option<u64>)
    ensures
        match r {
            Some(n) => pos + 8 <= b@.len() && le64(n) == b@.subrange(pos as int, pos + 8),
            None => pos + 8 > b@.len(),
        },
{
    if pos > b.len() || b.len() - pos < 8 {
        return None;
    }
    let b0: u8 = b[pos];
    let b1: u8 = b[pos + 1];
    let b2: u8 = b[pos + 2];
    let b3: u8 = b[pos + 3];
    let b4: u8 = b[pos + 4];
    let b5: u8 = b[pos + 5];
    let b6: u8 = b[pos + 6];
    let b7: u8 = b[pos + 7];
    let n: u64 = (b0 as u64) | ((b1 as u64) << 8u64) | ((b2 as u64) << 16u64) | ((b3 as u64)
        << 24u64) | ((b4 as u64) << 32u64) | ((b5 as u64) << 40u64) | ((b6 as u64) << 48u64) | ((
    b7 as u64) << 56u64);
    proof {
        assert({
            let m = (b0 as u64) | ((b1 as u64) << 8u64) | ((b2 as u64) << 16u64) | ((b3 as u64)
                << 24u64) | ((b4 as u64) << 32u64) | ((b5 as u64) << 40u64) | ((b6 as u64)
                << 48u64) | ((b7 as u64) << 56u64);
            (m >> 0u64) as u8 == b0 && (m >> 8u64) as u8 == b1 && (m >> 16u64) as u8 == b2 && (m
                >> 24u64) as u8 == b3 && (m >> 32u64) as u8 == b4 && (m >> 40u64) as u8 == b5 && (m
                >> 48u64) as u8 == b6 && (m >> 56u64) as u8 == b7
        }) by (bit_vector);
        assert(le64(n) =~= b@.subrange(pos as int, pos + 8));
    }
    Some(n)
}

} // verus!
