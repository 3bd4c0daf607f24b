//! Integers, lengths and byte strings as they stand in the persisted state:
//! what is written, what is read, and that reading gives back what was written.

use vstd::prelude::*;
use vstd::bytes::{
    lemma_auto_spec_u16_to_from_le_bytes, lemma_auto_spec_u32_to_from_le_bytes,
    lemma_auto_spec_u64_to_from_le_bytes, spec_u16_from_le_bytes, spec_u16_to_le_bytes,
    spec_u32_from_le_bytes, spec_u32_to_le_bytes, spec_u64_from_le_bytes, spec_u64_to_le_bytes,
    u16_from_le_bytes, u16_to_le_bytes, u32_from_le_bytes, u32_to_le_bytes, u64_from_le_bytes,
    u64_to_le_bytes,
};
use vstd::slice::slice_subrange;
use crate::frontier::compact_size;

verus! {

/// The longest list that is written or read.
pub const MAX_COMPACT_SIZE: usize = 0x0200_0000;

/// The bytes `b` hold `piece` from position `p` on.
pub open spec fn holds_at(b: Seq<u8>, p: int, piece: Seq<u8>) -> bool {
    0 <= p && p + piece.len() <= b.len() && b.subrange(p, p + piece.len()) == piece
}

/// Where `b` holds two pieces in a row, it holds each of them.
pub proof fn lemma_holds_split(b: Seq<u8>, p: int, first: Seq<u8>, second: Seq<u8>)
    requires
        holds_at(b, p, first + second),
    ensures
        holds_at(b, p, first),
        holds_at(b, p + first.len(), second),
{
    let whole = first + second;
    assert(b.subrange(p, p + first.len()) =~= whole.subrange(0, first.len() as int));
    assert(whole.subrange(0, first.len() as int) =~= first);
    assert(b.subrange(p + first.len(), p + first.len() + second.len()) =~= whole.subrange(
        first.len() as int,
        whole.len() as int,
    ));
    assert(whole.subrange(first.len() as int, whole.len() as int) =~= second);
}

/// One byte read at `p`.
pub open spec fn dec_u8(b: Seq<u8>, p: int) -> Option<(u8, int)> {
    if 0 <= p < b.len() {
        Some((b[p], p + 1))
    } else {
        None
    }
}

/// Two bytes read at `p`, least significant first.
pub open spec fn dec_u16(b: Seq<u8>, p: int) -> Option<(u16, int)> {
    if 0 <= p && p + 2 <= b.len() {
        Some((spec_u16_from_le_bytes(b.subrange(p, p + 2)), p + 2))
    } else {
        None
    }
}

/// Four bytes read at `p`, least significant first.
pub open spec fn dec_u32(b: Seq<u8>, p: int) -> Option<(u32, int)> {
    if 0 <= p && p + 4 <= b.len() {
        Some((spec_u32_from_le_bytes(b.subrange(p, p + 4)), p + 4))
    } else {
        None
    }
}

/// Eight bytes read at `p`, least significant first.
pub open spec fn dec_u64(b: Seq<u8>, p: int) -> Option<(u64, int)> {
    if 0 <= p && p + 8 <= b.len() {
        Some((spec_u64_from_le_bytes(b.subrange(p, p + 8)), p + 8))
    } else {
        None
    }
}

/// `n` bytes read at `p`.
pub open spec fn dec_bytes(b: Seq<u8>, p: int, n: nat) -> Option<(Seq<u8>, int)> {
    if 0 <= p && p + n <= b.len() {
        Some((b.subrange(p, p + n), p + n))
    } else {
        None
    }
}

/// A length read at `p` in compact form: only the shortest form of a value is
/// taken, and no value above `MAX_COMPACT_SIZE`.
pub open spec fn dec_compact(b: Seq<u8>, p: int) -> Option<(nat, int)> {
    match dec_u8(b, p) {
        None => None,
        Some((flag, q)) => if flag < 253 {
            Some((flag as nat, q))
        } else if flag == 253 {
            match dec_u16(b, q) {
                Some((n, r)) => if n >= 253 {
                    Some((n as nat, r))
                } else {
                    None
                },
                None => None,
            }
        } else if flag == 254 {
            match dec_u32(b, q) {
                Some((n, r)) => if 0x1_0000 <= n <= MAX_COMPACT_SIZE {
                    Some((n as nat, r))
                } else {
                    None
                },
                None => None,
            }
        } else {
            None
        },
    }
}

/// Reading four bytes where a value was written gives the value.
pub proof fn lemma_dec_u32(b: Seq<u8>, p: int, x: u32)
    requires
        holds_at(b, p, spec_u32_to_le_bytes(x)),
    ensures
        spec_u32_to_le_bytes(x).len() == 4,
        dec_u32(b, p) == Some((x, p + 4)),
{
    lemma_auto_spec_u32_to_from_le_bytes();
}

/// Reading eight bytes where a value was written gives the value.
pub proof fn lemma_dec_u64(b: Seq<u8>, p: int, x: u64)
    requires
        holds_at(b, p, spec_u64_to_le_bytes(x)),
    ensures
        spec_u64_to_le_bytes(x).len() == 8,
        dec_u64(b, p) == Some((x, p + 8)),
{
    lemma_auto_spec_u64_to_from_le_bytes();
}

/// Reading a length where it was written in compact form gives the length.
pub proof fn lemma_dec_compact(b: Seq<u8>, p: int, n: nat)
    requires
        n <= MAX_COMPACT_SIZE,
        holds_at(b, p, compact_size(n)),
    ensures
        dec_compact(b, p) == Some((n, p + compact_size(n).len())),
{
    lemma_auto_spec_u16_to_from_le_bytes();
    lemma_auto_spec_u32_to_from_le_bytes();
    let piece = compact_size(n);
    assert(b[p] == b.subrange(p, p + piece.len())[0]);
    if n < 253 {
    } else if n <= 0xFFFF {
        lemma_holds_split(b, p, seq![253u8], spec_u16_to_le_bytes(n as u16));
    } else {
        lemma_holds_split(b, p, seq![254u8], spec_u32_to_le_bytes(n as u32));
    }
}

/// Appends a value in four bytes, least significant first.
pub fn write_u32(out: &mut Vec<u8>, x: u32)
    ensures
        final(out)@ == old(out)@ + spec_u32_to_le_bytes(x),
{
    let mut piece = u32_to_le_bytes(x);
    out.append(&mut piece);
}

/// Appends a value in eight bytes, least significant first.
pub fn write_u64(out: &mut Vec<u8>, x: u64)
    ensures
        final(out)@ == old(out)@ + spec_u64_to_le_bytes(x),
{
    let mut piece = u64_to_le_bytes(x);
    out.append(&mut piece);
}

/// Appends a length in compact form.
pub fn write_compact(out: &mut Vec<u8>, n: usize)
    requires
        n <= MAX_COMPACT_SIZE,
    ensures
        final(out)@ == old(out)@ + compact_size(n as nat),
{
    if n < 253 {
        out.push(n as u8);
        assert(out@ =~= old(out)@ + compact_size(n as nat));
    } else if n <= 0xFFFF {
        out.push(253u8);
        let mut piece = u16_to_le_bytes(n as u16);
        out.append(&mut piece);
        assert(out@ =~= old(out)@ + compact_size(n as nat));
    } else {
        out.push(254u8);
        let mut piece = u32_to_le_bytes(n as u32);
        out.append(&mut piece);
        assert(out@ =~= old(out)@ + compact_size(n as nat));
    }
}

/// Appends the bytes of `piece`.
pub fn write_bytes(out: &mut Vec<u8>, piece: &[u8])
    ensures
        final(out)@ == old(out)@ + piece@,
{
    out.extend_from_slice(piece);
}

/// Reads one byte at `p`.
pub fn read_u8(b: &[u8], p: usize) -> (r: Option<(u8, usize)>)
    ensures
        match r {
            Some((x, q)) => dec_u8(b@, p as int) == Some((x, q as int)),
            None => dec_u8(b@, p as int).is_none(),
        },
{
    if p < b.len() {
        Some((b[p], p + 1))
    } else {
        None
    }
}

/// Reads two bytes at `p`, least significant first.
pub fn read_u16(b: &[u8], p: usize) -> (r: Option<(u16, usize)>)
    ensures
        match r {
            Some((x, q)) => dec_u16(b@, p as int) == Some((x, q as int)),
            None => dec_u16(b@, p as int).is_none(),
        },
{
    if p <= b.len() && b.len() - p >= 2 {
        Some((u16_from_le_bytes(slice_subrange(b, p, p + 2)), p + 2))
    } else {
        None
    }
}

/// Reads four bytes at `p`, least significant first.
pub fn read_u32(b: &[u8], p: usize) -> (r: Option<(u32, usize)>)
    ensures
        match r {
            Some((x, q)) => dec_u32(b@, p as int) == Some((x, q as int)),
            None => dec_u32(b@, p as int).is_none(),
        },
{
    if p <= b.len() && b.len() - p >= 4 {
        Some((u32_from_le_bytes(slice_subrange(b, p, p + 4)), p + 4))
    } else {
        None
    }
}

/// Reads eight bytes at `p`, least significant first.
pub fn read_u64(b: &[u8], p: usize) -> (r: Option<(u64, usize)>)
    ensures
        match r {
            Some((x, q)) => dec_u64(b@, p as int) == Some((x, q as int)),
            None => dec_u64(b@, p as int).is_none(),
        },
{
    if p <= b.len() && b.len() - p >= 8 {
        Some((u64_from_le_bytes(slice_subrange(b, p, p + 8)), p + 8))
    } else {
        None
    }
}

/// Reads a length in compact form at `p`.
pub fn read_compact(b: &[u8], p: usize) -> (r: Option<(usize, usize)>)
    ensures
        match r {
            Some((n, q)) => dec_compact(b@, p as int) == Some((n as nat, q as int))
                && n <= MAX_COMPACT_SIZE,
            None => dec_compact(b@, p as int).is_none(),
        },
{
    let (flag, q) = match read_u8(b, p) {
        Some(v) => v,
        None => {
            return None;
        },
    };
    if flag < 253 {
        Some((flag as usize, q))
    } else if flag == 253 {
        match read_u16(b, q) {
            Some((n, r)) => if n >= 253 {
                Some((n as usize, r))
            } else {
                None
            },
            None => None,
        }
    } else if flag == 254 {
        match read_u32(b, q) {
            Some((n, r)) => if n >= 0x1_0000 && n <= 0x0200_0000 {
                Some((n as usize, r))
            } else {
                None
            },
            None => None,
        }
    } else {
        None
    }
}

/// Reads 32 bytes at `p`.
pub fn read_bytes32(b: &[u8], p: usize) -> (r: Option<([u8; 32], usize)>)
    ensures
        match r {
            Some((x, q)) => dec_bytes(b@, p as int, 32) == Some((x@, q as int)),
            None => dec_bytes(b@, p as int, 32).is_none(),
        },
{
    if p <= b.len() && b.len() - p >= 32 {
        let mut x = [0u8; 32];
        let len: usize = b.len();
        let mut i: usize = 0;
        while i < 32
            invariant
                i <= 32,
                p + 32 <= len,
                len == b@.len(),
                forall|k: int| 0 <= k < i ==> x@[k] == b@[p + k],
            decreases 32 - i,
        {
            x[i] = b[p + i];
            i += 1;
        }
        assert(x@ =~= b@.subrange(p as int, p + 32));
        Some((x, p + 32))
    } else {
        None
    }
}

} // verus!
