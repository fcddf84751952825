//! The reftable format: block types, errors and the key/varint codecs shared
//! by all record kinds.
pub mod block;
pub mod blocksource;
pub mod keys;
pub mod merged;
pub mod record;
pub mod stack;
pub mod table;

use vstd::prelude::*;

verus! {

/// The type of a block in a reftable, identified by its first byte.
#[derive(Debug, Clone, Copy, PartialEq, Eq, Structural)]
pub enum BlockType {
    Log,
    Index,
    Ref,
    Obj,
}

impl BlockType {
    /// The byte that marks a block of this type.
    pub open spec fn spec_byte(self) -> u8 {
        match self {
            BlockType::Log => 0x67u8,
            BlockType::Index => 0x69u8,
            BlockType::Ref => 0x72u8,
            BlockType::Obj => 0x6fu8,
        }
    }

    /// The byte that marks a block of this type.
    pub fn to_byte(self) -> (b: u8)
        ensures
            b == self.spec_byte(),
    {
        match self {
            BlockType::Log => 0x67u8,
            BlockType::Index => 0x69u8,
            BlockType::Ref => 0x72u8,
            BlockType::Obj => 0x6fu8,
        }
    }

    /// The block type marked by `value`, or a format error for any other byte.
    pub fn try_from_byte(value: u8) -> (r: Result<BlockType, Error>)
        ensures
            r == block_type_of(value),
    {
        match value {
            0x67u8 => Ok(BlockType::Log),
            0x69u8 => Ok(BlockType::Index),
            0x72u8 => Ok(BlockType::Ref),
            0x6fu8 => Ok(BlockType::Obj),
            _ => Err(Error::FormatError),
        }
    }
}

/// The block type that a marker byte stands for.
pub open spec fn block_type_of(value: u8) -> Result<BlockType, Error> {
    if value == 0x67u8 {
        Ok(BlockType::Log)
    } else if value == 0x69u8 {
        Ok(BlockType::Index)
    } else if value == 0x72u8 {
        Ok(BlockType::Ref)
    } else if value == 0x6fu8 {
        Ok(BlockType::Obj)
    } else {
        Err(Error::FormatError)
    }
}

/// Law: a block type survives the trip through its marker byte.
pub proof fn lemma_block_type_byte_roundtrip(t: BlockType)
    ensures
        block_type_of(t.spec_byte()) == Ok::<BlockType, Error>(t),
{
}

/// Errors of the reftable reader.
#[derive(Debug, Clone, Copy, PartialEq, Eq, Structural)]
pub enum Error {
    /// Unexpected file system behavior.
    IoError,
    /// Format inconsistency on reading data.
    FormatError,
    /// Mismatched block type.
    MismatchedBlockType,
    /// Invalid offset.
    InvalidOffset,
    /// There was an error in an iterator.
    Iterator,
    /// An iterator was used for a record type it is not positioned on.
    Api,
    /// A table named in the stack does not exist.
    NotExist,
}


/// The value that one more byte `c` of a varint adds to the value read so
/// far, or `None` where `value + 1` does not fit in a `u64`.
pub open spec fn leb64_step(value: u64, c: u8) -> Option<u64> {
    if value == u64::MAX {
        None
    } else {
        Some((((value + 1) * 128) % 0x1_0000_0000_0000_0000 + (c % 128)) as u64)
    }
}

/// Varint decoding that continues at `pos`, the bytes before it having
/// decoded to `value` with their continuation bit set.
pub open spec fn leb64_rest(s: Seq<u8>, pos: int, value: u64) -> Option<(u64, int)>
    decreases s.len() - pos,
{
    if pos < 0 || pos >= s.len() {
        None
    } else {
        match leb64_step(value, s[pos]) {
            None => None,
            Some(v) => if s[pos] >= 128 {
                leb64_rest(s, pos + 1, v)
            } else {
                Some((v, pos + 1))
            },
        }
    }
}

/// The varint at the start of `s`, as git writes it: the value and the
/// number of bytes that it takes.
pub open spec fn leb64(s: Seq<u8>) -> Option<(u64, int)> {
    if s.len() == 0 {
        None
    } else if s[0] >= 128 {
        leb64_rest(s, 1, (s[0] % 128) as u64)
    } else {
        Some(((s[0] % 128) as u64, 1))
    }
}

/// A varint takes at least one byte and no more than there are.
pub proof fn lemma_leb64_len(s: Seq<u8>)
    ensures
        leb64(s) matches Some((v, n)) ==> 1 <= n <= s.len(),
{
    if s.len() > 0 && s[0] >= 128 {
        lemma_leb64_rest_len(s, 1, (s[0] % 128) as u64);
    }
}

proof fn lemma_leb64_rest_len(s: Seq<u8>, pos: int, value: u64)
    ensures
        leb64_rest(s, pos, value) matches Some((v, n)) ==> pos + 1 <= n <= s.len(),
    decreases s.len() - pos,
{
    if 0 <= pos < s.len() {
        if let Some(v) = leb64_step(value, s[pos]) {
            if s[pos] >= 128 {
                lemma_leb64_rest_len(s, pos + 1, v);
            }
        }
    }
}

/// Calls `gix_features::decode::leb64_from_read` on `data`, which reads one
/// byte at a time: the low seven bits give the value, a set high bit asks
/// for another byte, and each further byte turns the value `v` into
/// `((v + 1) << 7) + (byte & 0x7f)` with the shift truncating to 64 bits; it
/// fails where `data` ends too early or `v + 1` overflows. The claim: the
/// result is `leb64(data@)`, the value with the number of bytes read.
#[verifier::external_body]
fn leb64_read(data: &[u8]) -> (r: Option<(u64, usize)>)
    ensures
        match r {
            Some((v, n)) => leb64(data@) == Some((v, n as int)),
            None => leb64(data@) is None,
        },
{
    gix_features::decode::leb64_from_read(data).ok()
}

/// Read the varint at the start of `b`: the value and the number of bytes it
/// takes, or a format error.
pub fn read_varint(b: &[u8]) -> (r: Result<(u64, usize), Error>)
    ensures
        match r {
            Ok((v, n)) => leb64(b@) == Some((v, n as int)) && 1 <= n <= b@.len(),
            Err(e) => e == Error::FormatError && leb64(b@) is None,
        },
{
    proof {
        lemma_leb64_len(b@);
    }
    match leb64_read(b) {
        Some((v, n)) => Ok((v, n)),
        None => Err(Error::FormatError),
    }
}

/// A fresh vector holding the bytes of `s`.
pub fn copy_bytes(s: &[u8]) -> (v: Vec<u8>)
    ensures
        v@ == s@,
{
    let mut v = Vec::new();
    v.extend_from_slice(s);
    proof {
        assert(v@ =~= s@);
    }
    v
}

/// A big-endian 24 bit value.
pub open spec fn be24(b: Seq<u8>) -> u32 {
    (b[0] as int * 65536 + b[1] as int * 256 + b[2] as int) as u32
}

/// Read a big-endian 24 bit value as a u32
pub fn get_be24(buf: &[u8]) -> (r: u32)
    requires
        buf@.len() >= 3,
    ensures
        r == be24(buf@),
        r < 0x100_0000,
{
    buf[0] as u32 * 65536 + buf[1] as u32 * 256 + buf[2] as u32
}

/// The two lengths and the extra bits at the start of a record: the length
/// of the prefix shared with the previous key, the length of the suffix that
/// follows, the low three bits of the second varint, and the bytes taken.
pub open spec fn spec_keylen(s: Seq<u8>) -> Option<(u64, u64, u8, int)> {
    match leb64(s) {
        None => None,
        Some((prefix_len, n1)) => match leb64(s.subrange(n1, s.len() as int)) {
            None => None,
            Some((x, n2)) => Some((prefix_len, x / 8, (x % 8) as u8, n1 + n2)),
        },
    }
}

/// Decode the key lengths at the start of `b` (see `spec_keylen`).
pub fn decode_keylen(b: &[u8]) -> (r: Result<(u64, u64, u8, usize), Error>)
    ensures
        match r {
            Ok((p, s, e, n)) => spec_keylen(b@) == Some((p, s, e, n as int)) && n <= b@.len(),
            Err(e) => e == Error::FormatError && spec_keylen(b@) is None,
        },
{
    let (prefix_len, n1) = read_varint(b)?;
    let rest = &b[n1..b.len()];
    let (x, n2) = read_varint(rest)?;
    let extra = (x % 8) as u8;
    let suffix_len = x / 8;
    Ok((prefix_len, suffix_len, extra, n1 + n2))
}

/// The key at the start of `s` given the previous key `last`: the extra
/// bits, the new key (the first `prefix_len` bytes of `last` followed by the
/// suffix) and the bytes taken; `None` where the lengths do not decode, the
/// suffix runs past `s` or the prefix is longer than `last`.
pub open spec fn spec_decode_key(s: Seq<u8>, last: Seq<u8>) -> Option<(u8, Seq<u8>, int)> {
    match spec_keylen(s) {
        None => None,
        Some((p, sl, extra, n)) => if s.len() - n < sl || p > last.len() {
            None
        } else {
            Some((extra, last.subrange(0, p as int) + s.subrange(n, n + sl), n + sl))
        },
    }
}

/// Decode the prefix-compressed key at the start of `b` into `last_key`,
/// which holds the previous key; returns the extra bits and the bytes taken.
/// On error `last_key` is left as it was.
pub fn decode_key(b: &[u8], last_key: &mut Vec<u8>) -> (r: Result<(u8, usize), Error>)
    ensures
        match r {
            Ok((extra, n)) => spec_decode_key(b@, old(last_key)@) == Some((extra, final(last_key)@, n as int)),
            Err(e) => e == Error::FormatError && spec_decode_key(b@, old(last_key)@) is None
                && final(last_key)@ == old(last_key)@,
        },
{
    let (prefix_len, suffix_len, extra, n) = decode_keylen(b)?;
    let len_left = (b.len() - n) as u64;
    if len_left < suffix_len || prefix_len > last_key.len() as u64 {
        return Err(Error::FormatError);
    }
    let end = n + suffix_len as usize;
    last_key.truncate(prefix_len as usize);
    let suffix = &b[n..end];
    last_key.extend_from_slice(suffix);
    proof {
        assert(final(last_key)@ =~= old(last_key)@.subrange(0, prefix_len as int) + b@.subrange(n as int, end as int));
    }
    Ok((extra, end))
}

/// A decoded key takes at least two bytes and no more than there are.
pub proof fn lemma_decode_key_len(s: Seq<u8>, last: Seq<u8>)
    ensures
        spec_decode_key(s, last) matches Some((_, k, n)) ==> 2 <= n <= s.len(),
{
    lemma_leb64_len(s);
    if let Some((p, n1)) = leb64(s) {
        lemma_leb64_len(s.subrange(n1, s.len() as int));
    }
}

/// A length-prefixed string at the start of `s` and the bytes it takes.
pub open spec fn spec_decode_string(s: Seq<u8>) -> Option<(Seq<u8>, int)> {
    match leb64(s) {
        None => None,
        Some((t, n)) => if s.len() - n < t {
            None
        } else {
            Some((s.subrange(n, n + t), n + t))
        },
    }
}

/// Decode a length-prefixed string at the start of `b`.
pub fn decode_string(b: &[u8]) -> (r: Result<(Vec<u8>, usize), Error>)
    ensures
        match r {
            Ok((v, n)) => spec_decode_string(b@) == Some((v@, n as int)) && n <= b@.len(),
            Err(e) => e == Error::FormatError && spec_decode_string(b@) is None,
        },
{
    let (tsize, n) = read_varint(b)?;
    if ((b.len() - n) as u64) < tsize {
        return Err(Error::FormatError);
    }
    let end = n + tsize as usize;
    let v = copy_bytes(&b[n..end]);
    Ok((v, end))
}


/// A decoded string takes no more bytes than there are.
pub proof fn lemma_decode_string_len(s: Seq<u8>)
    ensures
        spec_decode_string(s) matches Some((t, n)) ==> 1 <= n <= s.len() && t.len() + 1 <= n,
{
    lemma_leb64_len(s);
}

} // verus!
