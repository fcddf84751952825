//! A single reftable file
use super::block::{
    block_keys, lemma_block_step_advances, lemma_block_next_kind, lemma_first_key_first, lemma_seek_key_block,
    lemma_seek_key_finds, lemma_seek_key_then_next, lemma_block_new_wf, strictly_sorted, spec_block_new, spec_first_key, spec_seek_key, Block, BlockIter, BlockIterView, BlockView,
    block_next_panics, spec_block_next, empty_block,
};
use super::keys::lex_order;
use super::record::{spec_for_search, Record, RecordView, RefRecordView};
use super::blocksource::BufferSource;
use super::keys::{compare_bytes, lemma_lex_equal, lemma_lex_flip, lemma_lex_trans, KeyOrder};
use super::{be24, get_be24, BlockType, Error};
use vstd::prelude::*;

verus! {

/// The hash function a table's object ids were made with.
#[derive(Clone, Copy, Debug, PartialEq, Eq, Structural)]
pub enum HashKind {
    Sha1,
    Sha256,
}

impl HashKind {
    /// The length of an object id in bytes.
    pub open spec fn spec_len_in_bytes(self) -> nat {
        match self {
            HashKind::Sha1 => 20,
            HashKind::Sha256 => 32,
        }
    }

    /// The length of an object id in bytes.
    pub fn len_in_bytes(self) -> (r: usize)
        ensures
            r == self.spec_len_in_bytes(),
    {
        match self {
            HashKind::Sha1 => 20,
            HashKind::Sha256 => 32,
        }
    }
}

/// The size of the file header for table format `version`.
pub open spec fn spec_header_size(version: u8) -> u32 {
    if version == 1 {
        24
    } else {
        28
    }
}

/// The size of the file footer for table format `version`.
pub open spec fn spec_footer_size(version: u8) -> u32 {
    if version == 1 {
        68
    } else {
        72
    }
}

/// Return the header size for the given version
pub fn header_size(version: u8) -> (r: u32)
    requires
        version == 1 || version == 2,
    ensures
        r == spec_header_size(version),
{
    match version {
        1 => 24,
        _ => 28,
    }
}

/// Return the footer size for the given version
pub fn footer_size(version: u8) -> (r: u32)
    requires
        version == 1 || version == 2,
    ensures
        r == spec_footer_size(version),
{
    match version {
        1 => 68,
        _ => 72,
    }
}

/// The length of the object ids of `hash` as a `u32`.
pub fn hash_size(hash: HashKind) -> (r: u32)
    ensures
        r == hash.spec_len_in_bytes(),
{
    hash.len_in_bytes() as u32
}

/// A big-endian 32 bit value.
pub open spec fn be32(b: Seq<u8>) -> u32 {
    (b[0] as int * 0x100_0000 + b[1] as int * 0x1_0000 + b[2] as int * 0x100 + b[3] as int) as u32
}

/// A big-endian 64 bit value.
pub open spec fn be64(b: Seq<u8>) -> u64 {
    (be32(b) as int * 0x1_0000_0000 + be32(b.subrange(4, 8)) as int) as u64
}

/// Read a big-endian 32 bit value.
pub fn get_be32(b: &[u8]) -> (r: u32)
    requires
        b@.len() >= 4,
    ensures
        r == be32(b@),
{
    b[0] as u32 * 0x100_0000 + b[1] as u32 * 0x1_0000 + b[2] as u32 * 0x100 + b[3] as u32
}

/// Read a big-endian 64 bit value.
pub fn get_be64(b: &[u8]) -> (r: u64)
    requires
        b@.len() >= 8,
    ensures
        r == be64(b@),
{
    let hi = get_be32(b);
    let lo = get_be32(&b[4..8]);
    hi as u64 * 0x1_0000_0000 + lo as u64
}

/// The bytes "REFT" that start a header and a footer.
pub open spec fn is_magic(b: Seq<u8>) -> bool {
    b.len() >= 4 && b[0] == 0x52 && b[1] == 0x45 && b[2] == 0x46 && b[3] == 0x54
}

fn has_magic(b: &[u8]) -> (r: bool)
    ensures
        r == is_magic(b@),
{
    b.len() >= 4 && b[0] == 0x52 && b[1] == 0x45 && b[2] == 0x46 && b[3] == 0x54
}

/// One bit step of the reflected CRC-32 register (polynomial 0xEDB88320).
pub open spec fn crc_bit(reg: u32) -> u32 {
    if reg & 1 == 1 {
        (reg >> 1u32) ^ 0xEDB8_8320u32
    } else {
        reg >> 1u32
    }
}

/// `n` bit steps of the CRC-32 register.
pub open spec fn crc_bits(reg: u32, n: nat) -> u32
    decreases n,
{
    if n == 0 {
        reg
    } else {
        crc_bits(crc_bit(reg), (n - 1) as nat)
    }
}

/// The CRC-32 register after the bytes `data`, from `reg` on.
pub open spec fn crc_register(reg: u32, data: Seq<u8>) -> u32
    decreases data.len(),
{
    if data.len() == 0 {
        reg
    } else {
        crc_register(crc_bits(reg ^ (data[0] as u32), 8), data.drop_first())
    }
}

/// The CRC-32 (IEEE) of `data` continued from the CRC `previous` of the
/// bytes before it; from 0, the CRC-32 of `data` alone.
pub open spec fn spec_crc32_update(previous: u32, data: Seq<u8>) -> u32 {
    !crc_register(!previous, data)
}

/// Calls `gix_features::hash::crc32_update`, which continues the CRC-32
/// (IEEE) `previous` over `data` with `crc32fast`; the claim is that it
/// computes `spec_crc32_update`, the checksum that both crates document.
#[verifier::external_body]
fn crc32_update(previous: u32, data: &[u8]) -> (r: u32)
    ensures
        r == spec_crc32_update(previous, data@),
{
    gix_features::hash::crc32_update(previous, data)
}

/// Where each block and its index live
#[derive(Clone, Copy, Debug, Default, PartialEq, Eq, Structural)]
pub struct Offsets {
    /// Offset for this block
    pub offset: u64,
    /// Offset for the index corresponding to this block
    pub index_offset: u64,
}

/// The fields of a table footer.
#[derive(Clone, Copy, Debug, PartialEq, Eq, Structural)]
pub struct Footer {
    pub version: u8,
    pub block_size: u32,
    pub min_update_index: u64,
    pub max_update_index: u64,
    pub hash_id: HashKind,
    pub ref_index_offset: u64,
    pub obj_offset: u64,
    pub object_id_len: u64,
    pub obj_index_offset: u64,
    pub log_offset: u64,
    pub log_index_offset: u64,
    pub file_crc: u32,
}

/// The footer of table format `version` in `f` (the whole footer), where the
/// CRC-32 of all of it but its last four bytes is `computed_crc`: the fields
/// after "REFT" and the version, the hash id ("sha1" or "s256", version 2
/// only), the offsets (the object offset shifted right by five, its low five
/// bits being the object id length), and the stored CRC, which must match.
pub open spec fn spec_decode_footer(version: u8, f: Seq<u8>, computed_crc: u32) -> Result<Footer, Error> {
    let hash: Option<HashKind> = if version == 1 {
        Some(HashKind::Sha1)
    } else if f[24] == 0x73 && f[25] == 0x68 && f[26] == 0x61 && f[27] == 0x31 {
        Some(HashKind::Sha1)
    } else if f[24] == 0x73 && f[25] == 0x32 && f[26] == 0x35 && f[27] == 0x36 {
        Some(HashKind::Sha256)
    } else {
        None
    };
    let o = if version == 1 { 24int } else { 28int };
    match hash {
        None => Err(Error::FormatError),
        Some(h) => {
            let obj = be64(f.subrange(o + 8, o + 16));
            let footer = Footer {
                version,
                block_size: be24(f.subrange(5, 8)),
                min_update_index: be64(f.subrange(8, 16)),
                max_update_index: be64(f.subrange(16, 24)),
                hash_id: h,
                ref_index_offset: be64(f.subrange(o, o + 8)),
                obj_offset: obj / 32,
                object_id_len: obj % 32,
                obj_index_offset: be64(f.subrange(o + 16, o + 24)),
                log_offset: be64(f.subrange(o + 24, o + 32)),
                log_index_offset: be64(f.subrange(o + 32, o + 40)),
                file_crc: be32(f.subrange(o + 40, o + 44)),
            };
            if computed_crc != footer.file_crc {
                Err(Error::FormatError)
            } else {
                Ok(footer)
            }
        },
    }
}

/// Decode the footer `f` of table format `version` given the CRC-32 computed
/// over it (see `spec_decode_footer`).
pub fn decode_footer(version: u8, f: &[u8], computed_crc: u32) -> (r: Result<Footer, Error>)
    requires
        version == 1 || version == 2,
        f@.len() == spec_footer_size(version),
    ensures
        r == spec_decode_footer(version, f@, computed_crc),
{
    let block_size = get_be24(&f[5..8]);
    let min_update_index = get_be64(&f[8..16]);
    let max_update_index = get_be64(&f[16..24]);
    let mut o: usize = 24;
    let hash_id = if version == 1 {
        HashKind::Sha1
    } else {
        o = 28;
        if f[24] == 0x73 && f[25] == 0x68 && f[26] == 0x61 && f[27] == 0x31 {
            HashKind::Sha1
        } else if f[24] == 0x73 && f[25] == 0x32 && f[26] == 0x35 && f[27] == 0x36 {
            HashKind::Sha256
        } else {
            return Err(Error::FormatError);
        }
    };
    let ref_index_offset = get_be64(&f[o..o + 8]);
    let obj = get_be64(&f[o + 8..o + 16]);
    let object_id_len = obj % 32;
    let obj_offset = obj / 32;
    let obj_index_offset = get_be64(&f[o + 16..o + 24]);
    let log_offset = get_be64(&f[o + 24..o + 32]);
    let log_index_offset = get_be64(&f[o + 32..o + 40]);
    let file_crc = get_be32(&f[o + 40..o + 44]);
    if computed_crc != file_crc {
        return Err(Error::FormatError);
    }
    Ok(Footer {
        version,
        block_size,
        min_update_index,
        max_update_index,
        hash_id,
        ref_index_offset,
        obj_offset,
        object_id_len,
        obj_index_offset,
        log_offset,
        log_index_offset,
        file_crc,
    })
}


/// What `Table::new` reads from a source: everything a table holds but its
/// name and the source itself.
pub struct TableFields {
    pub size: u64,
    pub version: u8,
    pub block_size: u32,
    pub min_update_index: u64,
    pub max_update_index: u64,
    pub hash_id: HashKind,
    pub ref_offsets: Option<Offsets>,
    pub obj_offsets: Option<Offsets>,
    pub log_offsets: Option<Offsets>,
}

/// What `Table::new` makes of the file `src`: `None` where it panics (a
/// valid header but a file shorter than the footer); otherwise the fields or
/// a format error where the header or footer do not start with "REFT", the
/// version is neither 1 nor 2, the header and the start of the footer
/// differ, the footer does not decode (see `spec_decode_footer`) or object
/// offsets come without an object id length.
pub open spec fn spec_table_new(src: Seq<u8>) -> Option<Result<TableFields, Error>> {
    let file_size = src.len();
    if 29 > file_size {
        Some(Err(Error::FormatError))
    } else {
        let header = src.subrange(0, 29);
        let version = header[4];
        if !is_magic(header) || (version != 1 && version != 2) {
            Some(Err(Error::FormatError))
        } else if file_size < spec_footer_size(version) {
            None
        } else {
            let fs = spec_footer_size(version) as int;
            let size = file_size - fs;
            let footer = src.subrange(size, file_size as int);
            let hs = spec_header_size(version) as int;
            if !is_magic(footer) || header.subrange(0, hs) != footer.subrange(0, hs) {
                Some(Err(Error::FormatError))
            } else {
                let crc = spec_crc32_update(0, footer.subrange(0, fs - 4));
                match spec_decode_footer(version, footer, crc) {
                    Err(e) => Some(Err(e)),
                    Ok(f) => {
                        let first = header[hs];
                        if f.obj_offset > 0 && f.object_id_len == 0 {
                            Some(Err(Error::FormatError))
                        } else {
                            Some(
                                Ok(
                                    TableFields {
                                        size: size as u64,
                                        version,
                                        block_size: f.block_size,
                                        min_update_index: f.min_update_index,
                                        max_update_index: f.max_update_index,
                                        hash_id: f.hash_id,
                                        ref_offsets: if first == BlockType::Ref.spec_byte() {
                                            Some(Offsets { offset: 0, index_offset: f.ref_index_offset })
                                        } else {
                                            None
                                        },
                                        obj_offsets: if f.obj_offset > 0 {
                                            Some(
                                                Offsets {
                                                    offset: f.obj_offset,
                                                    index_offset: f.obj_index_offset,
                                                },
                                            )
                                        } else {
                                            None
                                        },
                                        log_offsets: if first == BlockType::Log.spec_byte()
                                            || f.log_offset > 0 {
                                            Some(
                                                Offsets {
                                                    offset: f.log_offset,
                                                    index_offset: f.log_index_offset,
                                                },
                                            )
                                        } else {
                                            None
                                        },
                                    },
                                ),
                            )
                        }
                    },
                }
            }
        }
    }
}

/// A single reftable, read from a buffer.
#[derive(Clone)]
pub struct Table {
    /// Name used to identify this table, typically the basename of the file.
    pub name: String,
    pub source: BufferSource,
    /// Size of the file excluding footer
    pub size: u64,
    pub version: u8,
    pub block_size: u32,
    pub min_update_index: u64,
    pub max_update_index: u64,
    /// Only available in v2, defaults to SHA-1
    pub hash_id: HashKind,
    pub ref_offsets: Option<Offsets>,
    pub obj_offsets: Option<Offsets>,
    pub log_offsets: Option<Offsets>,
}

impl Table {
    /// The fields read from the file.
    pub open spec fn fields(&self) -> TableFields {
        TableFields {
            size: self.size,
            version: self.version,
            block_size: self.block_size,
            min_update_index: self.min_update_index,
            max_update_index: self.max_update_index,
            hash_id: self.hash_id,
            ref_offsets: self.ref_offsets,
            obj_offsets: self.obj_offsets,
            log_offsets: self.log_offsets,
        }
    }

    /// The table's size excludes the footer and its version is known.
    pub open spec fn wf(&self) -> bool {
        &&& self.source.wf()
        &&& self.size <= self.source@.len()
        &&& (self.version == 1 || self.version == 2)
    }

    /// Read the header and footer of the table in `source`.
    #[verifier::rlimit(40)]
    pub fn new(source: BufferSource, name: String) -> (r: Result<Self, Error>)
        requires
            source.wf(),
            spec_table_new(source@) is Some,
        ensures
            match r {
                Ok(t) => spec_table_new(source@) == Some(Ok::<TableFields, Error>(t.fields()))
                    && t.name@ == name@ && t.source@ == source@ && t.wf(),
                Err(e) => spec_table_new(source@) == Some(Err::<TableFields, Error>(e)),
            },
    {
        let file_size = source.size();

        // Use v2 for the larger size plus one extra byte to get the type of the
        // first block
        let read_size = header_size(2) + 1;
        if read_size as u64 > file_size {
            return Err(Error::FormatError);
        }

        let header = source.read(0, read_size)?;
        let version = header[4];
        if !has_magic(header.as_slice()) {
            return Err(Error::FormatError);
        }
        if version != 1 && version != 2 {
            return Err(Error::FormatError);
        }

        // Table size not including the footer
        let fs = footer_size(version);
        let size = file_size - fs as u64;
        let footer = source.read(size, fs)?;
        if !has_magic(footer.as_slice()) {
            return Err(Error::FormatError);
        }

        let hs = header_size(version) as usize;
        let same = compare_bytes(&header[0..hs], &footer[0..hs]);
        proof {
            lemma_lex_equal(header@.subrange(0, hs as int), footer@.subrange(0, hs as int));
        }
        if same != KeyOrder::Equal {
            return Err(Error::FormatError);
        }

        // crc32 covers the footer up to the CRC itself
        let computed_crc = crc32_update(0, &footer[0..footer.len() - 4]);
        let ghost src = source@;
        proof {
            assert(header@ == src.subrange(0, 29));
            assert(footer@ == src.subrange(size as int, src.len() as int));
            assert(same == KeyOrder::Equal ==> header@.subrange(0, hs as int) == footer@.subrange(0, hs as int));
        }
        let f = match decode_footer(version, footer.as_slice(), computed_crc) {
            Ok(f) => f,
            Err(e) => return Err(e),
        };

        let first_block_type = header[hs];
        let obj_offsets_present = f.obj_offset > 0;
        if obj_offsets_present && f.object_id_len == 0 {
            return Err(Error::FormatError);
        }

        let ref_offsets = if first_block_type == BlockType::Ref.to_byte() {
            Some(Offsets { offset: 0, index_offset: f.ref_index_offset })
        } else {
            None
        };
        let log_offsets = if first_block_type == BlockType::Log.to_byte() || f.log_offset > 0 {
            Some(Offsets { offset: f.log_offset, index_offset: f.log_index_offset })
        } else {
            None
        };
        let obj_offsets = if obj_offsets_present {
            Some(Offsets { offset: f.obj_offset, index_offset: f.obj_index_offset })
        } else {
            None
        };

        Ok(Self {
            name,
            source,
            size,
            version,
            block_size: f.block_size,
            min_update_index: f.min_update_index,
            max_update_index: f.max_update_index,
            hash_id: f.hash_id,
            ref_offsets,
            obj_offsets,
            log_offsets,
        })
    }

    /// The name of this table.
    pub fn name(&self) -> (r: &str)
        ensures
            r@ == self.name@,
    {
        self.name.as_str()
    }

    /// Where the blocks of type `typ` and their index live, if the table has any.
    pub open spec fn spec_offsets_for(&self, typ: BlockType) -> Option<Offsets> {
        match typ {
            BlockType::Ref => self.ref_offsets,
            BlockType::Log => self.log_offsets,
            _ => self.obj_offsets,
        }
    }

    /// Where the blocks of type `typ` and their index live, if the table has
    /// any; there are none for index blocks to ask for.
    pub fn offsets_for(&self, typ: BlockType) -> (r: Option<Offsets>)
        requires
            typ != BlockType::Index,
        ensures
            r == self.spec_offsets_for(typ),
    {
        match typ {
            BlockType::Ref => self.ref_offsets,
            BlockType::Log => self.log_offsets,
            _ => self.obj_offsets,
        }
    }

    /// The arguments `init_block` hands to `Block::new` for `next_off`: the
    /// offset truncated to 32 bits and the header size, which is only there
    /// for the first block.
    pub open spec fn block_header_off(&self, next_off: u64) -> u32 {
        if next_off > 0 {
            0
        } else {
            spec_header_size(self.version)
        }
    }

    /// Whether `init_block` panics: the block is in the table but
    /// `Block::new` panics on it.
    pub open spec fn init_block_panics(&self, next_off: u64, want_type: Option<BlockType>) -> bool {
        next_off < self.size && spec_block_new(
            self.source@,
            next_off as u32,
            self.block_header_off(next_off),
            self.block_size,
            self.hash_id.spec_len_in_bytes() as u32,
            want_type,
        ) is None
    }

    /// What `init_block` returns: nothing past the table's blocks, otherwise
    /// what `Block::new` returns.
    pub open spec fn spec_init_block(&self, next_off: u64, want_type: Option<BlockType>) -> Option<
        Result<BlockView, Error>,
    > {
        if next_off >= self.size {
            None
        } else {
            spec_block_new(
                self.source@,
                next_off as u32,
                self.block_header_off(next_off),
                self.block_size,
                self.hash_id.spec_len_in_bytes() as u32,
                want_type,
            )
        }
    }

    /// Read the block at `next_off`, if that is within the table.
    pub fn init_block(&self, next_off: u64, want_type: Option<BlockType>) -> (r: Option<Result<Block, Error>>)
        requires
            self.wf(),
            !self.init_block_panics(next_off, want_type),
        ensures
            self.spec_init_block(next_off, want_type) == match r {
                None => None,
                Some(Ok(b)) => Some(Ok::<BlockView, Error>(b@)),
                Some(Err(e)) => Some(Err(e)),
            },
    {
        let header_off = if next_off > 0 {
            0
        } else {
            header_size(self.version)
        };
        if next_off >= self.size {
            return None;
        }
        Some(
            Block::new(
                &self.source,
                next_off as u32,
                header_off,
                self.block_size,
                hash_size(self.hash_id),
                want_type,
            ),
        )
    }
}


/// The mathematical value of a [`TableIter`], but for its table.
pub struct TableIterView {
    pub typ: Option<BlockType>,
    pub block_off: u64,
    pub bi: BlockIterView,
    pub is_finished: bool,
}

/// An iterator freshly positioned at the first record of block `b`, which
/// starts at `off`.
pub open spec fn at_block(typ: Option<BlockType>, off: u64, b: BlockView) -> TableIterView {
    TableIterView {
        typ,
        block_off: off,
        bi: BlockIterView { block: b, next_off: b.first_off(), last_key: Seq::empty() },
        is_finished: false,
    }
}

impl TableIterView {
    /// The current block is well formed and within the table; once the
    /// iterator has a type, its block has that type and spans at least a
    /// byte.
    pub open spec fn inv(self, t: &Table) -> bool {
        &&& self.bi.block.wf()
        &&& self.block_off <= t.size
        &&& (self.typ is Some ==> self.bi.block.full_block_size >= 1 && self.bi.block.block_type == self.typ
            && self.block_off < t.size)
    }

    /// The offset of the block after the current one.
    pub open spec fn next_block_off(self) -> int {
        self.block_off + self.bi.block.full_block_size
    }
}

/// `TableIter::next_in_block`: `None` where it panics (the record kind is
/// never decoded, or adding the table's minimum update index overflows).
#[verifier::opaque]
pub open spec fn spec_next_in_block(t: &Table, it: TableIterView, rec: RecordView) -> Option<
    (TableIterView, RecordView, Result<bool, Error>),
> {
    if block_next_panics(it.bi, rec) {
        None
    } else {
        let step = spec_block_next(it.bi, rec);
        let it2 = TableIterView {
            bi: BlockIterView { next_off: step.next_off, last_key: step.last_key, ..it.bi },
            ..it
        };
        match step.result {
            Ok(true) => match step.rec {
                RecordView::Ref(r) => if r.update_index + t.min_update_index > u64::MAX {
                    None
                } else {
                    Some(
                        (
                            it2,
                            RecordView::Ref(
                                RefRecordView {
                                    update_index: (r.update_index + t.min_update_index) as u64,
                                    ..r
                                },
                            ),
                            Ok(true),
                        ),
                    )
                },
                _ => Some((it2, step.rec, Ok(true))),
            },
            res => Some((it2, step.rec, res)),
        }
    }
}

/// `TableIter::next_block`: move to the block after the current one, or
/// finish past the last block; `None` where reading the block panics.
#[verifier::opaque]
pub open spec fn spec_next_block(t: &Table, it: TableIterView) -> Option<(TableIterView, Result<bool, Error>)> {
    let off = it.next_block_off();
    if off > u64::MAX || t.init_block_panics(off as u64, it.typ) {
        None
    } else {
        match t.spec_init_block(off as u64, it.typ) {
            None => Some((TableIterView { is_finished: true, ..it }, Ok(false))),
            Some(Err(e)) => Some((it, Err(e))),
            Some(Ok(b)) => Some((at_block(it.typ, off as u64, b), Ok(true))),
        }
    }
}

/// The loop of `TableIter::next`: records of the current block, then of the
/// blocks after it, until one is found, the table ends or an error comes (a
/// failed block read also finishes the iterator).
pub open spec fn spec_table_next_loop(t: &Table, it: TableIterView, rec: RecordView) -> Option<
    (TableIterView, RecordView, Result<bool, Error>),
>
    decreases (if it.is_finished { 0int } else { 1int }), t.size - it.block_off,
{
    if !it.inv(t) || it.typ is None {
        Some((it, rec, Err(Error::Iterator)))
    } else if it.is_finished {
        Some((it, rec, Ok(false)))
    } else {
        match spec_next_in_block(t, it, rec) {
            None => None,
            Some((it2, rec2, res)) => match res {
                Err(e) => Some((it2, rec2, Err(e))),
                Ok(true) => Some((it2, rec2, Ok(true))),
                Ok(false) => match spec_next_block(t, it2) {
                    None => None,
                    Some((it3, r3)) => match r3 {
                        Err(e) => Some((TableIterView { is_finished: true, ..it3 }, rec2, Err(e))),
                        Ok(_) => if it3.is_finished || (it3.block_off > it.block_off && it3.block_off < t.size) {
                            spec_table_next_loop(t, it3, rec2)
                        } else {
                            Some((it3, rec2, Err(Error::Iterator)))
                        },
                    },
                },
            },
        }
    }
}

/// `TableIter::next`: an API error unless the iterator is positioned on
/// blocks of the record's type, otherwise the loop above.
pub open spec fn spec_table_next(t: &Table, it: TableIterView, rec: RecordView) -> Option<
    (TableIterView, RecordView, Result<bool, Error>),
> {
    if Some(rec.record_type()) != it.typ {
        Some((it, rec, Err(Error::Api)))
    } else {
        spec_table_next_loop(t, it, rec)
    }
}

/// How much is left for an iterator to yield: nothing once finished,
/// otherwise more the earlier its block and, within a block, the earlier its
/// next record.
pub open spec fn rank(t: &Table, it: TableIterView) -> int {
    if it.is_finished {
        0
    } else {
        1 + (t.size - it.block_off) * 0x1_0000_0001 + (0xFFFF_FFFF - it.bi.next_off)
    }
}

proof fn lemma_rank_block_move(t: &Table, it: TableIterView, off: u64, b: BlockView)
    requires
        it.block_off < off <= t.size,
        !it.is_finished,
    ensures
        rank(t, at_block(it.typ, off, b)) < rank(t, it),
{
    let k = 0x1_0000_0001int;
    let d1 = t.size - it.block_off;
    let d2 = t.size - off;
    assert(d2 * k + k <= d1 * k) by (nonlinear_arith)
        requires
            d2 + 1 <= d1,
            k > 0,
    ;
}

/// Law: a step of a table iterator never adds to what is left, and
/// yielding a record takes from it.
pub proof fn lemma_table_next_rank(t: &Table, it: TableIterView, rec: RecordView)
    requires
        t.wf(),
        it.inv(t),
        spec_table_next(t, it, rec) is Some,
    ensures
        spec_table_next(t, it, rec) matches Some((it2, rec2, res)) ==> rank(t, it2) <= rank(t, it) && (res
            == Ok::<bool, Error>(true) ==> rank(t, it2) < rank(t, it)) && it2.inv(t),
{
    if Some(rec.record_type()) == it.typ {
        lemma_table_next_loop_rank(t, it, rec);
    }
}

proof fn lemma_next_in_block_facts(t: &Table, it: TableIterView, rec: RecordView)
    requires
        it.inv(t),
        spec_next_in_block(t, it, rec) is Some,
    ensures
        spec_next_in_block(t, it, rec) matches Some((it2, rec2, res)) ==> {
            &&& it2.typ == it.typ
            &&& it2.block_off == it.block_off
            &&& it2.is_finished == it.is_finished
            &&& it2.bi.block == it.bi.block
            &&& (res == Ok::<bool, Error>(true) ==> it.bi.next_off < it2.bi.next_off)
            &&& (res != Ok::<bool, Error>(true) ==> it2.bi.next_off == it.bi.next_off)
            &&& (res == Ok::<bool, Error>(false) ==> it2 == it)
        },
{
    reveal(spec_next_in_block);
    lemma_block_step_advances(it.bi, rec);
}

proof fn lemma_next_block_facts(t: &Table, it: TableIterView)
    requires
        t.wf(),
        it.inv(t),
        spec_next_block(t, it) is Some,
    ensures
        spec_next_block(t, it) matches Some((it3, r)) ==> {
            &&& (r is Err ==> it3 == it)
            &&& (r == Ok::<bool, Error>(false) ==> it3 == TableIterView { is_finished: true, ..it })
            &&& (r == Ok::<bool, Error>(true) ==> it3.block_off == it.next_block_off() && it3.block_off
                < t.size && !it3.is_finished && it3.typ == it.typ && it3.inv(t) && it3 == at_block(
                it.typ,
                it3.block_off,
                it3.bi.block,
            ))
        },
{
    reveal(spec_next_block);
    let off = it.next_block_off();
    if off <= u64::MAX {
        if let Some(Ok(b)) = t.spec_init_block(off as u64, it.typ) {
            lemma_block_new_wf(
                t.source@,
                off as u32,
                t.block_header_off(off as u64),
                t.block_size,
                t.hash_id.spec_len_in_bytes() as u32,
                it.typ,
            );
        }
    }
}

proof fn lemma_table_next_loop_rank(t: &Table, it: TableIterView, rec: RecordView)
    requires
        t.wf(),
        it.inv(t),
        spec_table_next_loop(t, it, rec) is Some,
    ensures
        spec_table_next_loop(t, it, rec) matches Some((it2, rec2, res)) ==> rank(t, it2) <= rank(t, it) && (
        res == Ok::<bool, Error>(true) ==> rank(t, it2) < rank(t, it)) && it2.inv(t),
    decreases (if it.is_finished { 0int } else { 1int }), t.size - it.block_off,
{
    if it.typ is None || it.is_finished {
    } else {
        lemma_next_in_block_facts(t, it, rec);
        let (it2, rec2, res) = spec_next_in_block(t, it, rec).unwrap();
        if res == Ok::<bool, Error>(false) {
            lemma_next_block_facts(t, it2);
            let (it3, r3) = spec_next_block(t, it2).unwrap();
            match r3 {
                Ok(true) => {
                    lemma_rank_block_move(t, it2, it3.block_off, it3.bi.block);
                    assert(spec_table_next_loop(t, it, rec) == spec_table_next_loop(t, it3, rec2));
                    lemma_table_next_loop_rank(t, it3, rec2);
                },
                Ok(false) => {
                    assert(spec_table_next_loop(t, it3, rec2) == Some((it3, rec2, Ok::<bool, Error>(false))));
                },
                Err(_) => {
                    assert(TableIterView { is_finished: true, ..it3 }.inv(t));
                },
            }
        } else {
            assert(it2.inv(t));
        }
    }
}

/// `TableIter::seek_to`: position the iterator at the block at `off`, if
/// that is within the table; `None` where reading the block panics.
pub open spec fn spec_seek_to(t: &Table, it: TableIterView, off: u64, typ: Option<BlockType>) -> Option<
    (TableIterView, Result<(), Error>),
> {
    if t.init_block_panics(off, typ) {
        None
    } else {
        match t.spec_init_block(off, typ) {
            None => Some((it, Ok(()))),
            Some(Err(e)) => Some((it, Err(e))),
            Some(Ok(b)) => Some((at_block(b.block_type, off, b), Ok(()))),
        }
    }
}

/// `TableIter::seek_start`: position the iterator at the first block of
/// type `typ`, or at its index where `index` is set (an iterator error where
/// the table has no such blocks); `None` where it panics.
pub open spec fn spec_seek_start(t: &Table, it: TableIterView, typ: BlockType, index: bool) -> Option<
    (TableIterView, Result<(), Error>),
> {
    if typ == BlockType::Index {
        None
    } else {
        let offs = t.spec_offsets_for(typ);
        if index {
            match offs {
                None => Some((it, Err(Error::Iterator))),
                Some(o) => spec_seek_to(t, it, o.index_offset, Some(BlockType::Index)),
            }
        } else {
            spec_seek_to(
                t,
                it,
                match offs {
                    Some(o) => o.offset,
                    None => 0,
                },
                Some(typ),
            )
        }
    }
}

/// The block scan of `TableIter::seek_linear`: move on to the next block as
/// long as its first key is not greater than `want`; `None` where reading a
/// block panics.
#[verifier::opaque]
pub open spec fn spec_seek_linear_loop(t: &Table, it: TableIterView, want: Seq<u8>) -> Option<
    (TableIterView, Result<(), Error>),
>
    decreases t.size - it.block_off, (if it.bi.block.full_block_size == 0 { 1int } else { 0int }),
{
    let off = it.next_block_off();
    if !it.inv(t) || off > u64::MAX || t.init_block_panics(off as u64, it.typ) {
        None
    } else {
        match t.spec_init_block(off as u64, it.typ) {
            None => Some((it, Ok(()))),
            Some(Err(e)) => Some((it, Err(e))),
            Some(Ok(b)) => match spec_first_key(b) {
                Err(e) => Some((it, Err(e))),
                Ok(k) => if lex_order(k, want) == KeyOrder::Greater {
                    Some((it, Ok(())))
                } else if b.full_block_size >= 1 && off < t.size {
                    spec_seek_linear_loop(t, at_block(it.typ, off as u64, b), want)
                } else {
                    None
                },
            },
        }
    }
}

/// `TableIter::seek_linear`: find the last block whose first key is not
/// greater than `want`, then the first record in it whose key is not less
/// than `want`; `None` where it panics.
pub open spec fn spec_seek_linear(t: &Table, it: TableIterView, want: Seq<u8>) -> Option<
    (TableIterView, Result<(), Error>),
> {
    match spec_seek_linear_loop(t, it, want) {
        None => None,
        Some((it2, Err(e))) => Some((it2, Err(e))),
        Some((it2, Ok(()))) => if it2.bi.block.block_type == Some(BlockType::Log)
            || it2.bi.block.block_type == Some(BlockType::Obj) {
            None
        } else {
            let bi = BlockIterView { next_off: it2.bi.block.first_off(), ..it2.bi };
            let (bi3, r) = spec_seek_key(bi, want);
            Some((TableIterView { bi: bi3, ..it2 }, r))
        },
    }
}

/// `TableIter::seek`: position the iterator so that `next` returns the
/// first record whose key is not less than `want`'s; `None` where it panics
/// (an index record is wanted, the table has an index for the type, which
/// is not read, or the wanted record is a log or object record).
pub open spec fn spec_table_seek(t: &Table, it: TableIterView, want: RecordView) -> Option<
    (TableIterView, Result<(), Error>),
> {
    let typ = want.record_type();
    if typ == BlockType::Index {
        None
    } else {
        let index = t.spec_offsets_for(typ) matches Some(o) && o.index_offset != 0;
        match spec_seek_start(t, it, typ, index) {
            None => None,
            Some((it2, Err(e))) => Some((it2, Err(e))),
            Some((it2, Ok(()))) => if index || !want.decodable() {
                None
            } else {
                spec_seek_linear(t, it2, want.key())
            },
        }
    }
}

/// Positioning at a block keeps the iterator well formed.
proof fn lemma_seek_to_inv(t: &Table, it: TableIterView, off: u64, typ: Option<BlockType>)
    requires
        t.wf(),
        it.inv(t),
        spec_seek_to(t, it, off, typ) is Some,
    ensures
        spec_seek_to(t, it, off, typ) matches Some((it2, _)) ==> it2.inv(t) && (it2 != it ==> (typ is Some
            ==> it2.typ == typ) && !it2.is_finished && it2.bi.last_key == Seq::<u8>::empty()),
{
    if let Some(Ok(b)) = t.spec_init_block(off, typ) {
        lemma_block_new_wf(
            t.source@,
            off as u32,
            t.block_header_off(off),
            t.block_size,
            t.hash_id.spec_len_in_bytes() as u32,
            typ,
        );
    }
}

/// Where the block scan of a seek stops: on a well formed iterator of the
/// same type, before a block whose first key is greater than the key
/// sought, or before the end of the blocks.
proof fn lemma_seek_linear_loop_stop(t: &Table, it: TableIterView, want: Seq<u8>)
    requires
        t.wf(),
        it.inv(t),
        spec_seek_linear_loop(t, it, want) is Some,
    ensures
        spec_seek_linear_loop(t, it, want) matches Some((it2, _)) ==> it2.inv(t) && it2.typ == it.typ,
        spec_seek_linear_loop(t, it, want) matches Some((it2, Ok(()))) ==> {
            let off = it2.next_block_off();
            &&& it2.inv(t)
            &&& it2.typ == it.typ
            &&& (it2 != it ==> !it2.is_finished && it2.bi.last_key == Seq::<u8>::empty())
            &&& off <= u64::MAX
            &&& !t.init_block_panics(off as u64, it2.typ)
            &&& match t.spec_init_block(off as u64, it2.typ) {
                None => true,
                Some(Ok(b)) => spec_first_key(b) matches Ok(k) && lex_order(k, want) == KeyOrder::Greater,
                Some(Err(_)) => false,
            }
        },
    decreases t.size - it.block_off, (if it.bi.block.full_block_size == 0 { 1int } else { 0int }),
{
    reveal(spec_seek_linear_loop);
    let off = it.next_block_off();
    if let Some(Ok(b)) = t.spec_init_block(off as u64, it.typ) {
        if let Ok(k) = spec_first_key(b) {
            if lex_order(k, want) != KeyOrder::Greater && b.full_block_size >= 1 && off < t.size {
                lemma_block_new_wf(
                    t.source@,
                    off as u32,
                    t.block_header_off(off as u64),
                    t.block_size,
                    t.hash_id.spec_len_in_bytes() as u32,
                    it.typ,
                );
                let it1 = at_block(it.typ, off as u64, b);
                assert(it1.inv(t));
                lemma_seek_linear_loop_stop(t, it1, want);
            }
        }
    }
}

/// A record that the next block yields first, after a seek stopped before
/// that block, has a key greater than the key sought.
proof fn lemma_next_after_stop(t: &Table, it: TableIterView, want: Seq<u8>, rec: RecordView)
    requires
        t.wf(),
        it.inv(t),
        it.typ == Some(rec.record_type()),
        !it.is_finished,
        it.next_block_off() <= u64::MAX,
        match t.spec_init_block(it.next_block_off() as u64, it.typ) {
            None => true,
            Some(Ok(b)) => spec_first_key(b) matches Ok(k) && lex_order(k, want) == KeyOrder::Greater,
            Some(Err(_)) => false,
        },
        spec_next_block(t, it) is Some,
    ensures
        spec_next_block(t, it) matches Some((it3, Ok(_))) ==> (spec_table_next_loop(t, it3, rec) matches Some(
            (_, out, Ok(true)),
        ) ==> lex_order(out.key(), want) == KeyOrder::Greater),
{
    reveal(spec_next_block);
    lemma_next_block_facts(t, it);
    let (it3, r3) = spec_next_block(t, it).unwrap();
    if r3 == Ok::<bool, Error>(true) {
        let b = it3.bi.block;
        assert(it3.bi == BlockIterView { block: b, next_off: b.first_off(), last_key: Seq::empty() });
        lemma_first_key_first(b, rec);
        reveal(spec_next_in_block);
        if rec.decodable() {
            lemma_block_next_kind(it3.bi, rec, rec);
        }
    }
}

/// Positioning a table iterator keeps it well formed.
pub proof fn lemma_table_seek_inv(t: &Table, it: TableIterView, want: RecordView)
    requires
        t.wf(),
        it.inv(t),
        spec_table_seek(t, it, want) is Some,
    ensures
        spec_table_seek(t, it, want) matches Some((it2, _)) ==> it2.inv(t),
{
    let typ = want.record_type();
    let offs = t.spec_offsets_for(typ);
    let off = match offs {
        Some(o) => o.offset,
        None => 0,
    };
    let index = t.spec_offsets_for(typ) matches Some(o) && o.index_offset != 0;
    if index {
        lemma_seek_to_inv(t, it, offs.unwrap().index_offset, Some(BlockType::Index));
    } else {
        lemma_seek_to_inv(t, it, off, Some(typ));
        let (its, r) = spec_seek_start(t, it, typ, index).unwrap();
        if r is Ok {
            let wkey = want.key();
            lemma_seek_linear_loop_stop(t, its, wkey);
            let (itl, _) = spec_seek_linear_loop(t, its, wkey).unwrap();
            let bi = BlockIterView { next_off: itl.bi.block.first_off(), ..itl.bi };
            lemma_seek_key_block(bi, wkey);
        }
    }
}

/// Law: after a table iterator is positioned at a key, the record that
/// `next` yields first has a key not less than the key sought.
pub proof fn lemma_table_seek_then_next(
    t: &Table,
    it: TableIterView,
    want: RecordView,
    it2: TableIterView,
    rec: RecordView,
    it3: TableIterView,
    out: RecordView,
)
    requires
        t.wf(),
        it.inv(t),
        spec_table_seek(t, it, want) matches Some((s, Ok(_))) && s == it2,
        spec_table_next(t, it2, rec) == Some((it3, out, Ok::<bool, Error>(true))),
    ensures
        lex_order(out.key(), want.key()) != KeyOrder::Less,
{
    let typ = want.record_type();
    let index = t.spec_offsets_for(typ) matches Some(o) && o.index_offset != 0;
    let (its, _) = spec_seek_start(t, it, typ, index).unwrap();
    let offs = t.spec_offsets_for(typ);
    let off = match offs {
        Some(o) => o.offset,
        None => 0,
    };
    lemma_seek_to_inv(t, it, off, Some(typ));
    let wkey = want.key();
    lemma_seek_linear_loop_stop(t, its, wkey);
    let (itl, _) = spec_seek_linear_loop(t, its, wkey).unwrap();
    let bi = BlockIterView { next_off: itl.bi.block.first_off(), ..itl.bi };
    lemma_seek_key_block(bi, wkey);
    assert(it2 == TableIterView { bi: spec_seek_key(bi, wkey).0, ..itl });
    assert(it2.inv(t));
    assert(it2.next_block_off() == itl.next_block_off());
    if !it2.is_finished && it2.typ == Some(rec.record_type()) {
        lemma_next_in_block_facts(t, it2, rec);
        reveal(spec_next_in_block);
        if let Some((itn, recn, resn)) = spec_next_in_block(t, it2, rec) {
            if resn == Ok::<bool, Error>(true) {
                lemma_block_next_kind(it2.bi, rec, rec);
                lemma_seek_key_then_next(bi, wkey, rec);
            } else if resn == Ok::<bool, Error>(false) {
                assert(itn == it2);
                assert(recn == rec);
                if spec_next_block(t, it2) is Some {
                    lemma_next_after_stop(t, it2, wkey, rec);
                    lemma_next_block_facts(t, it2);
                    let (itb, rb) = spec_next_block(t, it2).unwrap();
                    if rb == Ok::<bool, Error>(false) {
                        assert(spec_table_next_loop(t, itb, rec) == Some((itb, rec, Ok::<bool, Error>(false))));
                    }
                }
            }
        }
    }
}

/// The keys of the records that a table iterator yields from `it` on, each
/// step reading into `rec`, where it runs to the end of the table: `None`
/// where an error comes first or reading panics.
pub open spec fn table_scan(t: &Table, it: TableIterView, rec: RecordView) -> Option<Seq<Seq<u8>>>
    decreases rank(t, it),
{
    match spec_table_next(t, it, rec) {
        Some((_, _, Ok(false))) => Some(Seq::empty()),
        Some((it2, rec2, Ok(true))) => if 0 <= rank(t, it2) < rank(t, it) {
            match table_scan(t, it2, rec) {
                Some(ks) => Some(seq![rec2.key()] + ks),
                None => None,
            }
        } else {
            None
        },
        _ => None,
    }
}

/// The keys of the ref records of `t`, in the order its iterator yields
/// them from its first ref block on, where it reads them all: `None` where
/// an error comes or reading panics.
pub open spec fn ref_keys(t: &Table) -> Option<Seq<Seq<u8>>> {
    match t.spec_offsets_for(BlockType::Ref) {
        None => Some(Seq::empty()),
        Some(o) => if o.offset >= t.size {
            Some(Seq::empty())
        } else {
            match t.spec_init_block(o.offset, Some(BlockType::Ref)) {
                Some(Ok(b)) => table_scan(
                    t,
                    at_block(Some(BlockType::Ref), o.offset, b),
                    spec_for_search(BlockType::Ref, Seq::empty()),
                ),
                _ => None,
            }
        },
    }
}

/// A table step reads alike with any record of the same decodable kind.
proof fn lemma_table_next_kind(t: &Table, it: TableIterView, r1: RecordView, r2: RecordView)
    requires
        r1.record_type() == r2.record_type(),
        r1.decodable(),
    ensures
        spec_table_next_loop(t, it, r1) is Some == spec_table_next_loop(t, it, r2) is Some,
        spec_table_next_loop(t, it, r1) matches Some((a1, b1, c1)) ==> spec_table_next_loop(t, it, r2) matches Some(
            (a2, b2, c2),
        ) && a1 == a2 && c1 == c2 && (c1 == Ok::<bool, Error>(true) ==> b1 == b2),
    decreases (if it.is_finished { 0int } else { 1int }), t.size - it.block_off,
{
    reveal(spec_next_in_block);
    lemma_block_next_kind(it.bi, r1, r2);
    if it.inv(t) && it.typ is Some && !it.is_finished {
        if let Some((it2, rec2, Ok(false))) = spec_next_in_block(t, it, r1) {
            let rec3 = spec_next_in_block(t, it, r2).unwrap().1;
            if let Some((it3, Ok(_))) = spec_next_block(t, it2) {
                if it3.is_finished || (it3.block_off > it.block_off && it3.block_off < t.size) {
                    lemma_table_next_kind(t, it3, rec2, rec3);
                }
            }
        }
    }
}

proof fn lemma_table_loop_end(t: &Table, it: TableIterView, rec: RecordView)
    requires
        t.wf(),
    ensures
        spec_table_next_loop(t, it, rec) matches Some((it2, _, r)) ==> (r == Ok::<bool, Error>(false)
            ==> it2.is_finished && it2.inv(t) && it2.typ == it.typ),
    decreases (if it.is_finished { 0int } else { 1int }), t.size - it.block_off,
{
    if !it.inv(t) || it.typ is None || it.is_finished || spec_next_in_block(t, it, rec) is None {
        return;
    }
    lemma_next_in_block_facts(t, it, rec);
    let (it2, rec2, r) = spec_next_in_block(t, it, rec).unwrap();
    if r != Ok::<bool, Error>(false) {
        assert(spec_table_next_loop(t, it, rec) == Some((it2, rec2, r)));
        return;
    }
    assert(it2 == it);
    if spec_next_block(t, it2) is None {
        return;
    }
    lemma_next_block_facts(t, it2);
    let (it3, r3) = spec_next_block(t, it2).unwrap();
    match r3 {
        Ok(true) => {
            if it3.block_off > it.block_off && it3.block_off < t.size {
                assert(spec_table_next_loop(t, it, rec) == spec_table_next_loop(t, it3, rec2));
                lemma_table_loop_end(t, it3, rec2);
            }
        },
        Ok(false) => {
            assert(it3.inv(t));
            assert(spec_table_next_loop(t, it, rec) == spec_table_next_loop(t, it3, rec2));
            assert(spec_table_next_loop(t, it3, rec2) == Some((it3, rec2, Ok::<bool, Error>(false))));
        },
        Err(_) => {},
    }
}

/// Law: a table iterator that is not positioned on blocks of the record's
/// kind (one never sought, among them) answers with an API error and
/// changes nothing; once a step reports the end, every later step does
/// too, and changes nothing.
pub proof fn lemma_table_next_api_and_end(t: &Table, it: TableIterView, rec: RecordView)
    requires
        t.wf(),
    ensures
        Some(rec.record_type()) != it.typ ==> spec_table_next(t, it, rec) == Some(
            (it, rec, Err::<bool, Error>(Error::Api)),
        ),
        spec_table_next(t, it, rec) matches Some((it2, rec2, Ok(false))) ==> spec_table_next(t, it2, rec2) == Some(
            (it2, rec2, Ok::<bool, Error>(false)),
        ),
{
    if Some(rec.record_type()) == it.typ {
        lemma_table_loop_end(t, it, rec);
        lemma_table_next_keeps_kind(t, it, rec);
    }
}

/// The outcome of call `n + 1` of `TableIter::next` from `it` on, each
/// reading into the record the one before left; `None` where a call on the
/// way would panic.
pub open spec fn spec_table_steps(t: &Table, it: TableIterView, rec: RecordView, n: nat) -> Option<
    (TableIterView, RecordView, Result<bool, Error>),
>
    decreases n,
{
    if n == 0 {
        spec_table_next(t, it, rec)
    } else {
        match spec_table_next(t, it, rec) {
            Some((it2, rec2, _)) => spec_table_steps(t, it2, rec2, (n - 1) as nat),
            None => None,
        }
    }
}

/// Law: once a table iterator reports its end, every later call reports it
/// too and leaves iterator and record as they are, until the next seek.
pub proof fn lemma_table_end_sticky(t: &Table, it: TableIterView, rec: RecordView, n: nat)
    requires
        t.wf(),
        spec_table_next(t, it, rec) matches Some((_, _, Ok(false))),
    ensures
        spec_table_steps(t, it, rec, n) == spec_table_next(t, it, rec),
    decreases n,
{
    lemma_table_next_api_and_end(t, it, rec);
    if n > 0 {
        let (it2, rec2, _) = spec_table_next(t, it, rec).unwrap();
        lemma_table_end_sticky(t, it2, rec2, (n - 1) as nat);
    }
}

/// The ref record that reads the keys a table has left.
pub open spec fn ref_probe() -> RecordView {
    spec_for_search(BlockType::Ref, Seq::empty())
}

/// A step of a table iterator whose ref keys left read without error takes
/// the first of them into any ref record and leaves the rest to read, or
/// reports the end where none is left.
pub proof fn lemma_table_scan_step(t: &Table, it: TableIterView, rec: RecordView)
    requires
        t.wf(),
        it.inv(t),
        rec.record_type() == BlockType::Ref,
        table_scan(t, it, ref_probe()) is Some,
    ensures
        spec_table_next(t, it, rec) matches Some((it2, rec2, res)) && it2.inv(t) && res is Ok && rec2.record_type()
            == BlockType::Ref && ({
            let ks = table_scan(t, it, ref_probe()).unwrap();
            &&& res == Ok::<bool, Error>(true) ==> ks.len() > 0 && rec2.key() == ks[0] && rec2.record_type()
                == BlockType::Ref && table_scan(t, it2, ref_probe()) == Some(ks.drop_first())
            &&& res == Ok::<bool, Error>(false) ==> ks.len() == 0
        }),
{
    let probe = ref_probe();
    lemma_table_next_kind(t, it, probe, rec);
    lemma_table_next_keeps_kind(t, it, rec);
    lemma_table_next_rank(t, it, probe);
    lemma_table_next_rank(t, it, rec);
    let (it2, rec2, res) = spec_table_next(t, it, probe).unwrap();
    if res == Ok::<bool, Error>(true) {
        lemma_table_next_keeps_kind(t, it, probe);
        let ks = table_scan(t, it, probe).unwrap();
        let ks2 = table_scan(t, it2, probe).unwrap();
        assert(ks == seq![rec2.key()] + ks2);
        assert(ks.drop_first() =~= ks2);
    }
}

/// A table step leaves the record read into of its kind.
pub proof fn lemma_table_next_keeps_kind(t: &Table, it: TableIterView, rec: RecordView)
    ensures
        spec_table_next_loop(t, it, rec) matches Some((_, r2, _)) ==> r2.record_type() == rec.record_type(),
    decreases (if it.is_finished { 0int } else { 1int }), t.size - it.block_off,
{
    reveal(spec_next_in_block);
    if it.inv(t) && it.typ is Some && !it.is_finished {
        if let Some((it2, rec2, Ok(false))) = spec_next_in_block(t, it, rec) {
            if let Some((it3, Ok(_))) = spec_next_block(t, it2) {
                if it3.is_finished || (it3.block_off > it.block_off && it3.block_off < t.size) {
                    lemma_table_next_keeps_kind(t, it3, rec2);
                }
            }
        }
    }
}

/// The keys a table yields do not depend on the record read into, but for
/// its kind.
proof fn lemma_table_scan_kind(t: &Table, it: TableIterView, r1: RecordView, r2: RecordView)
    requires
        r1.record_type() == r2.record_type(),
        r1.decodable(),
    ensures
        table_scan(t, it, r1) == table_scan(t, it, r2),
    decreases rank(t, it),
{
    lemma_table_next_kind(t, it, r1, r2);
    if let Some((it2, rec2, Ok(true))) = spec_table_next(t, it, r1) {
        if 0 <= rank(t, it2) < rank(t, it) {
            lemma_table_scan_kind(t, it2, r1, r2);
        }
    }
}

/// The keys that the blocks after the current one yield.
pub open spec fn scan_after(t: &Table, it: TableIterView, rec: RecordView) -> Option<Seq<Seq<u8>>> {
    match spec_next_block(t, it) {
        Some((it3, Ok(true))) => table_scan(t, it3, rec),
        Some((_, Ok(false))) => Some(Seq::empty()),
        _ => None,
    }
}

/// The keys a table yields from inside a block are the rest of that
/// block's keys, then those of the blocks after it.
#[verifier::rlimit(60)]
proof fn lemma_scan_split(t: &Table, it: TableIterView, rec: RecordView)
    requires
        t.wf(),
        it.inv(t),
        !it.is_finished,
        it.typ == Some(rec.record_type()),
        rec.decodable(),
        table_scan(t, it, rec) is Some,
    ensures
        scan_after(t, it, rec) is Some,
        table_scan(t, it, rec).unwrap() == block_keys(it.bi, rec) + scan_after(t, it, rec).unwrap(),
    decreases it.bi.block.restart_off - it.bi.next_off,
{
    reveal(spec_next_in_block);
    lemma_next_in_block_facts(t, it, rec);
    lemma_block_step_advances(it.bi, rec);
    lemma_block_next_kind(it.bi, rec, rec);
    lemma_table_next_rank(t, it, rec);
    let (it2, rec2, res) = spec_next_in_block(t, it, rec).unwrap();
    let step = spec_block_next(it.bi, rec);
    if res == Ok::<bool, Error>(true) {
        assert(it2.bi == BlockIterView { block: it.bi.block, next_off: step.next_off, last_key: step.last_key });
        assert(rec2.key() == step.last_key);
        lemma_scan_split(t, it2, rec);
        assert(scan_after(t, it2, rec) == scan_after(t, it, rec)) by {
            reveal(spec_next_block);
        }
        let ks2 = table_scan(t, it2, rec).unwrap();
        assert(table_scan(t, it, rec).unwrap() == seq![step.last_key] + ks2);
        assert(block_keys(it.bi, rec) == seq![step.last_key] + block_keys(it2.bi, rec));
        assert(seq![step.last_key] + (block_keys(it2.bi, rec) + scan_after(t, it, rec).unwrap()) =~= (seq![
            step.last_key,
        ] + block_keys(it2.bi, rec)) + scan_after(t, it, rec).unwrap());
    } else if res == Ok::<bool, Error>(false) {
        assert(block_keys(it.bi, rec) =~= Seq::<Seq<u8>>::empty());
        lemma_next_block_facts(t, it);
        let (it3, r3) = spec_next_block(t, it).unwrap();
        if r3 == Ok::<bool, Error>(true) {
            lemma_table_next_rank(t, it3, rec);
            assert(spec_table_next(t, it, rec) == spec_table_next(t, it3, rec));
        } else if r3 == Ok::<bool, Error>(false) {
            assert(spec_table_next(t, it3, rec) == Some((it3, rec, Ok::<bool, Error>(false))));
        }
        assert(Seq::<Seq<u8>>::empty() + scan_after(t, it, rec).unwrap() =~= scan_after(t, it, rec).unwrap());
    }
}

/// The keys a table yields from the start of a block whose first key
/// decodes begin with that key.
proof fn lemma_scan_first(t: &Table, typ: Option<BlockType>, off: u64, b: BlockView, rec: RecordView)
    requires
        t.wf(),
        at_block(typ, off, b).inv(t),
        typ == Some(rec.record_type()),
        rec.decodable(),
        spec_first_key(b) is Ok,
        table_scan(t, at_block(typ, off, b), rec) is Some,
    ensures
        table_scan(t, at_block(typ, off, b), rec).unwrap().len() > 0,
        table_scan(t, at_block(typ, off, b), rec).unwrap()[0] == spec_first_key(b).unwrap(),
{
    let it = at_block(typ, off, b);
    reveal(spec_next_in_block);
    lemma_first_key_first(b, rec);
    lemma_block_next_kind(it.bi, rec, rec);
    lemma_table_next_rank(t, it, rec);
}

/// Where the keys of a table from the start of the current block strictly
/// increase and include `want`, the block scan of a seek stops at the
/// start of the block holding `want`.
#[verifier::rlimit(80)]
proof fn lemma_scan_loop_finds(t: &Table, it: TableIterView, want: Seq<u8>, rec: RecordView)
    requires
        t.wf(),
        it.inv(t),
        !it.is_finished,
        it.typ == Some(rec.record_type()),
        rec.decodable(),
        it.bi == (BlockIterView { block: it.bi.block, next_off: it.bi.block.first_off(), last_key: Seq::empty() }),
        table_scan(t, it, rec) matches Some(ks) && strictly_sorted(ks) && ks.contains(want),
        spec_seek_linear_loop(t, it, want) matches Some((_, Ok(_))),
    ensures
        spec_seek_linear_loop(t, it, want) matches Some((itl, _)) ==> {
            &&& itl.bi == (BlockIterView {
                block: itl.bi.block,
                next_off: itl.bi.block.first_off(),
                last_key: Seq::empty(),
            })
            &&& !itl.is_finished
            &&& strictly_sorted(block_keys(itl.bi, rec))
            &&& block_keys(itl.bi, rec).contains(want)
        },
    decreases t.size - it.block_off, (if it.bi.block.full_block_size == 0 { 1int } else { 0int }),
{
    reveal(spec_seek_linear_loop);
    reveal(spec_next_block);
    lemma_scan_split(t, it, rec);
    let ks = table_scan(t, it, rec).unwrap();
    let bk = block_keys(it.bi, rec);
    let ks2 = scan_after(t, it, rec).unwrap();
    assert(ks == bk + ks2);
    let off = it.next_block_off();
    assert(strictly_sorted(bk)) by {
        assert forall|a: int, c: int| 0 <= a < c < bk.len() implies lex_order(#[trigger] bk[a], #[trigger] bk[c])
            == KeyOrder::Less by {
            assert(bk[a] == ks[a]);
            assert(bk[c] == ks[c]);
        }
    }
    let j = choose|j: int| 0 <= j < ks.len() && ks[j] == want;
    match t.spec_init_block(off as u64, it.typ) {
        None => {
            assert(ks2.len() == 0);
            assert(bk[j] == want);
        },
        Some(Err(_)) => {},
        Some(Ok(b)) => {
            lemma_block_new_wf(
                t.source@,
                off as u32,
                t.block_header_off(off as u64),
                t.block_size,
                t.hash_id.spec_len_in_bytes() as u32,
                it.typ,
            );
            let it1 = at_block(it.typ, off as u64, b);
            if let Ok(k) = spec_first_key(b) {
                lemma_scan_first(t, it.typ, off as u64, b, rec);
                assert(ks2 == table_scan(t, it1, rec).unwrap());
                assert(ks[bk.len() as int] == k);
                if lex_order(k, want) == KeyOrder::Greater {
                    // `want` sorts before the next block: it is in this one.
                    if j >= bk.len() {
                        lemma_lex_flip(k, want);
                        if j > bk.len() {
                            assert(lex_order(ks[bk.len() as int], ks[j]) == KeyOrder::Less);
                        } else {
                            lemma_lex_equal(k, want);
                        }
                    }
                    assert(bk[j] == want);
                } else if b.full_block_size >= 1 && off < t.size {
                    // Every key of this block sorts before the next block's first.
                    if j < bk.len() {
                        assert(lex_order(ks[j], ks[bk.len() as int]) == KeyOrder::Less);
                        lemma_lex_trans(want, k, want);
                        lemma_lex_equal(want, want);
                    }
                    assert(ks2[j - bk.len()] == want);
                    assert(strictly_sorted(ks2)) by {
                        assert forall|a: int, c: int| 0 <= a < c < ks2.len() implies lex_order(
                            #[trigger] ks2[a],
                            #[trigger] ks2[c],
                        ) == KeyOrder::Less by {
                            assert(ks2[a] == ks[a + bk.len()]);
                            assert(ks2[c] == ks[c + bk.len()]);
                        }
                    }
                    lemma_scan_loop_finds(t, it1, want, rec);
                }
            }
        },
    }
}

/// Law: where the ref records of a table read without error, their keys
/// strictly increase and include `want`'s, and a seek to `want` succeeds,
/// the record that `next` yields then, unless reading panics, is the one
/// keyed `want`.
pub proof fn lemma_table_seek_finds(t: &Table, it: TableIterView, want: RecordView, it2: TableIterView, rec: RecordView)
    requires
        t.wf(),
        it.inv(t),
        rec.record_type() == BlockType::Ref,
        ref_keys(t) matches Some(ks) && strictly_sorted(ks) && ks.contains(want.key()),
        spec_table_seek(t, it, want) matches Some((s, Ok(_))) && s == it2,
    ensures
        spec_table_next(t, it2, rec) matches Some((_, out, r)) ==> r == Ok::<bool, Error>(true) && out.key()
            == want.key(),
{
    let typ = want.record_type();
    let o = t.spec_offsets_for(BlockType::Ref).unwrap();
    let b0 = t.spec_init_block(o.offset, Some(BlockType::Ref)).unwrap().unwrap();
    lemma_block_new_wf(
        t.source@,
        o.offset as u32,
        t.block_header_off(o.offset),
        t.block_size,
        t.hash_id.spec_len_in_bytes() as u32,
        Some(BlockType::Ref),
    );
    let its = at_block(Some(BlockType::Ref), o.offset, b0);
    lemma_table_scan_kind(t, its, spec_for_search(BlockType::Ref, Seq::empty()), rec);
    assert(typ == BlockType::Ref);
    assert(spec_seek_start(t, it, typ, false) == Some((its, Ok::<(), Error>(()))));
    let wkey = want.key();
    lemma_scan_loop_finds(t, its, wkey, rec);
    lemma_seek_linear_loop_stop(t, its, wkey);
    let (itl, _) = spec_seek_linear_loop(t, its, wkey).unwrap();
    let bi = itl.bi;
    assert(bi == BlockIterView { next_off: itl.bi.block.first_off(), ..itl.bi });
    lemma_seek_key_block(bi, wkey);
    lemma_seek_key_finds(bi, wkey, rec);
    assert(it2 == TableIterView { bi: spec_seek_key(bi, wkey).0, ..itl });
    reveal(spec_next_in_block);
    lemma_block_next_kind(it2.bi, rec, rec);
}

/// Iterator over a table
pub struct TableIter<'a> {
    pub table: &'a Table,
    pub typ: Option<BlockType>,
    pub block_off: u64,
    pub bi: BlockIter,
    pub is_finished: bool,
}

impl<'a> View for TableIter<'a> {
    type V = TableIterView;

    open spec fn view(&self) -> TableIterView {
        TableIterView { typ: self.typ, block_off: self.block_off, bi: self.bi@, is_finished: self.is_finished }
    }
}

impl<'a> TableIter<'a> {
    /// The table is well formed and so is the iterator on it.
    pub open spec fn inv(&self) -> bool {
        self.table.wf() && self@.inv(self.table)
    }

    /// An iterator over the records of type `typ`; it is finished at once
    /// where the table has none.
    pub fn new(table: &'a Table, typ: BlockType) -> (r: Self)
        requires
            table.wf(),
            typ != BlockType::Index,
        ensures
            r.table == table,
            r.inv(),
            r@ == (TableIterView {
                typ: None,
                block_off: 0,
                bi: BlockIterView { block: empty_block(), next_off: 0, last_key: Seq::empty() },
                is_finished: table.spec_offsets_for(typ) is None,
            }),
    {
        // If there is nothing for this type then we mark it as finished
        // immediately
        let is_finished = table.offsets_for(typ).is_none();
        Self { table, typ: None, block_off: 0, bi: BlockIter::empty(), is_finished }
    }

    fn next_in_block(&mut self, rec: &mut Record) -> (r: Result<bool, Error>)
        requires
            old(self).inv(),
            spec_next_in_block(old(self).table, old(self)@, old(rec)@) is Some,
        ensures
            final(self).table == old(self).table,
            spec_next_in_block(old(self).table, old(self)@, old(rec)@) == Some((final(self)@, final(rec)@, r)),
            final(self)@.bi.block == old(self)@.bi.block,
            final(self)@.typ == old(self)@.typ,
            final(self)@.block_off == old(self)@.block_off,
            final(self)@.is_finished == old(self)@.is_finished,
    {
        proof {
            reveal(spec_next_in_block);
        }
        if self.bi.next(rec)? {
            if let Record::Ref(r) = rec {
                r.update_index = r.update_index + self.table.min_update_index;
            }
            Ok(true)
        } else {
            Ok(false)
        }
    }

    fn next_block(&mut self) -> (r: Result<bool, Error>)
        requires
            old(self).inv(),
            spec_next_block(old(self).table, old(self)@) is Some,
        ensures
            final(self).table == old(self).table,
            spec_next_block(old(self).table, old(self)@) == Some((final(self)@, r)),
            final(self).inv(),
            final(self)@.typ == old(self)@.typ,
            r == Ok::<bool, Error>(true) ==> final(self)@.block_off == old(self)@.next_block_off()
                && !final(self)@.is_finished,
            r == Ok::<bool, Error>(false) ==> final(self)@.is_finished,
    {
        proof {
            reveal(spec_next_block);
        }
        let next_block_off = self.block_off + self.bi.block.full_block_size as u64;
        let block = match self.table.init_block(next_block_off, self.typ) {
            Some(Ok(block)) => block,
            Some(Err(e)) => return Err(e),
            None => {
                self.is_finished = true;
                return Ok(false);
            },
        };
        proof {
            lemma_block_new_wf(
                self.table.source@,
                next_block_off as u32,
                self.table.block_header_off(next_block_off),
                self.table.block_size,
                self.table.hash_id.spec_len_in_bytes() as u32,
                self.typ,
            );
        }
        self.block_off = next_block_off;
        self.is_finished = false;
        self.bi = BlockIter::from_block(block);
        Ok(true)
    }

    fn seek_to(&mut self, off: u64, typ: Option<BlockType>) -> (r: Result<(), Error>)
        requires
            old(self).inv(),
            spec_seek_to(old(self).table, old(self)@, off, typ) is Some,
        ensures
            final(self).table == old(self).table,
            final(self).inv(),
            spec_seek_to(old(self).table, old(self)@, off, typ) == Some((final(self)@, r)),
    {
        let block = match self.table.init_block(off, typ) {
            Some(Ok(block)) => block,
            Some(Err(e)) => return Err(e),
            None => return Ok(()),
        };
        proof {
            lemma_block_new_wf(
                self.table.source@,
                off as u32,
                self.table.block_header_off(off),
                self.table.block_size,
                self.table.hash_id.spec_len_in_bytes() as u32,
                typ,
            );
        }
        self.typ = block.block_type;
        self.block_off = off;
        self.bi = BlockIter::from_block(block);
        self.is_finished = false;
        Ok(())
    }

    fn seek_start(&mut self, typ: BlockType, index: bool) -> (r: Result<(), Error>)
        requires
            old(self).inv(),
            spec_seek_start(old(self).table, old(self)@, typ, index) is Some,
        ensures
            final(self).table == old(self).table,
            final(self).inv(),
            spec_seek_start(old(self).table, old(self)@, typ, index) == Some((final(self)@, r)),
    {
        let offs = self.table.offsets_for(typ);
        let mut off = match offs {
            Some(o) => o.offset,
            None => 0,
        };
        let mut typ = typ;
        if index {
            off = match offs {
                Some(offs) => offs.index_offset,
                None => return Err(Error::Iterator),
            };
            typ = BlockType::Index;
        }
        self.seek_to(off, Some(typ))
    }

    fn seek_linear(&mut self, want: &Record) -> (r: Result<(), Error>)
        requires
            old(self).inv(),
            want@.decodable(),
            spec_seek_linear(old(self).table, old(self)@, want@.key()) is Some,
        ensures
            final(self).table == old(self).table,
            final(self).inv(),
            spec_seek_linear(old(self).table, old(self)@, want@.key()) == Some((final(self)@, r)),
    {
        let mut got_key = Vec::new();
        let want_key = want.clone_key();

        // First we need to locate the block that must contain our record. To
        // do so we scan through blocks linearly until we find the first block
        // whose first key is bigger than our wanted key. Once we have found
        // that block we know that the key must be contained in the preceding
        // block.
        loop
            invariant
                self.inv(),
                self.table == old(self).table,
                want_key@ == want@.key(),
                spec_seek_linear_loop(self.table, self@, want_key@) == spec_seek_linear_loop(
                    old(self).table,
                    old(self)@,
                    want_key@,
                ),
                spec_seek_linear_loop(self.table, self@, want_key@) is Some,
            ensures
                self.inv(),
                self.table == old(self).table,
                want_key@ == want@.key(),
                spec_seek_linear_loop(old(self).table, old(self)@, want_key@) == Some((self@, Ok::<(), Error>(()))),
            decreases self.table.size - self.block_off, (if self.bi.block.full_block_size == 0 {
                1int
            } else {
                0int
            }),
        {
            proof {
                reveal(spec_seek_linear_loop);
            }
            let ghost cur = self@;
            let next_block_off = self.block_off + self.bi.block.full_block_size as u64;
            let block = match self.table.init_block(next_block_off, self.typ) {
                Some(Ok(block)) => block,
                Some(Err(e)) => return Err(e),
                None => break,
            };
            match block.first_key(&mut got_key) {
                Ok(()) => {},
                Err(e) => return Err(e),
            }
            if compare_bytes(got_key.as_slice(), want_key.as_slice()) == KeyOrder::Greater {
                break;
            }
            proof {
                lemma_block_new_wf(
                    self.table.source@,
                    next_block_off as u32,
                    self.table.block_header_off(next_block_off),
                    self.table.block_size,
                    self.table.hash_id.spec_len_in_bytes() as u32,
                    self.typ,
                );
            }
            self.block_off = next_block_off;
            self.is_finished = false;
            self.bi = BlockIter::from_block(block);
            assert(spec_seek_linear_loop(self.table, cur, want_key@) == spec_seek_linear_loop(
                self.table,
                self@,
                want_key@,
            ));
        }

        // We have located the block that must contain our record, so we seek
        // the wanted key inside of it. If the block does not contain our key
        // we know that the corresponding record does not exist.
        let ghost found = self@;
        assert(found.bi.block.block_type != Some(BlockType::Log) && found.bi.block.block_type != Some(
            BlockType::Obj,
        ));
        self.bi.seek_start();
        let r = self.bi.seek_key(want_key.as_slice());
        assert(spec_seek_linear(self.table, old(self)@, want@.key()) == Some((self@, r)));
        r
    }

    /// Position the iterator so that `next` yields the first record whose
    /// key is not less than `want`'s (see `spec_table_seek`).
    pub fn seek(&mut self, want: &Record) -> (r: Result<(), Error>)
        requires
            old(self).inv(),
            spec_table_seek(old(self).table, old(self)@, want@) is Some,
        ensures
            final(self).table == old(self).table,
            final(self).inv(),
            spec_table_seek(old(self).table, old(self)@, want@) == Some((final(self)@, r)),
    {
        let typ = want.record_type();
        let offs = self.table.offsets_for(typ);
        let index = match offs {
            Some(o) => o.index_offset != 0,
            None => false,
        };
        self.seek_start(typ, index)?;
        // Index blocks are never read: `spec_table_seek` rules out tables
        // that have one for the wanted type.
        self.seek_linear(want)
    }

    /// Yield the next record of the table into `rec` (see `spec_table_next`).
    pub fn next(&mut self, rec: &mut Record) -> (r: Result<bool, Error>)
        requires
            old(self).inv(),
            spec_table_next(old(self).table, old(self)@, old(rec)@) is Some,
        ensures
            final(self).table == old(self).table,
            final(self).inv(),
            spec_table_next(old(self).table, old(self)@, old(rec)@) == Some((final(self)@, final(rec)@, r)),
    {
        let typ = rec.record_type();
        let same = match self.typ {
            Some(t) => t == typ,
            None => false,
        };
        if !same {
            return Err(Error::Api);
        }
        loop
            invariant
                spec_table_next(old(self).table, old(self)@, old(rec)@) == spec_table_next_loop(
                    old(self).table,
                    old(self)@,
                    old(rec)@,
                ),
                self.inv(),
                self.table == old(self).table,
                self.typ is Some,
                spec_table_next_loop(self.table, self@, rec@) == spec_table_next_loop(
                    old(self).table,
                    old(self)@,
                    old(rec)@,
                ),
                spec_table_next_loop(self.table, self@, rec@) is Some,
            decreases (if self.is_finished { 0int } else { 1int }), self.table.size - self.block_off,
        {
            let ghost cur = self@;
            let ghost currec = rec@;
            if self.is_finished {
                return Ok(false);
            }
            let found = match self.next_in_block(rec) {
                Ok(f) => f,
                Err(e) => {
                    return Err(e);
                },
            };
            if found {
                return Ok(true);
            }
            let ghost mid = self@;
            assert(spec_next_in_block(self.table, cur, currec) == Some((mid, rec@, Ok::<bool, Error>(false))));
            match self.next_block() {
                Err(e) => {
                    self.is_finished = true;
                    return Err(e);
                },
                Ok(b) => {
                    assert(spec_next_block(self.table, mid) == Some((self@, Ok::<bool, Error>(b))));
                    assert(self@.is_finished || (self@.block_off > cur.block_off && self@.block_off < self.table.size));
                },
            }
            assert(spec_table_next_loop(self.table, cur, currec) == spec_table_next_loop(self.table, self@, rec@));
        }
    }
}

} // verus!
