//! Blocks of a reftable and iteration over the records in a block.
use super::blocksource::BufferSource;
use super::keys::{compare_bytes, lemma_lex_equal, lex_order, KeyOrder};
use super::record::{lemma_record_decode_len, spec_for_search, spec_record_decode, Record, RecordView};
use super::{copy_bytes, be24, block_type_of, decode_key, get_be24, spec_decode_key, lemma_decode_key_len, leb64, spec_keylen, BlockType, Error};
use vstd::prelude::*;

verus! {

/// The block size assumed while the table does not give one.
pub const DEFAULT_BLOCK_SIZE: u32 = 4096;

/// A big-endian 16 bit value.
pub open spec fn be16(b: Seq<u8>) -> u16 {
    (b[0] as int * 256 + b[1] as int) as u16
}

/// The bytes that `read_block` returns: those at `off`, `sz` of them or up
/// to the end of the source.
pub open spec fn spec_read_block(src: Seq<u8>, off: u64, sz: u32) -> Result<Seq<u8>, Error> {
    if off + sz > u64::MAX {
        Err(Error::IoError)
    } else if off + sz > src.len() {
        Ok(src.subrange(off as int, src.len() as int))
    } else {
        Ok(src.subrange(off as int, off + sz))
    }
}

/// Read a block from the source while making sure we don't run off the end
///
/// We cut off at the end of the block rather than returning an error like the
/// source itself would so we can guess at the block size in [`Block::new()`]
/// safely.
fn read_block(source: &BufferSource, off: u64, sz: u32) -> (r: Result<Vec<u8>, Error>)
    requires
        off < source@.len(),
    ensures
        match r {
            Ok(v) => spec_read_block(source@, off, sz) == Ok::<Seq<u8>, Error>(v@),
            Err(e) => spec_read_block(source@, off, sz) == Err::<Seq<u8>, Error>(e),
        },
{
    let size = source.size();
    let mut sz = sz;
    match off.checked_add(sz as u64) {
        None => return Err(Error::IoError),
        Some(end) => {
            if end > size {
                sz = (size - off) as u32;
            }
        },
    }
    source.read(off, sz)
}

/// The mathematical value of a [`Block`].
pub struct BlockView {
    pub header_off: u32,
    pub data: Seq<u8>,
    pub hash_size: u32,
    pub restart_count: u16,
    pub restart_off: u32,
    pub full_block_size: u32,
    pub block_type: Option<BlockType>,
}

/// What `Block::new` does for a block at `offset` of `src`: `None` where it
/// panics (the offset is past the source, the header, the size or the
/// restart count run past the data read, the block is a log block, or the
/// restart table does not fit the block), otherwise the block or the error.
pub open spec fn spec_block_new(
    src: Seq<u8>,
    offset: u32,
    header_size: u32,
    table_block_size: u32,
    hash_size: u32,
    want_type: Option<BlockType>,
) -> Option<Result<BlockView, Error>> {
    let guess = if table_block_size > 0 { table_block_size } else { DEFAULT_BLOCK_SIZE };
    if offset >= src.len() {
        None
    } else {
        match spec_read_block(src, offset as u64, guess) {
            Err(e) => Some(Err(e)),
            Ok(d1) => if header_size >= d1.len() {
                None
            } else {
                match block_type_of(d1[header_size as int]) {
                    Err(e) => Some(Err(e)),
                    Ok(bt) => if want_type.is_some() && want_type != Some(bt) {
                        Some(Err(Error::MismatchedBlockType))
                    } else if header_size + 4 > d1.len() {
                        None
                    } else {
                        let bs = be24(d1.subrange(header_size + 1, d1.len() as int));
                        let d2 = if bs > guess {
                            spec_read_block(src, offset as u64, bs)
                        } else {
                            Ok(d1)
                        };
                        match d2 {
                            Err(e) => Some(Err(e)),
                            Ok(d) => if bt == BlockType::Log || bs < 2 || bs > d.len() {
                                None
                            } else {
                                let full = if table_block_size == 0 {
                                    bs
                                } else if bs < table_block_size && bs < d.len() && d[bs as int] != 0 {
                                    bs
                                } else {
                                    table_block_size
                                };
                                let rc = be16(d.subrange(bs - 2, bs as int));
                                if 3 * rc > u16::MAX || 3 * rc + 2 > bs {
                                    None
                                } else {
                                    Some(
                                        Ok(
                                            BlockView {
                                                header_off: header_size,
                                                data: d,
                                                hash_size,
                                                restart_count: rc,
                                                restart_off: (bs - 2 - 3 * rc) as u32,
                                                full_block_size: full,
                                                block_type: Some(bt),
                                            },
                                        ),
                                    )
                                }
                            },
                        }
                    },
                }
            },
        }
    }
}

/// A block in the reftable.
///
/// Once created, a block is immutable
pub struct Block {
    /// Offset of the block header; nonzero for the first block in a reftable
    pub header_off: u32,
    /// Memory block
    pub block_data: Vec<u8>,
    pub hash_size: u32,
    /// Restart point data. Restart points are located after the block's record
    /// data.
    pub restart_count: u16,
    pub restart_off: u32,
    /// Size of the data in the file. For log blocks, this is the compressed
    /// size.
    pub full_block_size: u32,
    pub block_type: Option<BlockType>,
}

impl View for Block {
    type V = BlockView;

    open spec fn view(&self) -> BlockView {
        BlockView {
            header_off: self.header_off,
            data: self.block_data@,
            hash_size: self.hash_size,
            restart_count: self.restart_count,
            restart_off: self.restart_off,
            full_block_size: self.full_block_size,
            block_type: self.block_type,
        }
    }
}

impl BlockView {
    /// The records end where the restart table starts, within the data, and
    /// the first record's offset fits.
    pub open spec fn wf(self) -> bool {
        &&& self.restart_off <= self.data.len()
        &&& self.header_off + 4 <= u32::MAX
    }

    /// The offset of the first record.
    pub open spec fn first_off(self) -> u32 {
        (self.header_off + 4) as u32
    }

    /// The record bytes from `off` up to the restart table.
    pub open spec fn records_from(self, off: u32) -> Seq<u8> {
        self.data.subrange(off as int, self.restart_off as int)
    }
}

/// Law: how far a block that `Block::new` makes reaches into the table.
/// With no table block size, it spans its own length, the 24-bit field
/// after its type byte. A block shorter than the table's block size that is
/// followed by a zero byte is padded: it spans the whole table block size,
/// so the next block starts at the next multiple of it; followed by another
/// byte, the next block starts right after it; and a block as long as the
/// table block size or longer, or one that ends the source, spans the table
/// block size.
pub proof fn lemma_block_full_size(
    src: Seq<u8>,
    offset: u32,
    header_size: u32,
    table_block_size: u32,
    hash_size: u32,
    want_type: Option<BlockType>,
)
    requires
        spec_block_new(src, offset, header_size, table_block_size, hash_size, want_type) is Some,
    ensures
        spec_block_new(src, offset, header_size, table_block_size, hash_size, want_type) matches Some(Ok(b)) ==> {
            let at = offset + header_size;
            let len = src[at + 1] as int * 65536 + src[at + 2] as int * 256 + src[at + 3] as int;
            &&& table_block_size == 0 ==> b.full_block_size == len
            &&& table_block_size > 0 && len < table_block_size && offset + len < src.len() && src[offset + len] == 0
                ==> b.full_block_size == table_block_size
            &&& table_block_size > 0 && len < table_block_size && offset + len < src.len() && src[offset + len] != 0
                ==> b.full_block_size == len
            &&& table_block_size > 0 && (len >= table_block_size || offset + len >= src.len())
                ==> b.full_block_size == table_block_size
        },
{
    if let Some(Ok(b)) = spec_block_new(src, offset, header_size, table_block_size, hash_size, want_type) {
        let guess = if table_block_size > 0 { table_block_size } else { DEFAULT_BLOCK_SIZE };
        let d1 = spec_read_block(src, offset as u64, guess).unwrap();
        let at = offset + header_size;
        let tail = d1.subrange(header_size + 1, d1.len() as int);
        assert(tail[0] == src[at + 1] && tail[1] == src[at + 2] && tail[2] == src[at + 3]);
        let bs = be24(tail);
        let len = src[at + 1] as int * 65536 + src[at + 2] as int * 256 + src[at + 3] as int;
        assert(bs == len);
        let d = b.data;
        if bs < d.len() {
            assert(d[bs as int] == src[offset + bs]);
        }
    }
}

/// Law: a block that `Block::new` makes is well formed, is not a log block,
/// and spans at least one byte of the file.
pub proof fn lemma_block_new_wf(
    src: Seq<u8>,
    offset: u32,
    header_size: u32,
    table_block_size: u32,
    hash_size: u32,
    want_type: Option<BlockType>,
)
    requires
        spec_block_new(src, offset, header_size, table_block_size, hash_size, want_type) matches Some(
            Ok(_),
        ),
    ensures
        spec_block_new(src, offset, header_size, table_block_size, hash_size, want_type) matches Some(
            Ok(b),
        ) ==> b.wf() && b.full_block_size >= 1 && b.block_type is Some && b.block_type != Some(
            BlockType::Log,
        ) && (want_type is Some ==> b.block_type == want_type) && b.header_off == header_size,
{
}

/// A block that holds no records and has no type.
pub open spec fn empty_block() -> BlockView {
    BlockView {
        header_off: 0,
        data: Seq::empty(),
        hash_size: 0,
        restart_count: 0,
        restart_off: 0,
        full_block_size: 0,
        block_type: None,
    }
}

impl Block {
    /// An empty block that holds no records.
    pub fn empty() -> (r: Self)
        ensures
            r@ == empty_block(),
    {
        Block {
            header_off: 0,
            block_data: Vec::new(),
            hash_size: 0,
            restart_count: 0,
            restart_off: 0,
            full_block_size: 0,
            block_type: None,
        }
    }

    /// Create a new block from the source and given data from the table.
    pub fn new(
        source: &BufferSource,
        offset: u32,
        header_size: u32,
        table_block_size: u32,
        hash_size: u32,
        want_type: Option<BlockType>,
    ) -> (r: Result<Self, Error>)
        requires
            spec_block_new(source@, offset, header_size, table_block_size, hash_size, want_type) is Some,
        ensures
            spec_block_new(source@, offset, header_size, table_block_size, hash_size, want_type) == Some(
                match r {
                    Ok(b) => Ok::<BlockView, Error>(b@),
                    Err(e) => Err(e),
                },
            ),
    {
        // If there is no given table block size we guess at a sensible 4k for
        // the block and adjust if necessary once we figure out the block size.
        let guess_block_size = if table_block_size > 0 {
            table_block_size
        } else {
            DEFAULT_BLOCK_SIZE
        };

        let mut block_data = read_block(source, offset as u64, guess_block_size)?;
        let block_type = BlockType::try_from_byte(block_data[header_size as usize])?;
        if want_type.is_some() && want_type != Some(block_type) {
            return Err(Error::MismatchedBlockType);
        }

        let block_size = get_be24(&block_data[(header_size + 1) as usize..block_data.len()]);
        if block_size > guess_block_size {
            block_data = read_block(source, offset as u64, block_size)?;
        }

        let mut full_block_size = table_block_size;
        if block_type == BlockType::Log {
            // Compressed log blocks are not read.
            return Err(Error::FormatError);
        } else if full_block_size == 0 {
            full_block_size = block_size;
        } else if block_size < full_block_size && (block_size as usize) < block_data.len()
            && block_data[block_size as usize] != 0 {
            // If the block is smaller than the full block size, it is
            // padded (data followed by '\0') or the next block is
            // unaligned.
            full_block_size = block_size;
        }

        let rc_hi = block_data[(block_size - 2) as usize];
        let rc_lo = block_data[(block_size - 1) as usize];
        let restart_count = rc_hi as u16 * 256 + rc_lo as u16;
        let restart_off = block_size - 2 - (3 * restart_count) as u32;

        Ok(Self {
            header_off: header_size,
            block_data,
            hash_size,
            restart_count,
            restart_off,
            full_block_size,
            block_type: Some(block_type),
        })
    }
}


/// The key of the first record of a block, decoded against an empty key.
pub open spec fn spec_first_key(b: BlockView) -> Result<Seq<u8>, Error> {
    let off = b.first_off();
    let input = if off <= b.restart_off { b.records_from(off) } else { Seq::empty() };
    match spec_decode_key(input, Seq::empty()) {
        None => Err(Error::FormatError),
        Some((_, k, _)) => if k.len() == 0 {
            Err(Error::FormatError)
        } else {
            Ok(k)
        },
    }
}

impl Block {
    /// Decode the key of the first record into `key`.
    pub fn first_key(&self, key: &mut Vec<u8>) -> (r: Result<(), Error>)
        requires
            self@.wf(),
        ensures
            match spec_first_key(self@) {
                Ok(k) => r is Ok && final(key)@ == k,
                Err(e) => r == Err::<(), Error>(e) && final(key)@ == Seq::<u8>::empty(),
            },
    {
        let off = self.header_off + 4;
        key.clear();
        let input: &[u8] = if off <= self.restart_off {
            &self.block_data[off as usize..self.restart_off as usize]
        } else {
            &[]
        };
        proof {
            assert(input@ =~= (if off <= self.restart_off { self@.records_from(off) } else { Seq::<u8>::empty() }));
        }
        decode_key(input, key)?;
        if key.len() == 0 {
            return Err(Error::FormatError);
        }
        Ok(())
    }
}

/// The mathematical value of a [`BlockIter`].
pub struct BlockIterView {
    pub block: BlockView,
    pub next_off: u32,
    pub last_key: Seq<u8>,
}

/// What one call of `BlockIter::next` makes of the iterator and the record,
/// and what it returns.
pub struct BlockStep {
    pub next_off: u32,
    pub last_key: Seq<u8>,
    pub rec: RecordView,
    pub result: Result<bool, Error>,
}

/// One step of a block iterator: past the records it yields `Ok(false)`;
/// otherwise it decodes the key (a format error where that fails or gives
/// an empty key) and the record, and moves past both on success.
pub open spec fn spec_block_next(it: BlockIterView, rec: RecordView) -> BlockStep {
    let b = it.block;
    if it.next_off >= b.restart_off {
        BlockStep { next_off: it.next_off, last_key: it.last_key, rec, result: Ok(false) }
    } else {
        let data = b.records_from(it.next_off);
        match spec_decode_key(data, it.last_key) {
            None => BlockStep {
                next_off: it.next_off,
                last_key: it.last_key,
                rec,
                result: Err(Error::FormatError),
            },
            Some((extra, key, n)) => if key.len() == 0 {
                BlockStep { next_off: it.next_off, last_key: key, rec, result: Err(Error::FormatError) }
            } else {
                let (rec2, res) = spec_record_decode(
                    rec,
                    key,
                    data.subrange(n, data.len() as int),
                    extra,
                    b.hash_size,
                );
                match res {
                    Err(e) => BlockStep { next_off: it.next_off, last_key: key, rec: rec2, result: Err(e) },
                    Ok(m) => BlockStep {
                        next_off: (it.next_off + n + m) as u32,
                        last_key: key,
                        rec: rec2,
                        result: Ok(true),
                    },
                }
            },
        }
    }
}

/// Whether that step panics: it reaches a record of a kind that is never
/// decoded.
pub open spec fn block_next_panics(it: BlockIterView, rec: RecordView) -> bool {
    &&& it.next_off < it.block.restart_off
    &&& spec_decode_key(it.block.records_from(it.next_off), it.last_key) matches Some((_, key, _))
    &&& key.len() > 0
    &&& !rec.decodable()
}

/// A step that yields a record moves forward and stays within the records.
pub proof fn lemma_block_step_advances(it: BlockIterView, rec: RecordView)
    requires
        it.block.wf(),
    ensures
        spec_block_next(it, rec).result == Ok::<bool, Error>(true) ==> it.next_off < spec_block_next(it, rec).next_off
            <= it.block.restart_off,
        spec_block_next(it, rec).result != Ok::<bool, Error>(true) ==> spec_block_next(it, rec).next_off
            == it.next_off,
{
    if it.next_off < it.block.restart_off {
        let data = it.block.records_from(it.next_off);
        lemma_decode_key_len(data, it.last_key);
        if let Some((extra, key, n)) = spec_decode_key(data, it.last_key) {
            lemma_record_decode_len(rec, key, data.subrange(n, data.len() as int), extra, it.block.hash_size);
        }
    }
}

/// Where `BlockIter::seek_key` leaves the iterator and what it returns: it
/// stops before the first record whose key is not less than `want`, at the
/// end of the records, or where a record fails to decode, the iterator then
/// being where it was before that record.
#[verifier::opaque]
pub open spec fn spec_seek_key(it: BlockIterView, want: Seq<u8>) -> (BlockIterView, Result<(), Error>)
    decreases it.block.restart_off - it.next_off,
{
    match it.block.block_type {
        None => (it, Ok(())),
        Some(t) => {
            let step = spec_block_next(it, spec_for_search(t, Seq::empty()));
            match step.result {
                Err(e) => (it, Err(e)),
                Ok(false) => (it, Ok(())),
                Ok(true) => if !it.block.wf() || lex_order(step.last_key, want) != KeyOrder::Less {
                    (it, Ok(()))
                } else {
                    proof {
                        lemma_block_step_advances(it, spec_for_search(t, Seq::empty()));
                    }
                    spec_seek_key(
                        BlockIterView { block: it.block, next_off: step.next_off, last_key: step.last_key },
                        want,
                    )
                },
            }
        },
    }
}

/// A step reads the same key with any record of the same decodable kind,
/// and ends alike; the record it yields is keyed by the key it read.
pub proof fn lemma_block_next_kind(it: BlockIterView, r1: RecordView, r2: RecordView)
    requires
        r1.record_type() == r2.record_type(),
        r1.decodable(),
    ensures
        spec_block_next(it, r1).result == spec_block_next(it, r2).result,
        spec_block_next(it, r1).last_key == spec_block_next(it, r2).last_key,
        spec_block_next(it, r1).next_off == spec_block_next(it, r2).next_off,
        spec_block_next(it, r1).result == Ok::<bool, Error>(true) ==> spec_block_next(it, r1).rec.key()
            == spec_block_next(it, r1).last_key && spec_block_next(it, r1).rec == spec_block_next(it, r2).rec,
{
}

/// Where `spec_seek_key` leaves the iterator: on the same block.
pub proof fn lemma_seek_key_block(it: BlockIterView, want: Seq<u8>)
    ensures
        spec_seek_key(it, want).0.block == it.block,
    decreases it.block.restart_off - it.next_off,
{
    reveal(spec_seek_key);
    if let Some(t) = it.block.block_type {
        let step = spec_block_next(it, spec_for_search(t, Seq::empty()));
        if step.result == Ok::<bool, Error>(true) && it.block.wf() && lex_order(step.last_key, want)
            == KeyOrder::Less {
            lemma_block_step_advances(it, spec_for_search(t, Seq::empty()));
            lemma_seek_key_block(
                BlockIterView { block: it.block, next_off: step.next_off, last_key: step.last_key },
                want,
            );
        }
    }
}

/// Law: after a seek in a block succeeds, the record that `next` reads
/// there, if any, has a key not less than the key sought.
pub proof fn lemma_seek_key_then_next(it: BlockIterView, want: Seq<u8>, rec: RecordView)
    requires
        it.block.wf(),
        it.block.block_type == Some(rec.record_type()),
        rec.decodable(),
        spec_seek_key(it, want).1 is Ok,
    ensures
        spec_block_next(spec_seek_key(it, want).0, rec).result == Ok::<bool, Error>(true) ==> lex_order(
            spec_block_next(spec_seek_key(it, want).0, rec).last_key,
            want,
        ) != KeyOrder::Less,
    decreases it.block.restart_off - it.next_off,
{
    reveal(spec_seek_key);
    let t = rec.record_type();
    let fs = spec_for_search(t, Seq::empty());
    lemma_block_next_kind(it, rec, fs);
    let step = spec_block_next(it, fs);
    if step.result == Ok::<bool, Error>(true) && lex_order(step.last_key, want) == KeyOrder::Less {
        lemma_block_step_advances(it, fs);
        lemma_seek_key_then_next(
            BlockIterView { block: it.block, next_off: step.next_off, last_key: step.last_key },
            want,
            rec,
        );
    }
}

/// The keys of the records that a block iterator yields from `it` on, each
/// step reading into `rec`, until the records end or one fails to decode.
pub open spec fn block_keys(it: BlockIterView, rec: RecordView) -> Seq<Seq<u8>>
    decreases it.block.restart_off - it.next_off,
{
    let step = spec_block_next(it, rec);
    if step.result == Ok::<bool, Error>(true) && it.next_off < step.next_off <= it.block.restart_off {
        seq![step.last_key] + block_keys(
            BlockIterView { block: it.block, next_off: step.next_off, last_key: step.last_key },
            rec,
        )
    } else {
        Seq::empty()
    }
}

/// Law: at the end of a block's records a step yields nothing and leaves
/// the iterator where it is, so every later step ends alike.
pub proof fn lemma_block_end_sticky(it: BlockIterView, rec: RecordView)
    requires
        spec_block_next(it, rec).result == Ok::<bool, Error>(false),
    ensures
        spec_block_next(it, rec).next_off == it.next_off,
        spec_block_next(it, rec).last_key == it.last_key,
        spec_block_next(it, rec).rec == rec,
        spec_block_next(
            BlockIterView { block: it.block, next_off: spec_block_next(it, rec).next_off, last_key: spec_block_next(it, rec).last_key },
            rec,
        ).result == Ok::<bool, Error>(false),
{
    assert(BlockIterView { block: it.block, next_off: it.next_off, last_key: it.last_key } == it);
}

/// Law: a block iterator yields no more records than there are bytes left
/// before the restart table.
pub proof fn lemma_block_keys_bound(it: BlockIterView, rec: RecordView)
    requires
        it.next_off <= it.block.restart_off,
    ensures
        block_keys(it, rec).len() <= it.block.restart_off - it.next_off,
    decreases it.block.restart_off - it.next_off,
{
    let step = spec_block_next(it, rec);
    if step.result == Ok::<bool, Error>(true) && it.next_off < step.next_off <= it.block.restart_off {
        lemma_block_keys_bound(
            BlockIterView { block: it.block, next_off: step.next_off, last_key: step.last_key },
            rec,
        );
    }
}

/// Law: from its first record on, a block iterator yields at most
/// `restart_off - header_off - 4` records, each further on in the block,
/// before it ends or fails; none where the records would start past the
/// restart table.
#[verifier::spinoff_prover]
pub proof fn lemma_block_record_count(b: BlockView, rec: RecordView)
    requires
        b.wf(),
    ensures
        ({
            let n = block_keys(BlockIterView { block: b, next_off: b.first_off(), last_key: Seq::empty() }, rec).len();
            &&& b.first_off() <= b.restart_off ==> n <= b.restart_off - b.header_off - 4
            &&& b.first_off() > b.restart_off ==> n == 0
        }),
{
    let it = BlockIterView { block: b, next_off: b.first_off(), last_key: Seq::empty() };
    if b.first_off() <= b.restart_off {
        lemma_block_keys_bound(it, rec);
    } else {
        lemma_block_keys_past_end(it, rec);
    }
}

proof fn lemma_block_keys_past_end(it: BlockIterView, rec: RecordView)
    requires
        it.next_off >= it.block.restart_off,
    ensures
        block_keys(it, rec).len() == 0,
{
    let step = spec_block_next(it, rec);
    assert(step.result == Ok::<bool, Error>(false));
}

/// Whether the keys `ks` strictly increase.
pub open spec fn strictly_sorted(ks: Seq<Seq<u8>>) -> bool {
    forall|i: int, j: int| 0 <= i < j < ks.len() ==> lex_order(#[trigger] ks[i], #[trigger] ks[j]) == KeyOrder::Less
}

/// Law: where the keys a block yields from `it` on strictly increase and
/// include `want`, a seek to `want` succeeds and the record that `next`
/// reads then is the one keyed `want`.
pub proof fn lemma_seek_key_finds(it: BlockIterView, want: Seq<u8>, rec: RecordView)
    requires
        it.block.wf(),
        it.block.block_type == Some(rec.record_type()),
        rec.decodable(),
        strictly_sorted(block_keys(it, rec)),
        block_keys(it, rec).contains(want),
    ensures
        spec_seek_key(it, want).1 is Ok,
        spec_block_next(spec_seek_key(it, want).0, rec).result == Ok::<bool, Error>(true),
        spec_block_next(spec_seek_key(it, want).0, rec).last_key == want,
    decreases it.block.restart_off - it.next_off,
{
    reveal(spec_seek_key);
    let t = rec.record_type();
    let fs = spec_for_search(t, Seq::empty());
    lemma_block_next_kind(it, rec, fs);
    lemma_block_step_advances(it, rec);
    let step = spec_block_next(it, rec);
    let ks = block_keys(it, rec);
    let it1 = BlockIterView { block: it.block, next_off: step.next_off, last_key: step.last_key };
    let rest = block_keys(it1, rec);
    assert(ks == seq![step.last_key] + rest);
    let j = choose|j: int| 0 <= j < ks.len() && ks[j] == want;
    if lex_order(step.last_key, want) == KeyOrder::Less {
        lemma_lex_equal(step.last_key, want);
        assert(j > 0);
        assert(rest[j - 1] == want);
        assert(strictly_sorted(rest)) by {
            assert forall|a: int, b: int| 0 <= a < b < rest.len() implies lex_order(
                #[trigger] rest[a],
                #[trigger] rest[b],
            ) == KeyOrder::Less by {
                assert(rest[a] == ks[a + 1]);
                assert(rest[b] == ks[b + 1]);
            }
        }
        lemma_seek_key_finds(it1, want, rec);
    } else {
        if j > 0 {
            assert(lex_order(ks[0], ks[j]) == KeyOrder::Less);
        }
        lemma_lex_equal(step.last_key, want);
    }
}

/// A block whose first key decodes yields that key first, if it yields a
/// record.
pub proof fn lemma_first_key_first(b: BlockView, rec: RecordView)
    requires
        b.wf(),
        spec_first_key(b) is Ok,
    ensures
        spec_block_next(BlockIterView { block: b, next_off: b.first_off(), last_key: Seq::empty() }, rec).result
            != Ok::<bool, Error>(false),
        spec_block_next(BlockIterView { block: b, next_off: b.first_off(), last_key: Seq::empty() }, rec).result
            == Ok::<bool, Error>(true) ==> spec_block_next(
            BlockIterView { block: b, next_off: b.first_off(), last_key: Seq::empty() },
            rec,
        ).last_key == spec_first_key(b).unwrap(),
{
    let off = b.first_off();
    if off >= b.restart_off {
        assert(spec_keylen(Seq::<u8>::empty()) is None) by {
            assert(leb64(Seq::<u8>::empty()) is None);
        }
        if off == b.restart_off {
            assert(b.records_from(off) =~= Seq::<u8>::empty());
        }
    }
}

/// Iterator over the records of a block.
pub struct BlockIter {
    pub block: Block,
    /// Offset from the start of the block to the next record to read
    pub next_off: u32,
    /// Key for the last entry we read
    pub last_key: Vec<u8>,
    /// Re-used scratch buffer
    pub scratch: Vec<u8>,
}

impl View for BlockIter {
    type V = BlockIterView;

    open spec fn view(&self) -> BlockIterView {
        BlockIterView { block: self.block@, next_off: self.next_off, last_key: self.last_key@ }
    }
}

impl BlockIter {
    /// An iterator over an empty block.
    pub fn empty() -> (r: Self)
        ensures
            r@.block == empty_block(),
            r@.next_off == 0,
            r@.last_key == Seq::<u8>::empty(),
    {
        Self { block: Block::empty(), next_off: 0, last_key: Vec::new(), scratch: Vec::new() }
    }

    /// An iterator positioned at the first record of `block`.
    pub fn from_block(block: Block) -> (r: Self)
        requires
            block@.wf(),
        ensures
            r@ == (BlockIterView { block: block@, next_off: block@.first_off(), last_key: Seq::empty() }),
    {
        let next_off = block.header_off + 4;
        Self { block, next_off, last_key: Vec::new(), scratch: Vec::new() }
    }

    /// Position the iterator at the first record again.
    pub fn seek_start(&mut self)
        requires
            old(self)@.block.wf(),
        ensures
            final(self)@ == (BlockIterView { next_off: old(self)@.block.first_off(), ..old(self)@ }),
    {
        self.next_off = self.block.header_off + 4;
    }

    /// Get the next record for this iterator, decoding it into `rec`, which
    /// holds the last record returned or an empty record of the wanted type.
    pub fn next(&mut self, rec: &mut Record) -> (r: Result<bool, Error>)
        requires
            old(self)@.block.wf(),
            !block_next_panics(old(self)@, old(rec)@),
        ensures
            ({
                let step = spec_block_next(old(self)@, old(rec)@);
                &&& final(self)@ == (BlockIterView {
                    block: old(self)@.block,
                    next_off: step.next_off,
                    last_key: step.last_key,
                })
                &&& final(rec)@ == step.rec
                &&& r == step.result
            }),
    {
        if self.next_off >= self.block.restart_off {
            return Ok(false);
        }
        let start = self.next_off as usize;
        let end = self.block.restart_off as usize;
        let data = &self.block.block_data[start..end];
        let (extra, n) = decode_key(data, &mut self.last_key)?;
        if self.last_key.len() == 0 {
            return Err(Error::FormatError);
        }
        let rest = &data[n..data.len()];
        let m = Record::decode(rec, self.last_key.as_slice(), rest, extra, self.block.hash_size, &mut self.scratch)?;
        self.next_off = self.next_off + (n + m) as u32;
        Ok(true)
    }

    /// Position the iterator before the first record whose key is not less
    /// than `want` (see `spec_seek_key`).
    pub fn seek_key(&mut self, want: &[u8]) -> (r: Result<(), Error>)
        requires
            old(self)@.block.wf(),
            old(self)@.block.block_type != Some(BlockType::Log),
            old(self)@.block.block_type != Some(BlockType::Obj),
        ensures
            (final(self)@, r) == spec_seek_key(old(self)@, want@),
            final(self)@.block == old(self)@.block,
    {
        let typ = match self.block.block_type {
            Some(t) => t,
            None => {
                proof {
                    reveal(spec_seek_key);
                }
                return Ok(());
            },
        };
        loop
            invariant
                self@.block == old(self)@.block,
                self@.block.wf(),
                self@.block.block_type == Some(typ),
                typ == BlockType::Ref || typ == BlockType::Index,
                spec_seek_key(self@, want@) == spec_seek_key(old(self)@, want@),
            decreases self@.block.restart_off - self@.next_off,
        {
            let saved_off = self.next_off;
            let saved_key = copy_bytes(self.last_key.as_slice());
            let ghost before = self@;
            let mut rec = Record::for_search(typ, None);
            proof {
                lemma_block_step_advances(self@, rec@);
                reveal(spec_seek_key);
            }
            match self.next(&mut rec) {
                Err(e) => {
                    self.next_off = saved_off;
                    self.last_key = saved_key;
                    return Err(e);
                },
                Ok(false) => return Ok(()),
                Ok(true) => {},
            }
            if compare_bytes(self.last_key.as_slice(), want) != KeyOrder::Less {
                self.next_off = saved_off;
                self.last_key = saved_key;
                proof {
                    assert(self@ == before);
                }
                return Ok(());
            }
        }
    }
}

} // verus!
