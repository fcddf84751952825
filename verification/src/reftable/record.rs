//! The different kinds of records in reftables
use super::keys::{compare_bytes, record_order, KeyOrder};
use super::{lemma_leb64_len, lemma_decode_string_len, decode_string, leb64, read_varint, copy_bytes, spec_decode_string, BlockType, Error};
use vstd::prelude::*;

verus! {

/// The kind of value a ref record carries.
#[derive(Clone, Copy, Debug, PartialEq, Eq, Structural)]
pub enum RefValueType {
    /// Tombstone to hide deletions from earlier tables
    Deletion,
    /// A simple ref
    Val1,
    /// A tag plus its peeled hash
    Val2,
    /// A symbolic reference
    Symref,
}

/// The value type that the three extra bits of a ref record's key select.
pub open spec fn ref_value_type_of(value: u8) -> Result<RefValueType, Error> {
    if value == 0 {
        Ok(RefValueType::Deletion)
    } else if value == 1 {
        Ok(RefValueType::Val1)
    } else if value == 2 {
        Ok(RefValueType::Val2)
    } else if value == 3 {
        Ok(RefValueType::Symref)
    } else {
        Err(Error::FormatError)
    }
}

impl RefValueType {
    /// The value type for `value`, or a format error for values above 3.
    pub fn try_from_byte(value: u8) -> (r: Result<RefValueType, Error>)
        ensures
            r == ref_value_type_of(value),
    {
        match value {
            0 => Ok(RefValueType::Deletion),
            1 => Ok(RefValueType::Val1),
            2 => Ok(RefValueType::Val2),
            3 => Ok(RefValueType::Symref),
            _ => Err(Error::FormatError),
        }
    }
}

/// The value of a ref record: object ids are held as their raw hash bytes.
#[derive(Clone, Debug, PartialEq, Eq)]
pub enum RefValue {
    Val1(Vec<u8>),
    Val2(Vec<u8>, Vec<u8>),
    Symref(Vec<u8>),
}

/// The mathematical value of a [`RefValue`].
pub enum RefValueView {
    Val1(Seq<u8>),
    Val2(Seq<u8>, Seq<u8>),
    Symref(Seq<u8>),
}

impl View for RefValue {
    type V = RefValueView;

    open spec fn view(&self) -> RefValueView {
        match self {
            RefValue::Val1(a) => RefValueView::Val1(a@),
            RefValue::Val2(a, b) => RefValueView::Val2(a@, b@),
            RefValue::Symref(t) => RefValueView::Symref(t@),
        }
    }
}

/// The view of an optional ref value.
pub open spec fn opt_value_view(v: Option<RefValue>) -> Option<RefValueView> {
    match v {
        Some(x) => Some(x@),
        None => None,
    }
}

/// A record that maps a ref name to its value.
#[derive(Clone, Debug, PartialEq, Eq)]
pub struct RefRecord {
    pub refname: Vec<u8>,
    pub update_index: u64,
    pub value_type: RefValueType,
    pub value: Option<RefValue>,
}

/// The mathematical value of a [`RefRecord`].
pub struct RefRecordView {
    pub refname: Seq<u8>,
    pub update_index: u64,
    pub value_type: RefValueType,
    pub value: Option<RefValueView>,
}

impl View for RefRecord {
    type V = RefRecordView;

    open spec fn view(&self) -> RefRecordView {
        RefRecordView {
            refname: self.refname@,
            update_index: self.update_index,
            value_type: self.value_type,
            value: opt_value_view(self.value),
        }
    }
}

/// The ref record at the start of `s` with name `key` and value type bits
/// `val_type`, and the bytes it takes: the update index, then an object id,
/// two object ids, a string or nothing, by value type.
pub open spec fn spec_ref_decode(key: Seq<u8>, s: Seq<u8>, val_type: u8, hash_size: u32) -> Result<
    (RefRecordView, int),
    Error,
> {
    match leb64(s) {
        None => Err(Error::FormatError),
        Some((update_index, n)) => match ref_value_type_of(val_type) {
            Err(e) => Err(e),
            Ok(vt) => {
                let rest = s.subrange(n, s.len() as int);
                let hs = hash_size as int;
                let value: Result<(Option<RefValueView>, int), Error> = match vt {
                    RefValueType::Val1 => if rest.len() < hs {
                        Err(Error::FormatError)
                    } else {
                        Ok((Some(RefValueView::Val1(rest.subrange(0, hs))), hs))
                    },
                    RefValueType::Val2 => if rest.len() < 2 * hs {
                        Err(Error::FormatError)
                    } else {
                        Ok(
                            (
                                Some(
                                    RefValueView::Val2(
                                        rest.subrange(0, hs),
                                        rest.subrange(hs, 2 * hs),
                                    ),
                                ),
                                2 * hs,
                            ),
                        )
                    },
                    RefValueType::Symref => match spec_decode_string(rest) {
                        None => Err(Error::FormatError),
                        Some((t, m)) => Ok((Some(RefValueView::Symref(t)), m)),
                    },
                    RefValueType::Deletion => Ok((None, 0)),
                };
                match value {
                    Err(e) => Err(e),
                    Ok((v, m)) => Ok(
                        (
                            RefRecordView {
                                refname: key,
                                update_index,
                                value_type: vt,
                                value: v,
                            },
                            n + m,
                        ),
                    ),
                }
            },
        },
    }
}

impl RefRecord {
    /// A record to search for `refname` (the empty name if none is given).
    pub fn for_search(refname: Option<Vec<u8>>) -> (r: Self)
        ensures
            r@ == (RefRecordView {
                refname: match refname {
                    Some(k) => k@,
                    None => Seq::empty(),
                },
                update_index: 0,
                value_type: RefValueType::Deletion,
                value: None,
            }),
    {
        let refname = match refname {
            Some(k) => k,
            None => Vec::new(),
        };
        Self { refname, update_index: 0, value_type: RefValueType::Deletion, value: None }
    }

    /// Decode the ref record at the start of `b` with name `key` into `rec`,
    /// returning the bytes taken. On error `rec` keeps its fields but for its
    /// name, which is left empty.
    pub fn decode(
        rec: &mut Self,
        key: &[u8],
        b: &[u8],
        val_type: u8,
        hash_size: u32,
        _scratch: &mut Vec<u8>,
    ) -> (r: Result<usize, Error>)
        ensures
            match r {
                Ok(n) => spec_ref_decode(key@, b@, val_type, hash_size) == Ok::<_, Error>((final(rec)@, n as int))
                    && n <= b@.len(),
                Err(e) => spec_ref_decode(key@, b@, val_type, hash_size) == Err::<(RefRecordView, int), Error>(e)
                    && final(rec)@ == (RefRecordView { refname: Seq::empty(), ..old(rec)@ }),
            },
    {
        let mut refname = Vec::new();
        std::mem::swap(&mut refname, &mut rec.refname);

        let (update_index, n) = read_varint(b)?;
        let value_type = RefValueType::try_from_byte(val_type)?;
        let rest = &b[n..b.len()];
        let hs = hash_size as usize;
        let (value, m) = match value_type {
            RefValueType::Val1 => {
                if (rest.len() as u64) < hash_size as u64 {
                    return Err(Error::FormatError);
                }
                let val = copy_bytes(&rest[0..hs]);
                (Some(RefValue::Val1(val)), hs)
            },
            RefValueType::Val2 => {
                if (rest.len() as u64) < 2 * (hash_size as u64) {
                    return Err(Error::FormatError);
                }
                let val1 = copy_bytes(&rest[0..hs]);
                let val2 = copy_bytes(&rest[hs..2 * hs]);
                (Some(RefValue::Val2(val1, val2)), 2 * hs)
            },
            RefValueType::Symref => {
                let (target, m) = decode_string(rest)?;
                (Some(RefValue::Symref(target)), m)
            },
            RefValueType::Deletion => (None, 0),
        };

        refname.clear();
        refname.extend_from_slice(key);
        proof {
            assert(refname@ =~= key@);
        }
        *rec = Self { refname, update_index, value_type, value };
        Ok(n + m)
    }

    /// Whether this record is a tombstone.
    pub fn is_deletion(&self) -> (r: bool)
        ensures
            r == (self.value_type == RefValueType::Deletion),
    {
        matches!(self.value_type, RefValueType::Deletion)
    }
}

/// The kind of a log record.
#[derive(Clone, Copy, Debug, PartialEq, Eq, Structural)]
pub enum LogValueType {
    /// Tombstone to hide deletions from earlier tables
    Deletion,
    /// A simple update
    Update,
}

/// A reflog entry.
#[derive(Clone, Debug, PartialEq, Eq)]
pub struct LogRecord {
    refname: Vec<u8>,
    value_type: LogValueType,
    update_index: u64,
    new_hash: Vec<u8>,
    old_hash: Vec<u8>,
    name: Vec<u8>,
    email: Vec<u8>,
    time: u64,
    tz_offset: u16,
    message: Vec<u8>,
}

/// The mathematical value of a [`LogRecord`].
pub struct LogRecordView {
    pub refname: Seq<u8>,
    pub value_type: LogValueType,
    pub update_index: u64,
    pub new_hash: Seq<u8>,
    pub old_hash: Seq<u8>,
    pub name: Seq<u8>,
    pub email: Seq<u8>,
    pub time: u64,
    pub tz_offset: u16,
    pub message: Seq<u8>,
}

impl View for LogRecord {
    type V = LogRecordView;

    closed spec fn view(&self) -> LogRecordView {
        LogRecordView {
            refname: self.refname@,
            value_type: self.value_type,
            update_index: self.update_index,
            new_hash: self.new_hash@,
            old_hash: self.old_hash@,
            name: self.name@,
            email: self.email@,
            time: self.time,
            tz_offset: self.tz_offset,
            message: self.message@,
        }
    }
}

/// The null object id of SHA-1: twenty zero bytes.
pub open spec fn null_sha1() -> Seq<u8> {
    Seq::new(20, |i: int| 0u8)
}

impl LogRecord {
    /// A log record to search for `refname`, with null hashes.
    pub fn for_search(refname: Option<Vec<u8>>) -> (r: Self)
        ensures
            r@ == (LogRecordView {
                refname: match refname {
                    Some(k) => k@,
                    None => Seq::empty(),
                },
                value_type: LogValueType::Deletion,
                update_index: 0,
                new_hash: null_sha1(),
                old_hash: null_sha1(),
                name: Seq::empty(),
                email: Seq::empty(),
                time: 0,
                tz_offset: 0,
                message: Seq::empty(),
            }),
    {
        let refname = match refname {
            Some(k) => k,
            None => Vec::new(),
        };
        let new_hash = vec![0u8; 20];
        let old_hash = vec![0u8; 20];
        proof {
            assert(new_hash@ =~= null_sha1());
            assert(old_hash@ =~= null_sha1());
        }
        Self {
            refname,
            value_type: LogValueType::Deletion,
            update_index: 0,
            new_hash,
            old_hash,
            name: Vec::new(),
            email: Vec::new(),
            time: 0,
            tz_offset: 0,
            message: Vec::new(),
        }
    }

    /// Compare by name, then by update index in reverse.
    pub fn compare(&self, other: &Self) -> (r: KeyOrder)
        ensures
            Some(r) == record_order(RecordView::Log(self@), RecordView::Log(other@)),
    {
        let o = compare_bytes(self.refname.as_slice(), other.refname.as_slice());
        if o != KeyOrder::Equal {
            return o;
        }
        // The update index is compared in reverse: newer entries come first.
        if other.update_index < self.update_index {
            KeyOrder::Less
        } else if other.update_index > self.update_index {
            KeyOrder::Greater
        } else {
            KeyOrder::Equal
        }
    }

    /// Whether this record is a tombstone.
    pub fn is_deletion(&self) -> (r: bool)
        ensures
            r == (self@.value_type == LogValueType::Deletion),
    {
        matches!(self.value_type, LogValueType::Deletion)
    }
}

/// A record that maps an object id prefix to the blocks that refer to it.
#[derive(Clone, Debug, PartialEq, Eq)]
pub struct ObjRecord {
    /// Leading bytes of the object ID
    hash_prefix: Vec<u8>,
    /// A vector of file offsets
    offsets: Vec<u64>,
}

/// The mathematical value of an [`ObjRecord`].
pub struct ObjRecordView {
    pub hash_prefix: Seq<u8>,
    pub offsets: Seq<u64>,
}

impl View for ObjRecord {
    type V = ObjRecordView;

    closed spec fn view(&self) -> ObjRecordView {
        ObjRecordView { hash_prefix: self.hash_prefix@, offsets: self.offsets@ }
    }
}

impl ObjRecord {
    /// An object record to search for `hash_prefix`.
    pub fn for_search(hash_prefix: Option<Vec<u8>>) -> (r: Self)
        ensures
            r@ == (ObjRecordView {
                hash_prefix: match hash_prefix {
                    Some(k) => k@,
                    None => Seq::empty(),
                },
                offsets: Seq::empty(),
            }),
    {
        let hash_prefix = match hash_prefix {
            Some(k) => k,
            None => Vec::new(),
        };
        Self { hash_prefix, offsets: Vec::new() }
    }

    /// Compare by hash prefix.
    pub fn compare(&self, other: &Self) -> (r: KeyOrder)
        ensures
            Some(r) == record_order(RecordView::Obj(self@), RecordView::Obj(other@)),
    {
        compare_bytes(self.hash_prefix.as_slice(), other.hash_prefix.as_slice())
    }

    /// Object records are never tombstones.
    pub fn is_deletion(&self) -> (r: bool)
        ensures
            !r,
    {
        false
    }
}

/// A record of an index block: the last key of a block and its offset.
#[derive(Clone, Debug, PartialEq, Eq)]
pub struct IndexRecord {
    /// Offset of block
    pub offset: u64,
    /// Last key of the block
    pub last_key: Vec<u8>,
}

/// The mathematical value of an [`IndexRecord`].
pub struct IndexRecordView {
    pub offset: u64,
    pub last_key: Seq<u8>,
}

impl View for IndexRecord {
    type V = IndexRecordView;

    open spec fn view(&self) -> IndexRecordView {
        IndexRecordView { offset: self.offset, last_key: self.last_key@ }
    }
}

impl IndexRecord {
    /// An index record to search for `last_key`.
    pub fn for_search(last_key: Option<Vec<u8>>) -> (r: Self)
        ensures
            r@ == (IndexRecordView {
                offset: 0,
                last_key: match last_key {
                    Some(k) => k@,
                    None => Seq::empty(),
                },
            }),
    {
        let last_key = match last_key {
            Some(k) => k,
            None => Vec::new(),
        };
        Self { offset: 0, last_key }
    }

    /// Decode the index record at the start of `b` with key `key` into
    /// `rec`, returning the bytes taken. The key is stored before the offset
    /// is read, so it is kept on error too.
    pub fn decode(
        rec: &mut Self,
        key: &[u8],
        b: &[u8],
        _val_type: u8,
        _hash_size: u32,
        _scratch: &mut Vec<u8>,
    ) -> (r: Result<usize, Error>)
        ensures
            final(rec).last_key@ == key@,
            match r {
                Ok(n) => leb64(b@) == Some((final(rec).offset, n as int)) && n <= b@.len(),
                Err(e) => e == Error::FormatError && leb64(b@) is None && final(rec).offset
                    == old(rec).offset,
            },
    {
        rec.last_key.clear();
        rec.last_key.extend_from_slice(key);
        proof {
            assert(rec.last_key@ =~= key@);
        }
        let (offset, n) = read_varint(b)?;
        rec.offset = offset;
        Ok(n)
    }

    /// Index records are never tombstones.
    pub fn is_deletion(&self) -> (r: bool)
        ensures
            !r,
    {
        false
    }
}

/// A record from a table
///
/// We use an enum instead of a trait plus structs so we don't have to box every
/// record.
#[derive(Clone, Debug, PartialEq, Eq)]
pub enum Record {
    Ref(RefRecord),
    Log(LogRecord),
    Obj(ObjRecord),
    Index(IndexRecord),
}

/// The mathematical value of a [`Record`].
pub enum RecordView {
    Ref(RefRecordView),
    Log(LogRecordView),
    Obj(ObjRecordView),
    Index(IndexRecordView),
}

impl View for Record {
    type V = RecordView;

    open spec fn view(&self) -> RecordView {
        match self {
            Record::Ref(r) => RecordView::Ref(r@),
            Record::Log(r) => RecordView::Log(r@),
            Record::Obj(r) => RecordView::Obj(r@),
            Record::Index(r) => RecordView::Index(r@),
        }
    }
}

impl RecordView {
    /// The block type this kind of record lives in.
    pub open spec fn record_type(self) -> BlockType {
        match self {
            RecordView::Ref(_) => BlockType::Ref,
            RecordView::Log(_) => BlockType::Log,
            RecordView::Obj(_) => BlockType::Obj,
            RecordView::Index(_) => BlockType::Index,
        }
    }

    /// Whether records of this kind can be decoded: only ref and index
    /// records are.
    pub open spec fn decodable(self) -> bool {
        self is Ref || self is Index
    }

    /// The key this record is ordered and found by.
    pub open spec fn key(self) -> Seq<u8> {
        match self {
            RecordView::Ref(r) => r.refname,
            RecordView::Log(r) => r.refname,
            RecordView::Obj(r) => r.hash_prefix,
            RecordView::Index(r) => r.last_key,
        }
    }

    /// Whether this record hides deletions from earlier tables.
    pub open spec fn is_deletion(self) -> bool {
        match self {
            RecordView::Ref(r) => r.value_type == RefValueType::Deletion,
            RecordView::Log(r) => r.value_type == LogValueType::Deletion,
            _ => false,
        }
    }
}

/// What decoding a record at the start of `s` with key `key` makes of the
/// record `old`, and its result: the bytes taken or the error. Ref records
/// lose their name on error; index records keep the new key on error.
pub open spec fn spec_record_decode(old: RecordView, key: Seq<u8>, s: Seq<u8>, extra: u8, hash_size: u32) -> (
    RecordView,
    Result<int, Error>,
) {
    match old {
        RecordView::Ref(r) => match spec_ref_decode(key, s, extra, hash_size) {
            Ok((v, n)) => (RecordView::Ref(v), Ok(n)),
            Err(e) => (RecordView::Ref(RefRecordView { refname: Seq::empty(), ..r }), Err(e)),
        },
        RecordView::Index(r) => match leb64(s) {
            Some((off, n)) => (RecordView::Index(IndexRecordView { offset: off, last_key: key }), Ok(n)),
            None => (
                RecordView::Index(IndexRecordView { offset: r.offset, last_key: key }),
                Err(Error::FormatError),
            ),
        },
        _ => (old, Err(Error::Api)),
    }
}

/// A decoded record takes no more bytes than there are.
pub proof fn lemma_record_decode_len(old: RecordView, key: Seq<u8>, s: Seq<u8>, extra: u8, hash_size: u32)
    ensures
        spec_record_decode(old, key, s, extra, hash_size).1 matches Ok(m) ==> 0 <= m <= s.len(),
{
    lemma_leb64_len(s);
    if let Some((u, n)) = leb64(s) {
        lemma_decode_string_len(s.subrange(n, s.len() as int));
    }
}

/// The record that `Record::for_search` makes for `typ` and `key`.
pub open spec fn spec_for_search(typ: BlockType, key: Seq<u8>) -> RecordView {
    match typ {
        BlockType::Ref => RecordView::Ref(
            RefRecordView {
                refname: key,
                update_index: 0,
                value_type: RefValueType::Deletion,
                value: None,
            },
        ),
        BlockType::Log => RecordView::Log(
            LogRecordView {
                refname: key,
                value_type: LogValueType::Deletion,
                update_index: 0,
                new_hash: null_sha1(),
                old_hash: null_sha1(),
                name: Seq::empty(),
                email: Seq::empty(),
                time: 0,
                tz_offset: 0,
                message: Seq::empty(),
            },
        ),
        BlockType::Obj => RecordView::Obj(ObjRecordView { hash_prefix: key, offsets: Seq::empty() }),
        BlockType::Index => RecordView::Index(IndexRecordView { offset: 0, last_key: key }),
    }
}

impl Record {
    /// An empty record of type `typ` to search for `key`.
    pub fn for_search(typ: BlockType, key: Option<Vec<u8>>) -> (r: Self)
        ensures
            r@ == spec_for_search(
                typ,
                match key {
                    Some(k) => k@,
                    None => Seq::empty(),
                },
            ),
    {
        match typ {
            BlockType::Ref => Record::Ref(RefRecord::for_search(key)),
            BlockType::Log => Record::Log(LogRecord::for_search(key)),
            BlockType::Obj => Record::Obj(ObjRecord::for_search(key)),
            BlockType::Index => Record::Index(IndexRecord::for_search(key)),
        }
    }

    /// The block type this record lives in.
    pub fn record_type(&self) -> (r: BlockType)
        ensures
            r == self@.record_type(),
    {
        match self {
            Self::Ref(_) => BlockType::Ref,
            Self::Log(_) => BlockType::Log,
            Self::Obj(_) => BlockType::Obj,
            Self::Index(_) => BlockType::Index,
        }
    }

    /// A copy of the key of a ref or index record.
    pub fn clone_key(&self) -> (r: Vec<u8>)
        requires
            self@.decodable(),
        ensures
            r@ == self@.key(),
    {
        match self {
            Self::Ref(RefRecord { refname, .. }) => copy_bytes(refname.as_slice()),
            Self::Index(IndexRecord { last_key, .. }) => copy_bytes(last_key.as_slice()),
            _ => Vec::new(),
        }
    }

    /// Decode the record given by the type in `rec`.
    ///
    /// Replacing the record in-place allows us to reduce allocations.
    pub fn decode(
        rec: &mut Self,
        key: &[u8],
        b: &[u8],
        extra: u8,
        hash_size: u32,
        scratch: &mut Vec<u8>,
    ) -> (r: Result<usize, Error>)
        requires
            old(rec)@.decodable(),
        ensures
            spec_record_decode(old(rec)@, key@, b@, extra, hash_size) == (final(rec)@, match r {
                Ok(n) => Ok::<int, Error>(n as int),
                Err(e) => Err(e),
            }),
            r matches Ok(n) ==> n <= b@.len(),
    {
        match rec {
            Self::Ref(rec) => RefRecord::decode(rec, key, b, extra, hash_size, scratch),
            Self::Index(rec) => IndexRecord::decode(rec, key, b, extra, hash_size, scratch),
            _ => Err(Error::Api),
        }
    }

    /// Whether this record hides deletions from earlier tables.
    pub fn is_deletion(&self) -> (r: bool)
        ensures
            r == self@.is_deletion(),
    {
        match self {
            Self::Ref(rec) => rec.is_deletion(),
            Self::Log(rec) => rec.is_deletion(),
            Self::Obj(rec) => rec.is_deletion(),
            Self::Index(rec) => rec.is_deletion(),
        }
    }
}

} // verus!
