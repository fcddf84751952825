use reftable::reftable::block::BlockIter;
use reftable::reftable::blocksource::BufferSource;
use reftable::reftable::keys::{compare_bytes, compare_records, sort_byte_strings, KeyOrder};
use reftable::reftable::merged::{MergedIter, MergedTable};
use reftable::reftable::record::{
    IndexRecord, LogRecord, ObjRecord, Record, RefRecord, RefValue, RefValueType,
};
use reftable::reftable::table::{
    decode_footer, footer_size, get_be32, get_be64, hash_size, header_size, HashKind, Table, TableIter,
};
use reftable::reftable::{decode_key, decode_keylen, decode_string, get_be24, read_varint, BlockType, Error};

// This is from a fresh git repository with an unborn main branch
const INITIAL_REF_FILE: [u8; 124] = [
    0x52, 0x45, 0x46, 0x54, 0x01, 0x00, 0x10, 0x00, 0x00, 0x00, 0x00, 0x00, 0x00, 0x00, 0x00, 0x01, 0x00, 0x00,
    0x00, 0x00, 0x00, 0x00, 0x00, 0x01, 0x72, 0x00, 0x00, 0x38, 0x00, 0x23, 0x48, 0x45, 0x41, 0x44, 0x00, 0x0f,
    0x72, 0x65, 0x66, 0x73, 0x2f, 0x68, 0x65, 0x61, 0x64, 0x73, 0x2f, 0x6d, 0x61, 0x69, 0x6e, 0x00, 0x00, 0x1c,
    0x00, 0x01, 0x52, 0x45, 0x46, 0x54, 0x01, 0x00, 0x10, 0x00, 0x00, 0x00, 0x00, 0x00, 0x00, 0x00, 0x00, 0x01,
    0x00, 0x00, 0x00, 0x00, 0x00, 0x00, 0x00, 0x01, 0x00, 0x00, 0x00, 0x00, 0x00, 0x00, 0x00, 0x00, 0x00, 0x00,
    0x00, 0x00, 0x00, 0x00, 0x00, 0x00, 0x00, 0x00, 0x00, 0x00, 0x00, 0x00, 0x00, 0x00, 0x00, 0x00, 0x00, 0x00,
    0x00, 0x00, 0x00, 0x00, 0x00, 0x00, 0x00, 0x00, 0x00, 0x00, 0x00, 0x00, 0xb6, 0xbf, 0xf7, 0x8a,
];

fn initial_table() -> Table {
    let source = BufferSource::from_slice(&INITIAL_REF_FILE[..]);
    Table::new(source, "01-01-rand.ref".to_string()).expect("parsing")
}

#[test]
fn table_test_initial_table() {
    let source = BufferSource::from_slice(&INITIAL_REF_FILE[..]);
    let table = Table::new(source, "01-01-rand.ref".to_string()).expect("parsing");

    assert_eq!(1, table.version);
    assert_eq!(HashKind::Sha1, table.hash_id);
    assert_eq!(4096, table.block_size);
    assert_eq!(1, table.min_update_index);
    assert_eq!(1, table.max_update_index);

    let block = table
        .init_block(0, Some(BlockType::Ref))
        .expect("first ref block")
        .expect("first ref block");

    assert_eq!(header_size(table.version), block.header_off);
    assert_eq!(1, block.restart_count);
    assert_eq!(Some(BlockType::Ref), block.block_type);
    assert_eq!(56, block.full_block_size);

    let mut iter = BlockIter::from_block(block);
    let mut rec = Record::for_search(BlockType::Ref, None);
    let res = iter.next(&mut rec).expect("iterate once");
    assert!(res);

    let head = match &rec {
        Record::Ref(rec) => rec,
        _ => panic!("record is not a ref"),
    };

    assert_eq!(b"HEAD", head.refname.as_slice());
    assert_eq!(Some(RefValue::Symref(b"refs/heads/main".to_vec())), head.value);

    let res = iter.next(&mut rec).expect("no error on iterating to the end");
    assert!(!res);
}

#[test]
fn merged_test_initial_table() {
    let source = BufferSource::from_slice(&INITIAL_REF_FILE[..]);
    let table = Table::new(source, "01-01-rand.ref".to_string()).expect("parsing");
    let hash_id = table.hash_id;

    let tables = vec![table];
    let merged = MergedTable::new(tables, hash_id).expect("merged table creation");
    let mut iter = MergedIter::from_merged(&merged, BlockType::Ref);

    let mut rec = Record::for_search(BlockType::Ref, None);

    iter.seek(&rec).expect("finding the nil/first record");

    let res = iter.next(&mut rec).expect("iterate once");
    assert!(res);

    let head = match &rec {
        Record::Ref(rec) => rec,
        _ => panic!("record is not a ref"),
    };

    assert_eq!(b"HEAD", head.refname.as_slice());
    assert_eq!(Some(RefValue::Symref(b"refs/heads/main".to_vec())), head.value);

    let res = iter.next(&mut rec).expect("no error on iterating to the end");
    assert!(!res);
}

#[test]
fn block_type_bytes_round_trip() {
    for t in [BlockType::Log, BlockType::Index, BlockType::Ref, BlockType::Obj] {
        assert_eq!(Ok(t), BlockType::try_from_byte(t.to_byte()));
    }
    assert_eq!(b'r', BlockType::Ref.to_byte());
    assert_eq!(b'g', BlockType::Log.to_byte());
    assert_eq!(b'i', BlockType::Index.to_byte());
    assert_eq!(b'o', BlockType::Obj.to_byte());
    assert_eq!(Err(Error::FormatError), BlockType::try_from_byte(b'x'));
}

#[test]
fn varints_as_git_writes_them() {
    assert_eq!(Ok((5, 1)), read_varint(&[0x05, 0xff]));
    assert_eq!(Ok((127, 1)), read_varint(&[0x7f]));
    // Every continuation adds one before shifting.
    assert_eq!(Ok((128, 2)), read_varint(&[0x80, 0x00]));
    assert_eq!(Ok((16511, 2)), read_varint(&[0xff, 0x7f]));
    assert_eq!(Err(Error::FormatError), read_varint(&[]));
    assert_eq!(Err(Error::FormatError), read_varint(&[0x80]));
}

#[test]
fn big_endian_integers() {
    assert_eq!(0x010203, get_be24(&[0x01, 0x02, 0x03]));
    assert_eq!(0x01020304, get_be32(&[0x01, 0x02, 0x03, 0x04]));
    assert_eq!(0x0102030405060708, get_be64(&[1, 2, 3, 4, 5, 6, 7, 8]));
}

#[test]
fn sizes_by_version_and_hash() {
    assert_eq!(24, header_size(1));
    assert_eq!(28, header_size(2));
    assert_eq!(68, footer_size(1));
    assert_eq!(72, footer_size(2));
    assert_eq!(20, hash_size(HashKind::Sha1));
    assert_eq!(32, hash_size(HashKind::Sha256));
}

#[test]
fn keys_and_strings() {
    assert_eq!(Ok((0, 4, 3, 2)), decode_keylen(&[0x00, 0x23]));

    let mut key = Vec::new();
    assert_eq!(Ok((3, 6)), decode_key(&[0x00, 0x23, b'H', b'E', b'A', b'D'], &mut key));
    assert_eq!(b"HEAD".to_vec(), key);

    // Keep two bytes of the last key, add three.
    let mut key = b"refs".to_vec();
    assert_eq!(Ok((1, 5)), decode_key(&[0x02, 0x19, b'a', b'b', b'c'], &mut key));
    assert_eq!(b"reabc".to_vec(), key);

    // A prefix longer than the last key.
    let mut key = b"ab".to_vec();
    assert_eq!(Err(Error::FormatError), decode_key(&[0x03, 0x08, b'x'], &mut key));
    // A suffix longer than what is left.
    let mut key = Vec::new();
    assert_eq!(Err(Error::FormatError), decode_key(&[0x00, 0x28, b'x'], &mut key));

    assert_eq!(Ok((b"abc".to_vec(), 4)), decode_string(&[0x03, b'a', b'b', b'c', b'z']));
    assert_eq!(Err(Error::FormatError), decode_string(&[0x05, b'a']));
}

#[test]
fn footer_fields_and_checksum() {
    let footer = &INITIAL_REF_FILE[56..];
    let f = decode_footer(1, footer, 0xb6bff78a).expect("footer");
    assert_eq!(1, f.version);
    assert_eq!(4096, f.block_size);
    assert_eq!(1, f.min_update_index);
    assert_eq!(1, f.max_update_index);
    assert_eq!(HashKind::Sha1, f.hash_id);
    assert_eq!(0, f.log_offset);
    assert_eq!(0xb6bff78a, f.file_crc);
    assert_eq!(Err(Error::FormatError), decode_footer(1, footer, 0));
}

#[test]
fn table_checksum_and_magic_are_checked() {
    let mut bad_crc = INITIAL_REF_FILE;
    bad_crc[123] ^= 1;
    assert_eq!(
        Err(Error::FormatError),
        Table::new(BufferSource::from_slice(&bad_crc[..]), "x".to_string()).map(|t| t.version)
    );

    // The footer repeats the header.
    let mut changed = INITIAL_REF_FILE;
    changed[56 + 15] = 2;
    assert_eq!(
        Err(Error::FormatError),
        Table::new(BufferSource::from_slice(&changed[..]), "x".to_string()).map(|t| t.version)
    );

    let mut bad_magic = INITIAL_REF_FILE;
    bad_magic[0] = b'X';
    assert_eq!(
        Err(Error::FormatError),
        Table::new(BufferSource::from_slice(&bad_magic[..]), "x".to_string()).map(|t| t.version)
    );
}

#[test]
fn table_name_and_offsets() {
    let table = initial_table();
    assert_eq!("01-01-rand.ref", table.name());
    assert!(table.offsets_for(BlockType::Ref).is_some());
    assert_eq!(None, table.offsets_for(BlockType::Log));
    assert_eq!(None, table.offsets_for(BlockType::Obj));
}

#[test]
fn table_iter_seeks_and_reads() {
    let table = initial_table();
    let mut iter = TableIter::new(&table, BlockType::Ref);
    let mut rec = Record::for_search(BlockType::Ref, Some(b"HEAD".to_vec()));
    iter.seek(&rec).expect("seek");
    assert_eq!(Ok(true), iter.next(&mut rec));
    assert_eq!(b"HEAD".to_vec(), rec.clone_key());
    assert_eq!(Ok(false), iter.next(&mut rec));

    // Nothing sorts after "refs/".
    let mut iter = TableIter::new(&table, BlockType::Ref);
    let mut rec = Record::for_search(BlockType::Ref, Some(b"refs/".to_vec()));
    iter.seek(&rec).expect("seek");
    assert_eq!(Ok(false), iter.next(&mut rec));
}

#[test]
fn block_iter_seeks_by_key() {
    let table = initial_table();
    let block = table.init_block(0, Some(BlockType::Ref)).expect("block").expect("block");
    let mut key = Vec::new();
    block.first_key(&mut key).expect("first key");
    assert_eq!(b"HEAD".to_vec(), key);

    let mut iter = BlockIter::from_block(block);
    iter.seek_key(b"A").expect("seek");
    let mut rec = Record::for_search(BlockType::Ref, None);
    assert_eq!(Ok(true), iter.next(&mut rec));
    assert_eq!(b"HEAD".to_vec(), rec.clone_key());
    iter.seek_start();
    assert_eq!(Ok(true), iter.next(&mut rec));
}

#[test]
fn merged_tables_share_their_hash() {
    let mut other = initial_table();
    other.hash_id = HashKind::Sha256;
    let r = MergedTable::new(vec![initial_table(), other], HashKind::Sha1);
    assert!(matches!(r, Err(Error::FormatError)));

    let merged = MergedTable::new(vec![initial_table(), initial_table()], HashKind::Sha1).expect("merged");
    assert_eq!(1, merged.min());
    assert_eq!(1, merged.max());
    assert!(!merged.suppress_deletions());
}

#[test]
fn equal_names_are_yielded_once() {
    let merged = MergedTable::new(vec![initial_table(), initial_table()], HashKind::Sha1).expect("merged");
    let mut iter = MergedIter::from_merged(&merged, BlockType::Ref);
    let mut rec = Record::for_search(BlockType::Ref, None);
    iter.seek(&rec).expect("seek");
    assert_eq!(Ok(true), iter.next(&mut rec));
    assert_eq!(b"HEAD".to_vec(), rec.clone_key());
    // The same name in the other table was consumed with it.
    assert_eq!(Ok(false), iter.next(&mut rec));
}

#[test]
fn records_for_search() {
    let r = Record::for_search(BlockType::Ref, Some(b"refs/heads/x".to_vec()));
    assert_eq!(BlockType::Ref, r.record_type());
    assert!(r.is_deletion());
    assert_eq!(b"refs/heads/x".to_vec(), r.clone_key());

    let r = Record::for_search(BlockType::Index, Some(b"k".to_vec()));
    assert_eq!(BlockType::Index, r.record_type());
    assert!(!r.is_deletion());
    assert_eq!(b"k".to_vec(), r.clone_key());

    let log = Record::for_search(BlockType::Log, None);
    assert_eq!(BlockType::Log, log.record_type());
    assert!(log.is_deletion());
    let obj = Record::for_search(BlockType::Obj, None);
    assert_eq!(BlockType::Obj, obj.record_type());
    assert!(!obj.is_deletion());

    assert!(RefRecord::for_search(None).is_deletion());
    assert!(LogRecord::for_search(None).is_deletion());
    assert!(!ObjRecord::for_search(None).is_deletion());
    assert!(!IndexRecord::for_search(None).is_deletion());
    assert_eq!(Ok(RefValueType::Symref), RefValueType::try_from_byte(3));
    assert_eq!(Err(Error::FormatError), RefValueType::try_from_byte(4));
}

#[test]
fn record_and_key_order() {
    assert_eq!(KeyOrder::Less, compare_bytes(b"HEAD", b"refs"));
    assert_eq!(KeyOrder::Less, compare_bytes(b"ab", b"abc"));
    assert_eq!(KeyOrder::Equal, compare_bytes(b"abc", b"abc"));
    assert_eq!(KeyOrder::Greater, compare_bytes(b"b", b"abc"));

    let a = Record::for_search(BlockType::Ref, Some(b"a".to_vec()));
    let b = Record::for_search(BlockType::Ref, Some(b"b".to_vec()));
    let o = Record::for_search(BlockType::Obj, Some(b"a".to_vec()));
    assert_eq!(Some(KeyOrder::Less), compare_records(&a, &b));
    assert_eq!(Some(KeyOrder::Greater), compare_records(&b, &a));
    assert_eq!(None, compare_records(&a, &o));

    // Log records with the same name order newest first.
    let l1 = LogRecord::for_search(Some(b"a".to_vec()));
    assert_eq!(KeyOrder::Equal, l1.compare(&LogRecord::for_search(Some(b"a".to_vec()))));

    let mut v = vec![b"b".to_vec(), b"a".to_vec(), b"ab".to_vec()];
    sort_byte_strings(&mut v);
    assert_eq!(vec![b"a".to_vec(), b"ab".to_vec(), b"b".to_vec()], v);
}

#[test]
fn iterators_stay_at_their_end() {
    let table = initial_table();
    let mut iter = TableIter::new(&table, BlockType::Ref);
    let mut rec = Record::for_search(BlockType::Ref, Some(b"refs/".to_vec()));
    iter.seek(&rec).expect("seek");
    for _ in 0..3 {
        assert_eq!(Ok(false), iter.next(&mut rec));
    }

    let merged = MergedTable::new(vec![initial_table(), initial_table()], HashKind::Sha1).expect("merged");
    let mut iter = MergedIter::from_merged(&merged, BlockType::Ref);
    let mut rec = Record::for_search(BlockType::Ref, None);
    iter.seek(&rec).expect("seek");
    let mut keys = Vec::new();
    while iter.next(&mut rec) == Ok(true) {
        keys.push(rec.clone_key());
    }
    for w in keys.windows(2) {
        assert!(w[0] < w[1]);
    }
    assert_eq!(vec![b"HEAD".to_vec()], keys);
}
