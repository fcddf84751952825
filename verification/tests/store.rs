use reftable::find::{existing, find, try_find, validate_name, Error as FindError};
use reftable::iter::{pseudo_ref, Error as IterError, Filter, References};
use reftable::refs::{Reference, Target};
use reftable::reftable::blocksource::BufferSource;
use reftable::reftable::merged::MergedTable;
use reftable::peel::{
    follow_next, follow_step, peel_finish, peel_start, peel_step, Follow, ObjectLookup, Peel, PeelError, MAX_REF_DEPTH,
};
use reftable::reftable::stack::{
    next_delay, parse_table_names, plan_reuse, same_names, Attempt, Options, ReloadRetry, Retry,
};
use reftable::reftable::table::{HashKind, Table};
use reftable::reftable::Error;

// A table of a fresh repository: HEAD, a symbolic ref to refs/heads/main.
const INITIAL_REF_FILE: [u8; 124] = [
    0x52, 0x45, 0x46, 0x54, 0x01, 0x00, 0x10, 0x00, 0x00, 0x00, 0x00, 0x00, 0x00, 0x00, 0x00, 0x01, 0x00, 0x00,
    0x00, 0x00, 0x00, 0x00, 0x00, 0x01, 0x72, 0x00, 0x00, 0x38, 0x00, 0x23, 0x48, 0x45, 0x41, 0x44, 0x00, 0x0f,
    0x72, 0x65, 0x66, 0x73, 0x2f, 0x68, 0x65, 0x61, 0x64, 0x73, 0x2f, 0x6d, 0x61, 0x69, 0x6e, 0x00, 0x00, 0x1c,
    0x00, 0x01, 0x52, 0x45, 0x46, 0x54, 0x01, 0x00, 0x10, 0x00, 0x00, 0x00, 0x00, 0x00, 0x00, 0x00, 0x00, 0x01,
    0x00, 0x00, 0x00, 0x00, 0x00, 0x00, 0x00, 0x01, 0x00, 0x00, 0x00, 0x00, 0x00, 0x00, 0x00, 0x00, 0x00, 0x00,
    0x00, 0x00, 0x00, 0x00, 0x00, 0x00, 0x00, 0x00, 0x00, 0x00, 0x00, 0x00, 0x00, 0x00, 0x00, 0x00, 0x00, 0x00,
    0x00, 0x00, 0x00, 0x00, 0x00, 0x00, 0x00, 0x00, 0x00, 0x00, 0x00, 0x00, 0xb6, 0xbf, 0xf7, 0x8a,
];

fn stack() -> MergedTable {
    let table = Table::new(BufferSource::from_slice(&INITIAL_REF_FILE[..]), "01-01-rand.ref".to_string())
        .expect("parsing");
    MergedTable::new(vec![table], HashKind::Sha1).expect("merged")
}

fn head() -> Reference {
    Reference {
        name: b"HEAD".to_vec(),
        target: Target::Symbolic(b"refs/heads/main".to_vec()),
        peeled: None,
    }
}

fn names(v: &[&str]) -> Vec<String> {
    v.iter().map(|s| s.to_string()).collect()
}

#[test]
fn find_reads_the_symbolic_head() {
    let mt = stack();
    assert_eq!(Ok(head()), find(&mt, b"HEAD"));
    assert_eq!(Ok(Some(head())), try_find(&mt, b"HEAD"));
}

#[test]
fn find_reports_names_it_does_not_hold_as_missing() {
    let mt = stack();
    assert_eq!(Err(existing::Error::NotFound { name: b"A".to_vec() }), find(&mt, b"A"));
    assert_eq!(Ok(None), try_find(&mt, b"A"));
    assert_eq!(Err(existing::Error::NotFound { name: b"HEA".to_vec() }), find(&mt, b"HEA"));
}

#[test]
fn find_refuses_invalid_names() {
    let mt = stack();
    assert_eq!(Err(existing::Error::Find(FindError::RefnameValidation)), find(&mt, b"a..b"));
    assert_eq!(Err(existing::Error::Find(FindError::RefnameValidation)), find(&mt, b""));
    assert_eq!(Err(FindError::PackedRef), try_find(&mt, b"a..b"));
    assert_eq!(Err(FindError::RefnameValidation), validate_name(b"refs/heads/a..b"));
    assert_eq!(Ok(()), validate_name(b"refs/heads/main"));
}

#[test]
fn find_reports_absence() {
    let mt = stack();
    assert_eq!(
        Err(existing::Error::NotFound { name: b"refs/heads/main".to_vec() }),
        find(&mt, b"refs/heads/main")
    );
    assert_eq!(Ok(None), try_find(&mt, b"refs/heads/main"));

    let empty = MergedTable::new(Vec::new(), HashKind::Sha1).expect("empty stack");
    assert_eq!(Ok(None), try_find(&empty, b"HEAD"));
}

#[test]
fn iteration_separates_pseudo_refs() {
    let mt = stack();
    let mut all = References::all(&mt).expect("all");
    assert_eq!(None, all.next());

    let mut pseudo = References::pseudo(&mt).expect("pseudo");
    assert_eq!(Some(Ok(head())), pseudo.next());
    assert_eq!(None, pseudo.next());

    let mut prefixed = References::prefixed(&mt, b"HE").expect("prefixed");
    assert_eq!(Some(Ok(head())), prefixed.next());
    assert_eq!(None, prefixed.next());

    // The first name after the prefix does not start with it.
    let mut prefixed = References::prefixed(&mt, b"A").expect("prefixed");
    assert_eq!(None, prefixed.next());
    let mut prefixed = References::with_filter(&mt, Filter::Prefixed(b"refs/".to_vec())).expect("prefixed");
    assert_eq!(None, prefixed.next());
    assert_ne!(IterError::Backend, IterError::Reftable(Error::IoError));
}

#[test]
fn pseudo_ref_names() {
    assert!(pseudo_ref(b"HEAD"));
    assert!(pseudo_ref(b"FETCH_HEAD"));
    assert!(pseudo_ref(b""));
    assert!(!pseudo_ref(b"refs/heads/main"));
    assert!(!pseudo_ref(b"Head"));
}

#[test]
fn table_list_parsing() {
    assert_eq!(Ok(names(&["a.ref", "b.ref"])), parse_table_names(b"a.ref\nb.ref\n"));
    assert_eq!(Ok(Vec::<String>::new()), parse_table_names(b""));
    assert_eq!(Ok(names(&[""])), parse_table_names(b"\n"));
    assert_eq!(Err(Error::FormatError), parse_table_names(b"a.ref\nb.ref"));
    assert_eq!(Err(Error::IoError), parse_table_names(&[b'a', 0xff, b'\n']));
    // A line that is not UTF-8 fails before a missing line feed is noticed.
    assert_eq!(Err(Error::IoError), parse_table_names(&[b'a', b'\n', 0xff]));
}

#[test]
fn reload_keeps_tables_still_listed() {
    let current = names(&["a", "b", "c"]);
    assert_eq!(vec![Some(2), None, Some(0)], plan_reuse(&current, &names(&["c", "x", "a"]), true));
    assert_eq!(vec![None, None, None], plan_reuse(&current, &names(&["c", "x", "a"]), false));
    // Each open table is kept at most once.
    let twice = names(&["a", "a"]);
    assert_eq!(vec![Some(0), Some(1), None], plan_reuse(&twice, &names(&["a", "a", "a"]), true));
    assert_eq!(Vec::<Option<usize>>::new(), plan_reuse(&current, &[], true));
}

#[test]
fn retry_delays_grow() {
    assert_eq!(1, next_delay(0, 12345));
    assert_eq!(7, next_delay(1, 5));
    // The product wraps to 32 bits.
    assert_eq!(3, next_delay(2, 0x8000_0000));
}

#[test]
fn retry_decisions() {
    let mut r = ReloadRetry::new();
    assert!(r.begin(true));
    assert!(r.begin(true));
    assert!(r.begin(true));
    assert!(!r.begin(true));
    assert!(r.begin(false));
    assert_eq!(5, r.tries);

    let before = names(&["a"]);
    let mut r = ReloadRetry::new();
    assert_eq!(Retry::Fail(Error::NotExist), r.after_missing_table(&before, &names(&["a"]), 9));
    assert_eq!(0, r.delay);
    assert_eq!(Retry::Sleep(1), r.after_missing_table(&before, &names(&["b"]), 9));
    assert_eq!(Retry::Sleep(11), r.after_missing_table(&before, &names(&["b"]), 9));
    assert_eq!(11, r.delay);

    assert!(same_names(&before, &names(&["a"])));
    assert!(!same_names(&before, &names(&["a", "b"])));
    assert_eq!(HashKind::Sha1, Options::default().hash_id);
    assert_eq!(HashKind::Sha256, Options::from_hash_kind(HashKind::Sha256).hash_id);
}

enum Val {
    Sym(&'static str),
    Id(u8),
    Deleted,
}

fn put_varint(v: u64) -> Vec<u8> {
    let mut buf = [0u8; 10];
    let mut pos = 9;
    buf[pos] = (v & 127) as u8;
    let mut v = v >> 7;
    while v > 0 {
        v -= 1;
        pos -= 1;
        buf[pos] = 128 | (v & 127) as u8;
        v >>= 7;
    }
    buf[pos..].to_vec()
}

// A version 1 table of one ref block holding `refs`, sorted by name, at
// update index `index`.
fn build_table(index: u64, refs: &[(&str, Val)]) -> Vec<u8> {
    let mut header = b"REFT".to_vec();
    header.push(1);
    header.extend_from_slice(&[0x00, 0x10, 0x00]);
    header.extend_from_slice(&index.to_be_bytes());
    header.extend_from_slice(&index.to_be_bytes());

    let mut records = Vec::new();
    let mut last: &[u8] = b"";
    for (name, val) in refs {
        let name = name.as_bytes();
        let prefix = last.iter().zip(name).take_while(|(a, b)| a == b).count();
        let suffix = &name[prefix..];
        let kind = match val {
            Val::Sym(_) => 3,
            Val::Id(_) => 1,
            Val::Deleted => 0,
        };
        records.extend(put_varint(prefix as u64));
        records.extend(put_varint(((suffix.len() as u64) << 3) | kind));
        records.extend_from_slice(suffix);
        records.extend(put_varint(0));
        match val {
            Val::Sym(target) => {
                records.extend(put_varint(target.len() as u64));
                records.extend_from_slice(target.as_bytes());
            }
            Val::Id(b) => records.extend_from_slice(&[*b; 20]),
            Val::Deleted => {}
        }
        last = name;
    }

    let mut file = header.clone();
    let block_end = 24 + 4 + records.len() + 3 + 2;
    file.push(b'r');
    file.extend_from_slice(&(block_end as u32).to_be_bytes()[1..]);
    file.extend_from_slice(&records);
    file.extend_from_slice(&[0x00, 0x00, 0x1c]);
    file.extend_from_slice(&[0x00, 0x01]);

    let mut footer = header;
    footer.extend_from_slice(&[0u8; 40]);
    let crc = gix_features::hash::crc32(&footer);
    footer.extend_from_slice(&crc.to_be_bytes());
    file.extend_from_slice(&footer);
    file
}

fn table_of(name: &str, bytes: &[u8]) -> Table {
    Table::new(BufferSource::from_slice(bytes), name.to_string()).expect("parsing")
}

fn object(name: &str, b: u8) -> Reference {
    Reference { name: name.as_bytes().to_vec(), target: Target::Object(vec![b; 20]), peeled: None }
}

fn three_refs() -> Vec<u8> {
    build_table(
        1,
        &[
            ("HEAD", Val::Sym("refs/heads/main")),
            ("refs/heads/main", Val::Id(0x11)),
            ("refs/tags/v1", Val::Id(0x33)),
        ],
    )
}

#[test]
fn built_table_matches_the_fixture() {
    assert_eq!(INITIAL_REF_FILE.to_vec(), build_table(1, &[("HEAD", Val::Sym("refs/heads/main"))]));
}

#[test]
fn seek_finds_each_name_it_holds() {
    let mt = MergedTable::new(vec![table_of("a.ref", &three_refs())], HashKind::Sha1).expect("merged");
    assert_eq!(Ok(head()), find(&mt, b"HEAD"));
    assert_eq!(Ok(object("refs/heads/main", 0x11)), find(&mt, b"refs/heads/main"));
    assert_eq!(Ok(object("refs/tags/v1", 0x33)), find(&mt, b"refs/tags/v1"));
    // Names between the ones held are missing.
    assert_eq!(Err(existing::Error::NotFound { name: b"refs/heads/m".to_vec() }), find(&mt, b"refs/heads/m"));
    assert_eq!(Ok(None), try_find(&mt, b"refs/heads/zz"));
    assert_eq!(Ok(None), try_find(&mt, b"refs/tags/v2"));
}

#[test]
fn iteration_in_name_order_by_filter() {
    let mt = MergedTable::new(vec![table_of("a.ref", &three_refs())], HashKind::Sha1).expect("merged");
    let mut all = References::all(&mt).expect("all");
    assert_eq!(Some(Ok(object("refs/heads/main", 0x11))), all.next());
    assert_eq!(Some(Ok(object("refs/tags/v1", 0x33))), all.next());
    assert_eq!(None, all.next());

    let mut tags = References::prefixed(&mt, b"refs/tags/").expect("prefixed");
    assert_eq!(Some(Ok(object("refs/tags/v1", 0x33))), tags.next());
    assert_eq!(None, tags.next());

    let mut heads = References::prefixed(&mt, b"refs/heads/").expect("prefixed");
    assert_eq!(Some(Ok(object("refs/heads/main", 0x11))), heads.next());
    // The next name is outside the prefix: the iteration ends.
    assert_eq!(None, heads.next());

    let mut pseudo = References::pseudo(&mt).expect("pseudo");
    assert_eq!(Some(Ok(head())), pseudo.next());
    assert_eq!(None, pseudo.next());
}

#[test]
fn newer_tables_shadow_older_ones() {
    let older = build_table(1, &[("refs/heads/a", Val::Id(0x01)), ("refs/heads/main", Val::Id(0x11))]);
    let newer = build_table(2, &[("refs/heads/main", Val::Id(0x22)), ("refs/heads/z", Val::Id(0x05))]);
    let mt = MergedTable::new(vec![table_of("1.ref", &older), table_of("2.ref", &newer)], HashKind::Sha1)
        .expect("merged");
    assert_eq!(1, mt.min());
    assert_eq!(2, mt.max());
    assert_eq!(Ok(object("refs/heads/main", 0x22)), find(&mt, b"refs/heads/main"));
    assert_eq!(Ok(object("refs/heads/a", 0x01)), find(&mt, b"refs/heads/a"));

    let mut all = References::all(&mt).expect("all");
    assert_eq!(Some(Ok(object("refs/heads/a", 0x01))), all.next());
    assert_eq!(Some(Ok(object("refs/heads/main", 0x22))), all.next());
    assert_eq!(Some(Ok(object("refs/heads/z", 0x05))), all.next());
    assert_eq!(None, all.next());
}

#[test]
fn deletions_in_newer_tables_hide_refs() {
    let older = build_table(1, &[("refs/heads/a", Val::Id(0x01)), ("refs/heads/main", Val::Id(0x11))]);
    let newer = build_table(2, &[("refs/heads/main", Val::Deleted)]);
    let mt = MergedTable::new(vec![table_of("1.ref", &older), table_of("2.ref", &newer)], HashKind::Sha1)
        .expect("merged");
    assert_eq!(
        Err(existing::Error::NotFound { name: b"refs/heads/main".to_vec() }),
        find(&mt, b"refs/heads/main")
    );
    assert_eq!(Ok(None), try_find(&mt, b"refs/heads/main"));
    assert_eq!(Ok(object("refs/heads/a", 0x01)), find(&mt, b"refs/heads/a"));

    let mut all = References::all(&mt).expect("all");
    assert_eq!(Some(Ok(object("refs/heads/a", 0x01))), all.next());
    assert_eq!(None, all.next());
}

#[test]
fn reload_attempt_decisions() {
    let r = ReloadRetry::new();
    assert_eq!(Attempt::Done, r.after_attempt(Ok(())));
    assert_eq!(Attempt::CheckList, r.after_attempt(Err(Error::NotExist)));
    assert_eq!(Attempt::Fail(Error::FormatError), r.after_attempt(Err(Error::FormatError)));

    let mut r = ReloadRetry { tries: 1, delay: 0xffff_fff0 };
    assert_eq!(Retry::Overflow, r.after_missing_table(&names(&["a"]), &names(&["b"]), 1));
    assert_eq!(0xffff_fff0, r.delay);
    assert_eq!(Retry::Fail(Error::NotExist), r.after_missing_table(&names(&["a"]), &names(&["a"]), 1));
}

#[test]
fn following_symbolic_refs() {
    let mut cursor = head();
    assert_eq!(Follow::Lookup(b"refs/heads/main".to_vec()), follow_next(&cursor));
    let mut seen = Vec::new();
    let main = object("refs/heads/main", 0x11);
    assert_eq!(None, follow_step(&mut seen, &mut cursor, Ok(main.clone())));
    assert_eq!(main, cursor);
    assert_eq!(Follow::Done(vec![0x11; 20]), follow_next(&cursor));

    // Reaching a name seen before is a cycle, reported under the current name.
    let mut seen = vec![b"refs/heads/main".to_vec()];
    let mut cursor = head();
    assert_eq!(
        Some(PeelError::Cycle { name: b"HEAD".to_vec() }),
        follow_step(&mut seen, &mut cursor, Ok(main.clone()))
    );
    assert_eq!(head(), cursor);

    let mut seen: Vec<Vec<u8>> = (0..4).map(|i| vec![b'a' + i]).collect();
    let mut cursor = head();
    assert_eq!(
        Some(PeelError::DepthLimitExceeded { max_depth: MAX_REF_DEPTH }),
        follow_step(&mut seen, &mut cursor, Ok(main.clone()))
    );
    let missing = existing::Error::NotFound { name: b"refs/heads/main".to_vec() };
    assert_eq!(Some(PeelError::Follow(missing.clone())), follow_step(&mut Vec::new(), &mut head(), Err(missing)));
}

#[test]
fn peeling_tags() {
    let mut r = object("refs/tags/v1", 0x33);
    assert_eq!(None, peel_start(&mut r));
    let oid = vec![0x33; 20];
    assert_eq!(Ok(Peel::Lookup(vec![0x44; 20])), peel_step(&oid, b"refs/tags/v1", ObjectLookup::Tag(Some(vec![0x44; 20]))));
    assert_eq!(Ok(Peel::Done(oid.clone())), peel_step(&oid, b"refs/tags/v1", ObjectLookup::Other));
    assert_eq!(
        Err(PeelError::Find("corrupt pack".to_string())),
        peel_step(&oid, b"refs/tags/v1", ObjectLookup::Failed("corrupt pack".to_string()))
    );
    assert_eq!(
        Err(PeelError::NotFound { oid: oid.clone(), name: b"refs/tags/v1".to_vec() }),
        peel_step(&oid, b"refs/tags/v1", ObjectLookup::Missing)
    );
    peel_finish(&mut r, &[0x44; 20]);
    assert_eq!(Some(vec![0x44; 20]), r.peeled);
    assert_eq!(Target::Object(vec![0x44; 20]), r.target);
    assert_eq!(Some(vec![0x44; 20]), peel_start(&mut r));
}
