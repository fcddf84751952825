//! The order of record keys: byte strings compare lexicographically.
use super::record::{Record, RecordView};
use vstd::prelude::*;
use vstd::relations::{sorted_by, total_ordering};

verus! {

/// The outcome of comparing two keys.
#[derive(Clone, Copy, Debug, PartialEq, Eq, Structural)]
pub enum KeyOrder {
    Less,
    Equal,
    Greater,
}

impl KeyOrder {
    /// The outcome with both sides swapped.
    pub open spec fn flip(self) -> KeyOrder {
        match self {
            KeyOrder::Less => KeyOrder::Greater,
            KeyOrder::Equal => KeyOrder::Equal,
            KeyOrder::Greater => KeyOrder::Less,
        }
    }
}

/// Lexicographic order of `a` and `b` from position `i` on, the bytes before
/// `i` being equal.
pub open spec fn lex_from(a: Seq<u8>, b: Seq<u8>, i: int) -> KeyOrder
    decreases a.len() - i,
{
    if i < 0 || i >= a.len() {
        if i >= 0 && i < b.len() {
            KeyOrder::Less
        } else {
            KeyOrder::Equal
        }
    } else if i >= b.len() {
        KeyOrder::Greater
    } else if a[i] < b[i] {
        KeyOrder::Less
    } else if a[i] > b[i] {
        KeyOrder::Greater
    } else {
        lex_from(a, b, i + 1)
    }
}

/// Lexicographic order of byte strings, a proper prefix coming first.
pub open spec fn lex_order(a: Seq<u8>, b: Seq<u8>) -> KeyOrder {
    lex_from(a, b, 0)
}

proof fn lemma_lex_from_equal(a: Seq<u8>, b: Seq<u8>, i: int)
    requires
        0 <= i,
        forall|j: int| 0 <= j < i && j < a.len() && j < b.len() ==> a[j] == b[j],
        i <= a.len(),
        i <= b.len(),
    ensures
        lex_from(a, b, i) == KeyOrder::Equal <==> a =~= b,
    decreases a.len() - i,
{
    if i >= a.len() {
        if i < b.len() {
            assert(a.len() != b.len());
        } else {
            assert(a =~= b);
        }
    } else if i >= b.len() {
    } else if a[i] != b[i] {
    } else {
        lemma_lex_from_equal(a, b, i + 1);
    }
}

/// Law: two keys compare equal exactly when they are the same.
pub proof fn lemma_lex_equal(a: Seq<u8>, b: Seq<u8>)
    ensures
        lex_order(a, b) == KeyOrder::Equal <==> a == b,
{
    lemma_lex_from_equal(a, b, 0);
}

proof fn lemma_lex_from_flip(a: Seq<u8>, b: Seq<u8>, i: int)
    requires
        0 <= i,
    ensures
        lex_from(b, a, i) == lex_from(a, b, i).flip(),
    decreases a.len() - i,
{
    if i < a.len() && i < b.len() && a[i] == b[i] {
        lemma_lex_from_flip(a, b, i + 1);
    }
}

/// Law: swapping the keys swaps the outcome.
pub proof fn lemma_lex_flip(a: Seq<u8>, b: Seq<u8>)
    ensures
        lex_order(b, a) == lex_order(a, b).flip(),
{
    lemma_lex_from_flip(a, b, 0);
}

proof fn lemma_lex_from_trans(a: Seq<u8>, b: Seq<u8>, c: Seq<u8>, i: int)
    requires
        0 <= i,
        lex_from(a, b, i) != KeyOrder::Greater,
        lex_from(b, c, i) != KeyOrder::Greater,
    ensures
        lex_from(a, c, i) != KeyOrder::Greater,
        lex_from(a, b, i) == KeyOrder::Less || lex_from(b, c, i) == KeyOrder::Less ==> lex_from(a, c, i)
            == KeyOrder::Less,
    decreases a.len() - i,
{
    if i < a.len() && i < b.len() && i < c.len() && a[i] == b[i] && b[i] == c[i] {
        lemma_lex_from_trans(a, b, c, i + 1);
    }
}

/// Law: the order is transitive, and strict where either step is.
pub proof fn lemma_lex_trans(a: Seq<u8>, b: Seq<u8>, c: Seq<u8>)
    requires
        lex_order(a, b) != KeyOrder::Greater,
        lex_order(b, c) != KeyOrder::Greater,
    ensures
        lex_order(a, c) != KeyOrder::Greater,
        lex_order(a, b) == KeyOrder::Less || lex_order(b, c) == KeyOrder::Less ==> lex_order(a, c)
            == KeyOrder::Less,
{
    lemma_lex_from_trans(a, b, c, 0);
}

/// Whether `a` does not come after `b`.
pub open spec fn lex_le(a: Seq<u8>, b: Seq<u8>) -> bool {
    lex_order(a, b) != KeyOrder::Greater
}

/// `lex_le` as a relation.
pub open spec fn lex_le_fn() -> spec_fn(Seq<u8>, Seq<u8>) -> bool {
    |a: Seq<u8>, b: Seq<u8>| lex_le(a, b)
}

/// Law: byte strings are totally ordered.
pub proof fn lemma_lex_total()
    ensures
        total_ordering(lex_le_fn()),
{
    let r = lex_le_fn();
    assert forall|x: Seq<u8>| #[trigger] r(x, x) by {
        lemma_lex_equal(x, x);
    }
    assert forall|x: Seq<u8>, y: Seq<u8>| #[trigger] r(x, y) && #[trigger] r(y, x) implies x == y by {
        lemma_lex_flip(x, y);
        lemma_lex_equal(x, y);
    }
    assert forall|x: Seq<u8>, y: Seq<u8>, z: Seq<u8>| #[trigger] r(x, y) && #[trigger] r(y, z) implies r(x, z) by {
        lemma_lex_trans(x, y, z);
    }
    assert forall|x: Seq<u8>, y: Seq<u8>| #[trigger] r(x, y) || #[trigger] r(y, x) by {
        lemma_lex_flip(x, y);
    }
}

/// The byte strings held by `v`.
pub open spec fn byte_strings(v: Seq<Vec<u8>>) -> Seq<Seq<u8>> {
    v.map_values(|x: Vec<u8>| x@)
}

/// Sort byte strings into lexicographic order.
pub fn sort_byte_strings(v: &mut Vec<Vec<u8>>)
    ensures
        byte_strings(final(v)@) == byte_strings(old(v)@).sort_by(lex_le_fn()),
{
    let ghost orig = byte_strings(v@);
    let mut s: usize = 0;
    while s < v.len()
        invariant
            s <= v@.len(),
            byte_strings(v@).to_multiset() == orig.to_multiset(),
            forall|j: int, k: int| 0 <= j < k < s ==> lex_le(v@[j]@, v@[k]@),
            forall|j: int, k: int| 0 <= j < s && s <= k < v@.len() ==> lex_le(v@[j]@, v@[k]@),
        decreases v@.len() - s,
    {
        let mut m = s;
        let mut j = s + 1;
        proof {
            lemma_lex_equal(v@[s as int]@, v@[s as int]@);
        }
        while j < v.len()
            invariant
                s <= m < v@.len(),
                s < j <= v@.len(),
                forall|k: int| s <= k < j ==> lex_le(v@[m as int]@, v@[k]@),
            decreases v@.len() - j,
        {
            let o = compare_bytes(v[j].as_slice(), v[m].as_slice());
            proof {
                lemma_lex_flip(v@[j as int]@, v@[m as int]@);
            }
            if o == KeyOrder::Less {
                proof {
                    assert forall|k: int| s <= k < j implies lex_le(v@[j as int]@, v@[k]@) by {
                        lemma_lex_trans(v@[j as int]@, v@[m as int]@, v@[k]@);
                    }
                    lemma_lex_equal(v@[j as int]@, v@[j as int]@);
                }
                m = j;
            }
            j = j + 1;
        }
        let ghost before = byte_strings(v@);
        if s != m {
            let mut tmp: Vec<u8> = Vec::new();
            std::mem::swap(&mut v[s], &mut tmp);
            std::mem::swap(&mut v[m], &mut tmp);
            std::mem::swap(&mut v[s], &mut tmp);
        }
        proof {
            broadcast use vstd::multiset::group_multiset_axioms;
            broadcast use vstd::seq_lib::group_to_multiset_ensures;

            let after = byte_strings(v@);
            let mid = before.update(s as int, before[m as int]);
            assert(after =~= mid.update(m as int, before[s as int]));
            vstd::seq_lib::to_multiset_update(before, s as int, before[m as int]);
            vstd::seq_lib::to_multiset_update(mid, m as int, before[s as int]);
            assert(before.to_multiset().contains(before[s as int]));
            assert(before.to_multiset().contains(before[m as int]));
            if s != m {
                assert(mid[m as int] == before[m as int]);
            }
            assert(after.to_multiset() =~= before.to_multiset());
        }
        s = s + 1;
    }
    proof {
        lemma_lex_total();
        let fin = byte_strings(v@);
        orig.lemma_sort_by_ensures(lex_le_fn());
        assert(sorted_by(fin, lex_le_fn()));
        vstd::seq_lib::lemma_sorted_unique(fin, orig.sort_by(lex_le_fn()), lex_le_fn());
    }
}

/// Compare two byte strings lexicographically.
pub fn compare_bytes(a: &[u8], b: &[u8]) -> (r: KeyOrder)
    ensures
        r == lex_order(a@, b@),
{
    let mut i: usize = 0;
    loop
        invariant
            i <= a@.len(),
            i <= b@.len(),
            lex_order(a@, b@) == lex_from(a@, b@, i as int),
        decreases a@.len() - i,
    {
        if i == a.len() {
            if i < b.len() {
                return KeyOrder::Less;
            } else {
                return KeyOrder::Equal;
            }
        }
        if i == b.len() {
            return KeyOrder::Greater;
        }
        if a[i] < b[i] {
            return KeyOrder::Less;
        }
        if a[i] > b[i] {
            return KeyOrder::Greater;
        }
        i = i + 1;
    }
}

/// The order of two records of the same kind: by key, and for log records
/// by update index in reverse where the names agree; records of different
/// kinds do not compare.
pub open spec fn record_order(a: RecordView, b: RecordView) -> Option<KeyOrder> {
    match (a, b) {
        (RecordView::Ref(x), RecordView::Ref(y)) => Some(lex_order(x.refname, y.refname)),
        (RecordView::Log(x), RecordView::Log(y)) => {
            let o = lex_order(x.refname, y.refname);
            if o != KeyOrder::Equal {
                Some(o)
            } else if y.update_index < x.update_index {
                Some(KeyOrder::Less)
            } else if y.update_index > x.update_index {
                Some(KeyOrder::Greater)
            } else {
                Some(KeyOrder::Equal)
            }
        },
        (RecordView::Obj(x), RecordView::Obj(y)) => Some(lex_order(x.hash_prefix, y.hash_prefix)),
        (RecordView::Index(x), RecordView::Index(y)) => Some(lex_order(x.last_key, y.last_key)),
        _ => None,
    }
}

/// Law: swapping two records swaps their order.
pub proof fn lemma_record_order_flip(a: RecordView, b: RecordView)
    ensures
        record_order(b, a) == match record_order(a, b) {
            Some(o) => Some(o.flip()),
            None => None,
        },
{
    match (a, b) {
        (RecordView::Ref(x), RecordView::Ref(y)) => lemma_lex_flip(x.refname, y.refname),
        (RecordView::Log(x), RecordView::Log(y)) => lemma_lex_flip(x.refname, y.refname),
        (RecordView::Obj(x), RecordView::Obj(y)) => lemma_lex_flip(x.hash_prefix, y.hash_prefix),
        (RecordView::Index(x), RecordView::Index(y)) => lemma_lex_flip(x.last_key, y.last_key),
        _ => {},
    }
}

/// Whether `a` comes before `b` or with it: records of different kinds are
/// not ordered, which counts as neither coming after the other.
pub open spec fn not_after(a: RecordView, b: RecordView) -> bool {
    record_order(a, b) != Some(KeyOrder::Greater)
}

/// Law: the order of records is transitive where all three are of one kind,
/// and records of different kinds never compare.
pub proof fn lemma_record_order_trans(a: RecordView, b: RecordView, c: RecordView)
    requires
        record_order(a, b) matches Some(o) && o != KeyOrder::Greater,
        not_after(b, c),
    ensures
        not_after(a, c),
{
    match (a, b, c) {
        (RecordView::Ref(x), RecordView::Ref(y), RecordView::Ref(z)) => lemma_lex_trans(
            x.refname,
            y.refname,
            z.refname,
        ),
        (RecordView::Log(x), RecordView::Log(y), RecordView::Log(z)) => {
            lemma_lex_trans(x.refname, y.refname, z.refname);
            lemma_lex_equal(x.refname, y.refname);
            lemma_lex_equal(y.refname, z.refname);
            lemma_lex_equal(x.refname, z.refname);
        },
        (RecordView::Obj(x), RecordView::Obj(y), RecordView::Obj(z)) => lemma_lex_trans(
            x.hash_prefix,
            y.hash_prefix,
            z.hash_prefix,
        ),
        (RecordView::Index(x), RecordView::Index(y), RecordView::Index(z)) => lemma_lex_trans(
            x.last_key,
            y.last_key,
            z.last_key,
        ),
        _ => {},
    }
}

/// Compare two records (see `record_order`).
pub fn compare_records(a: &Record, b: &Record) -> (r: Option<KeyOrder>)
    ensures
        r == record_order(a@, b@),
{
    match (a, b) {
        (Record::Ref(x), Record::Ref(y)) => Some(compare_bytes(x.refname.as_slice(), y.refname.as_slice())),
        (Record::Log(x), Record::Log(y)) => Some(x.compare(y)),
        (Record::Obj(x), Record::Obj(y)) => Some(x.compare(y)),
        (Record::Index(x), Record::Index(y)) => Some(
            compare_bytes(x.last_key.as_slice(), y.last_key.as_slice()),
        ),
        _ => None,
    }
}

} // verus!
