//! The decisions of loading a stack of reftables: reading the names in
//! `tables.list`, choosing which open tables to keep across a reload, and
//! when to retry a reload that raced with a writer.
use super::table::HashKind;
use super::Error;
use vstd::prelude::*;
use vstd::utf8::{decode_utf8, decode_utf8_encode_utf8, encode_utf8, valid_utf8};

verus! {

/// How the reftable code should behave: the hash kind the tables must use.
#[derive(Clone, Copy, Debug, PartialEq, Eq, Structural)]
pub struct Options {
    pub hash_id: HashKind,
}

impl Options {
    /// Options for tables of `hash_id`.
    pub fn from_hash_kind(hash_id: HashKind) -> (r: Options)
        ensures
            r.hash_id == hash_id,
    {
        Options { hash_id }
    }
}

impl Default for Options {
    /// SHA-1 tables.
    fn default() -> (r: Options)
        ensures
            r.hash_id == HashKind::Sha1,
    {
        Options { hash_id: HashKind::Sha1 }
    }
}

/// The length of the first line of `c`: the position of its first line
/// feed, or its length where it has none.
pub open spec fn line_end(c: Seq<u8>) -> int
    decreases c.len(),
{
    if c.len() == 0 {
        0
    } else if c[0] == 0x0a {
        0
    } else {
        1 + line_end(c.drop_first())
    }
}

proof fn lemma_line_end(c: Seq<u8>, i: int)
    requires
        0 <= i <= c.len(),
        forall|j: int| 0 <= j < i ==> c[j] != 0x0a,
        i == c.len() || c[i] == 0x0a,
    ensures
        line_end(c) == i,
    decreases i,
{
    if i > 0 {
        lemma_line_end(c.drop_first(), i - 1);
    }
}

/// The table names that the content `c` of `tables.list` lists, one per
/// line: a line that is not UTF-8 is an I/O error (as reading it as a line
/// of text is), and a last line without its line feed a format error.
pub open spec fn spec_table_names(c: Seq<u8>) -> Result<Seq<Seq<char>>, Error>
    decreases c.len(),
{
    if c.len() == 0 {
        Ok(Seq::empty())
    } else {
        let n = line_end(c);
        let line = c.subrange(0, n);
        if !valid_utf8(line) {
            Err(Error::IoError)
        } else if n >= c.len() {
            Err(Error::FormatError)
        } else if 0 <= n {
            match spec_table_names(c.subrange(n + 1, c.len() as int)) {
                Ok(rest) => Ok(seq![decode_utf8(line)] + rest),
                Err(e) => Err(e),
            }
        } else {
            Err(Error::FormatError)
        }
    }
}

proof fn lemma_line_end_bounds(c: Seq<u8>)
    ensures
        0 <= line_end(c) <= c.len(),
        line_end(c) < c.len() ==> c[line_end(c)] == 0x0a,
    decreases c.len(),
{
    if c.len() > 0 && c[0] != 0x0a {
        lemma_line_end_bounds(c.drop_first());
    }
}

/// The content of a `tables.list` that lists `names`: each name's bytes,
/// then a line feed.
pub open spec fn list_content(names: Seq<Seq<char>>) -> Seq<u8>
    decreases names.len(),
{
    if names.len() == 0 {
        Seq::empty()
    } else {
        encode_utf8(names[0]) + seq![0x0au8] + list_content(names.drop_first())
    }
}

/// Law: content that parses into table names is exactly those names, each
/// followed by a line feed.
pub proof fn lemma_table_names_round_trip(c: Seq<u8>)
    ensures
        spec_table_names(c) matches Ok(names) ==> c == list_content(names),
    decreases c.len(),
{
    if c.len() > 0 {
        lemma_line_end_bounds(c);
        let n = line_end(c);
        let line = c.subrange(0, n);
        if valid_utf8(line) && n < c.len() {
            let rest = c.subrange(n + 1, c.len() as int);
            lemma_table_names_round_trip(rest);
            if let Ok(more) = spec_table_names(rest) {
                let names = seq![decode_utf8(line)] + more;
                decode_utf8_encode_utf8(line);
                assert(names[0] == decode_utf8(line));
                assert(names.drop_first() =~= more);
                assert(c =~= line + seq![0x0au8] + rest);
            }
        }
    }
}

/// A line ends at its first line feed.
proof fn lemma_line_has_no_feed(c: Seq<u8>)
    ensures
        forall|j: int| 0 <= j < line_end(c) ==> c[j] != 0x0a,
    decreases c.len(),
{
    if c.len() > 0 && c[0] != 0x0a {
        lemma_line_has_no_feed(c.drop_first());
        lemma_line_end_bounds(c.drop_first());
        assert forall|j: int| 0 <= j < line_end(c) implies c[j] != 0x0a by {
            if j > 0 {
                assert(c[j] == c.drop_first()[j - 1]);
            }
        }
    }
}

/// A string with a line feed encodes to bytes with one.
proof fn lemma_encode_keeps_feed(chars: Seq<char>)
    requires
        chars.contains('\n'),
    ensures
        encode_utf8(chars).contains(0x0au8),
    decreases chars.len(),
{
    let first = vstd::utf8::encode_scalar(chars[0] as u32);
    let rest = chars.drop_first();
    assert(encode_utf8(chars) == first + encode_utf8(rest));
    if chars[0] == '\n' {
        assert(('\n' as u32) == 10u32);
        assert((10u32 & 0x7F) as u8 == 10u8) by (bit_vector);
        assert(first == seq![0x0au8]);
        assert(encode_utf8(chars)[0] == 0x0au8);
    } else {
        let k = choose|k: int| 0 <= k < chars.len() && chars[k] == '\n';
        assert(rest[k - 1] == '\n');
        lemma_encode_keeps_feed(rest);
        let j = choose|j: int| 0 <= j < encode_utf8(rest).len() && encode_utf8(rest)[j] == 0x0au8;
        assert(encode_utf8(chars)[first.len() + j] == 0x0au8);
    }
}

/// Law: no table name parsed from a `tables.list` holds a line feed.
pub proof fn lemma_table_names_single_line(c: Seq<u8>)
    ensures
        spec_table_names(c) matches Ok(names) ==> forall|i: int|
            0 <= i < names.len() ==> !(#[trigger] names[i]).contains('\n'),
    decreases c.len(),
{
    if c.len() > 0 {
        lemma_line_end_bounds(c);
        let n = line_end(c);
        let line = c.subrange(0, n);
        if valid_utf8(line) && n < c.len() {
            let rest = c.subrange(n + 1, c.len() as int);
            lemma_table_names_single_line(rest);
            if let Ok(more) = spec_table_names(rest) {
                let names = seq![decode_utf8(line)] + more;
                assert forall|i: int| 0 <= i < names.len() implies !(#[trigger] names[i]).contains('\n') by {
                    if i == 0 {
                        if decode_utf8(line).contains('\n') {
                            lemma_encode_keeps_feed(decode_utf8(line));
                            decode_utf8_encode_utf8(line);
                            lemma_line_has_no_feed(c);
                            let j = choose|j: int| 0 <= j < line.len() && line[j] == 0x0au8;
                            assert(c[j] == line[j]);
                        }
                    } else {
                        assert(names[i] == more[i - 1]);
                    }
                }
            }
        }
    }
}

/// The views of a list of names.
pub open spec fn names_view(names: Seq<String>) -> Seq<Seq<char>> {
    names.map_values(|s: String| s@)
}

/// The table names listed in the content `content` of `tables.list` (see
/// `spec_table_names`).
pub fn parse_table_names(content: &[u8]) -> (r: Result<Vec<String>, Error>)
    ensures
        match (r, spec_table_names(content@)) {
            (Ok(names), Ok(want)) => names_view(names@) == want,
            (Err(e), Err(want)) => e == want,
            _ => false,
        },
{
    let mut names: Vec<String> = Vec::new();
    let mut pos: usize = 0;
    let ghost c = content@;
    proof {
        assert(c.subrange(0, c.len() as int) =~= c);
        if let Ok(all) = spec_table_names(c) {
            assert(names_view(names@) + all =~= all);
        }
    }
    while pos < content.len()
        invariant
            pos <= c.len(),
            c == content@,
            spec_table_names(c) == match spec_table_names(c.subrange(pos as int, c.len() as int)) {
                Ok(rest) => Ok::<Seq<Seq<char>>, Error>(names_view(names@) + rest),
                Err(e) => Err(e),
            },
        decreases c.len() - pos,
    {
        let ghost rest = c.subrange(pos as int, c.len() as int);
        let mut end: usize = pos;
        while end < content.len() && content[end] != 0x0a
            invariant
                pos <= end <= c.len(),
                c == content@,
                forall|j: int| pos <= j < end ==> c[j] != 0x0a,
            decreases c.len() - end,
        {
            end = end + 1;
        }
        proof {
            lemma_line_end(rest, end - pos);
            assert(rest.subrange(0, end - pos) =~= c.subrange(pos as int, end as int));
        }
        let line = crate::fuzzy::utf8_str(&content[pos..end]);
        let line = match line {
            Some(s) => s,
            None => return Err(Error::IoError),
        };
        if end >= content.len() {
            return Err(Error::FormatError);
        }
        let name = line.to_owned();
        let ghost before = names@;
        names.push(name);
        proof {
            assert(rest.subrange(end - pos + 1, rest.len() as int) =~= c.subrange(end + 1, c.len() as int));
            assert(names_view(names@) =~= names_view(before) + seq![decode_utf8(c.subrange(pos as int, end as int))]);
            if let Ok(more) = spec_table_names(c.subrange(end + 1, c.len() as int)) {
                assert(names_view(names@) + more =~= names_view(before) + (seq![
                    decode_utf8(c.subrange(pos as int, end as int)),
                ] + more));
            }
        }
        pos = end + 1;
    }
    proof {
        assert(c.subrange(pos as int, c.len() as int) =~= Seq::<u8>::empty());
        assert(names_view(names@) + Seq::<Seq<char>>::empty() =~= names_view(names@));
    }
    Ok(names)
}

/// Whether two lists of names are the same.
pub fn same_names(a: &[String], b: &[String]) -> (r: bool)
    ensures
        r == (names_view(a@) == names_view(b@)),
{
    if a.len() != b.len() {
        proof {
            assert(names_view(a@).len() != names_view(b@).len());
        }
        return false;
    }
    let mut i: usize = 0;
    while i < a.len()
        invariant
            a@.len() == b@.len(),
            i <= a@.len(),
            forall|j: int| 0 <= j < i ==> a@[j]@ == b@[j]@,
        decreases a@.len() - i,
    {
        if a[i] != b[i] {
            proof {
                assert(names_view(a@)[i as int] != names_view(b@)[i as int]);
            }
            return false;
        }
        i = i + 1;
    }
    proof {
        assert(names_view(a@) =~= names_view(b@));
    }
    true
}

/// The first position from `k` on in `avail` of a table of `cur` named
/// `name`.
pub open spec fn first_named(cur: Seq<Seq<char>>, avail: Seq<usize>, name: Seq<char>, k: int) -> Option<int>
    decreases avail.len() - k,
{
    if k < 0 || k >= avail.len() {
        None
    } else if cur[avail[k] as int] == name {
        Some(k)
    } else {
        first_named(cur, avail, name, k + 1)
    }
}

/// Which open table each name of `names` keeps, in order: where tables
/// are reused, the first table still available in `avail` (indices into
/// `cur`, the names of the open tables) with that name, which is then no
/// longer available; `None` where the table is to be opened anew.
pub open spec fn reuse_plan(cur: Seq<Seq<char>>, avail: Seq<usize>, names: Seq<Seq<char>>, reuse: bool) -> Seq<
    Option<usize>,
>
    decreases names.len(),
{
    if names.len() == 0 {
        Seq::empty()
    } else {
        let found = if reuse {
            first_named(cur, avail, names[0], 0)
        } else {
            None
        };
        match found {
            Some(j) => seq![Some(avail[j])] + reuse_plan(cur, avail.remove(j), names.drop_first(), reuse),
            None => seq![None] + reuse_plan(cur, avail, names.drop_first(), reuse),
        }
    }
}

/// All indices `0..n`.
pub open spec fn all_indices(n: nat) -> Seq<usize> {
    Seq::new(n, |i: int| i as usize)
}

proof fn lemma_first_named(cur: Seq<Seq<char>>, avail: Seq<usize>, name: Seq<char>, k: int)
    requires
        0 <= k <= avail.len(),
    ensures
        first_named(cur, avail, name, k) matches Some(j) ==> k <= j < avail.len() && cur[avail[j] as int] == name,
    decreases avail.len() - k,
{
    if k < avail.len() && cur[avail[k] as int] != name {
        lemma_first_named(cur, avail, name, k + 1);
    }
}

/// Law: a reload keeps an open table only for a name that names it, keeps
/// each open table at most once, and decides once per listed name.
pub proof fn lemma_reuse_plan(cur: Seq<Seq<char>>, avail: Seq<usize>, names: Seq<Seq<char>>, reuse: bool)
    requires
        avail.no_duplicates(),
        forall|k: int| 0 <= k < avail.len() ==> #[trigger] avail[k] < cur.len(),
    ensures
        reuse_plan(cur, avail, names, reuse).len() == names.len(),
        forall|i: int|
            0 <= i < names.len() ==> (#[trigger] reuse_plan(cur, avail, names, reuse)[i] matches Some(j) ==> avail.contains(j)
                && cur[j as int] == names[i]),
        forall|i1: int, i2: int|
            0 <= i1 < i2 < names.len() ==> (#[trigger] reuse_plan(cur, avail, names, reuse)[i1] matches Some(j1) ==> (
            #[trigger] reuse_plan(cur, avail, names, reuse)[i2] matches Some(j2) ==> j1 != j2)),
        !reuse ==> forall|i: int| 0 <= i < names.len() ==> #[trigger] reuse_plan(cur, avail, names, reuse)[i] is None,
    decreases names.len(),
{
    if names.len() > 0 {
        let found = if reuse {
            first_named(cur, avail, names[0], 0)
        } else {
            None
        };
        let p = reuse_plan(cur, avail, names, reuse);
        match found {
            Some(j) => {
                lemma_first_named(cur, avail, names[0], 0);
                let a2 = avail.remove(j);
                assert forall|x: usize| a2.contains(x) implies avail.contains(x) && x != avail[j] by {
                    let k = choose|k: int| 0 <= k < a2.len() && a2[k] == x;
                    if k < j {
                        assert(avail[k] == x);
                    } else {
                        assert(avail[k + 1] == x);
                    }
                }
                assert(a2.no_duplicates()) by {
                    assert forall|k1: int, k2: int| 0 <= k1 < a2.len() && 0 <= k2 < a2.len() && k1 != k2 implies a2[k1] != a2[k2] by {
                        let o1 = if k1 < j { k1 } else { k1 + 1 };
                        let o2 = if k2 < j { k2 } else { k2 + 1 };
                        assert(a2[k1] == avail[o1]);
                        assert(a2[k2] == avail[o2]);
                    }
                }
                assert forall|k: int| 0 <= k < a2.len() implies #[trigger] a2[k] < cur.len() by {
                    assert(a2.contains(a2[k]));
                }
                lemma_reuse_plan(cur, a2, names.drop_first(), reuse);
                let q = reuse_plan(cur, a2, names.drop_first(), reuse);
                assert(p == seq![Some(avail[j])] + q);
                assert forall|i: int| 0 <= i < names.len() implies (#[trigger] p[i] matches Some(x) ==> avail.contains(x)
                    && cur[x as int] == names[i]) by {
                    if i > 0 {
                        assert(p[i] == q[i - 1]);
                    }
                }
                assert forall|i1: int, i2: int| 0 <= i1 < i2 < names.len() implies (#[trigger] p[i1] matches Some(x1) ==> (
                    #[trigger] p[i2] matches Some(x2) ==> x1 != x2)) by {
                    assert(p[i2] == q[i2 - 1]);
                    if i1 > 0 {
                        assert(p[i1] == q[i1 - 1]);
                    }
                }
            },
            None => {
                lemma_reuse_plan(cur, avail, names.drop_first(), reuse);
                let q = reuse_plan(cur, avail, names.drop_first(), reuse);
                assert(p == seq![None] + q);
                assert forall|i: int| 0 <= i < names.len() implies (#[trigger] p[i] matches Some(x) ==> avail.contains(x)
                    && cur[x as int] == names[i]) by {
                    if i > 0 {
                        assert(p[i] == q[i - 1]);
                    }
                }
                assert forall|i1: int, i2: int| 0 <= i1 < i2 < names.len() implies (#[trigger] p[i1] matches Some(x1) ==> (
                    #[trigger] p[i2] matches Some(x2) ==> x1 != x2)) by {
                    assert(p[i2] == q[i2 - 1]);
                    if i1 > 0 {
                        assert(p[i1] == q[i1 - 1]);
                    }
                }
                assert forall|i: int| !reuse && 0 <= i < names.len() implies #[trigger] p[i] is None by {
                    if i > 0 {
                        assert(p[i] == q[i - 1]);
                    }
                }
            },
        }
    }
}

/// The first position in `avail` of a table of `current` named `name`
/// (see `first_named`).
fn first_available(current: &[String], avail: &[usize], name: &String) -> (r: Option<usize>)
    requires
        forall|x: int| 0 <= x < avail@.len() ==> #[trigger] avail@[x] < current@.len(),
    ensures
        match first_named(names_view(current@), avail@, name@, 0) {
            Some(x) => r == Some(x as usize),
            None => r is None,
        },
{
    let ghost cur = names_view(current@);
    let mut j: usize = 0;
    while j < avail.len()
        invariant
            cur == names_view(current@),
            forall|x: int| 0 <= x < avail@.len() ==> #[trigger] avail@[x] < current@.len(),
            j <= avail@.len(),
            first_named(cur, avail@, name@, 0) == first_named(cur, avail@, name@, j as int),
        decreases avail@.len() - j,
    {
        let idx = avail[j];
        proof {
            assert(cur[idx as int] == current@[idx as int]@);
        }
        if current[idx] == *name {
            return Some(j);
        }
        j = j + 1;
    }
    None
}

/// For each name of `names`, the index of the open table (named by
/// `current`) to keep, or `None` where the table is to be opened (see
/// `reuse_plan`).
pub fn plan_reuse(current: &[String], names: &[String], reuse_open: bool) -> (r: Vec<Option<usize>>)
    ensures
        r@ == reuse_plan(names_view(current@), all_indices(current@.len()), names_view(names@), reuse_open),
{
    let ghost cur = names_view(current@);
    let ghost all = names_view(names@);
    let mut avail: Vec<usize> = Vec::new();
    let mut k: usize = 0;
    while k < current.len()
        invariant
            k <= current@.len(),
            avail@ == all_indices(k as nat),
        decreases current@.len() - k,
    {
        avail.push(k);
        proof {
            assert(avail@ =~= all_indices((k + 1) as nat));
        }
        k = k + 1;
    }
    let mut plan: Vec<Option<usize>> = Vec::new();
    let mut i: usize = 0;
    proof {
        assert(all.subrange(0, all.len() as int) =~= all);
        assert(plan@ + reuse_plan(cur, avail@, all, reuse_open) =~= reuse_plan(cur, avail@, all, reuse_open));
    }
    while i < names.len()
        invariant
            cur == names_view(current@),
            all == names_view(names@),
            i <= names@.len(),
            forall|x: int| 0 <= x < avail@.len() ==> #[trigger] avail@[x] < current@.len(),
            reuse_plan(cur, all_indices(current@.len()), all, reuse_open) == plan@ + reuse_plan(
                cur,
                avail@,
                all.subrange(i as int, all.len() as int),
                reuse_open,
            ),
        decreases names@.len() - i,
    {
        let ghost rest = all.subrange(i as int, all.len() as int);
        let ghost before = plan@;
        let ghost avail0 = avail@;
        let found: Option<usize> = if reuse_open {
            first_available(current, avail.as_slice(), &names[i])
        } else {
            None
        };
        proof {
            assert(all[i as int] == names@[i as int]@);
            assert(rest[0] == all[i as int]);
            assert(rest.drop_first() =~= all.subrange(i + 1, all.len() as int));
        }
        let alen = avail.len();
        match found {
            Some(j) => {
                proof {
                    lemma_first_named(cur, avail0, all[i as int], 0);
                    assert(avail0.len() == alen);
                }
                let idx = avail.remove(j);
                plan.push(Some(idx));
                proof {
                    assert(avail@ == avail0.remove(j as int));
                    assert forall|x: int| 0 <= x < avail@.len() implies #[trigger] avail@[x] < current@.len() by {
                        if x < j {
                            assert(avail@[x] == avail0[x]);
                        } else {
                            assert(avail@[x] == avail0[x + 1]);
                        }
                    }
                    assert(reuse_open);
                    let x = first_named(cur, avail0, all[i as int], 0).unwrap();
                    assert(x == j as int);
                    assert(first_named(cur, avail0, rest[0], 0) == Some(j as int));
                    assert(reuse_plan(cur, avail0, rest, reuse_open) == seq![Some(avail0[j as int])] + reuse_plan(
                        cur,
                        avail@,
                        all.subrange(i + 1, all.len() as int),
                        reuse_open,
                    ));
                    assert(plan@ =~= before + seq![Some(idx)]);
                    assert(before + (seq![Some(idx)] + reuse_plan(cur, avail@, all.subrange(i + 1, all.len() as int), reuse_open))
                        =~= plan@ + reuse_plan(cur, avail@, all.subrange(i + 1, all.len() as int), reuse_open));
                }
            },
            None => {
                plan.push(None);
                proof {
                    assert(reuse_plan(cur, avail0, rest, reuse_open) == seq![None::<usize>] + reuse_plan(
                        cur,
                        avail@,
                        all.subrange(i + 1, all.len() as int),
                        reuse_open,
                    ));
                    assert(plan@ =~= before + seq![None::<usize>]);
                    assert(before + (seq![None::<usize>] + reuse_plan(cur, avail@, all.subrange(i + 1, all.len() as int), reuse_open))
                        =~= plan@ + reuse_plan(cur, avail@, all.subrange(i + 1, all.len() as int), reuse_open));
                }
            },
        }
        i = i + 1;
    }
    proof {
        assert(all.subrange(i as int, all.len() as int) =~= Seq::<Seq<char>>::empty());
        assert(plan@ + Seq::<Option<usize>>::empty() =~= plan@);
    }
    plan
}

/// The delay after `delay` with the random factor `mult`: the old delay,
/// plus its product with the factor wrapped to 32 bits, plus one.
pub open spec fn spec_next_delay(delay: u32, mult: u32) -> int {
    delay + (delay as nat * mult as nat) % 0x1_0000_0000 + 1
}

/// The delay in milliseconds before the next try (see `spec_next_delay`).
pub fn next_delay(delay: u32, mult: u32) -> (r: u32)
    requires
        spec_next_delay(delay, mult) <= u32::MAX,
    ensures
        r == spec_next_delay(delay, mult),
{
    delay + delay.wrapping_mul(mult) + 1
}

/// The retry state of a reload: how many tries were made and the delay
/// before the last retry.
#[derive(Clone, Copy, Debug, PartialEq, Eq, Structural)]
pub struct ReloadRetry {
    pub tries: u32,
    pub delay: u32,
}

/// What to do after a reload failed because a listed table did not exist.
#[derive(Clone, Copy, Debug, PartialEq, Eq, Structural)]
pub enum Retry {
    /// Sleep this many milliseconds, then try again.
    Sleep(u32),
    /// Give up with this error.
    Fail(Error),
    /// The next delay does not fit in 32 bits: the addition that computes
    /// it overflows.
    Overflow,
}

/// What to do after one attempt to load the listed tables.
#[derive(Clone, Copy, Debug, PartialEq, Eq, Structural)]
pub enum Attempt {
    /// The stack is loaded.
    Done,
    /// A listed table is missing: read the list again to see whether a
    /// writer raced the reload.
    CheckList,
    /// Give up with this error.
    Fail(Error),
}

impl ReloadRetry {
    /// No try made yet.
    pub fn new() -> (r: ReloadRetry)
        ensures
            r.tries == 0,
            r.delay == 0,
    {
        ReloadRetry { tries: 0, delay: 0 }
    }

    /// Count another try; whether to make it: past the deadline only the
    /// first three tries are made.
    pub fn begin(&mut self, past_deadline: bool) -> (go: bool)
        requires
            old(self).tries < u32::MAX,
        ensures
            final(self).tries == old(self).tries + 1,
            final(self).delay == old(self).delay,
            go == !(final(self).tries > 3 && past_deadline),
    {
        self.tries = self.tries + 1;
        !(self.tries > 3 && past_deadline)
    }

    /// What to do after an attempt that ended with `outcome`: done on
    /// success, check the list again where a listed table is missing, and
    /// give up on any other error.
    pub fn after_attempt(&self, outcome: Result<(), Error>) -> (r: Attempt)
        ensures
            outcome is Ok ==> r == Attempt::Done,
            outcome == Err::<(), Error>(Error::NotExist) ==> r == Attempt::CheckList,
            outcome is Err && outcome != Err::<(), Error>(Error::NotExist) ==> r == Attempt::Fail(
                outcome->Err_0,
            ),
    {
        match outcome {
            Ok(()) => Attempt::Done,
            Err(Error::NotExist) => Attempt::CheckList,
            Err(e) => Attempt::Fail(e),
        }
    }

    /// After a table listed in `names_before` was missing: where the list
    /// did not change meanwhile (`names_after`), the table is missing for
    /// good; otherwise a writer raced the reload, and the next try waits a
    /// longer delay drawn with the random factor `mult`, unless that delay
    /// overflows.
    pub fn after_missing_table(&mut self, names_before: &[String], names_after: &[String], mult: u32) -> (r: Retry)
        ensures
            final(self).tries == old(self).tries,
            names_view(names_before@) == names_view(names_after@) ==> r == Retry::Fail(Error::NotExist)
                && final(self).delay == old(self).delay,
            names_view(names_before@) != names_view(names_after@) && spec_next_delay(old(self).delay, mult)
                > u32::MAX ==> r == Retry::Overflow && final(self).delay == old(self).delay,
            names_view(names_before@) != names_view(names_after@) && spec_next_delay(old(self).delay, mult)
                <= u32::MAX ==> r == Retry::Sleep(final(self).delay) && final(self).delay == spec_next_delay(
                old(self).delay,
                mult,
            ),
    {
        if same_names(names_before, names_after) {
            return Retry::Fail(Error::NotExist);
        }
        let product = self.delay.wrapping_mul(mult);
        if product > u32::MAX - 1 || self.delay > u32::MAX - 1 - product {
            return Retry::Overflow;
        }
        self.delay = next_delay(self.delay, mult);
        Retry::Sleep(self.delay)
    }
}

} // verus!
