//! Listing the local and remote branches of a repository.
use crate::fuzzy::{
    ref_names, find_in_repo, search_is_void, sort_by_name, is_best_selection, sorted_by_name, spec_candidates, Match,
    free_of_backslash, query_is_blank, MAX_QUERY_CHARS,
    NamedRef,
};
use crate::refs::{has_prefix, starts_with};
use crate::reftable::copy_bytes;
use crate::reftable::keys::{byte_strings, lemma_lex_total, lex_le_fn, sort_byte_strings};
use vstd::relations::sorted_by;
use vstd::prelude::*;
use vstd::string::StringSliceAdditionalSpecFns;
use vstd::utf8::{encode_utf8, valid_utf8};

verus! {

/// Which branches to list.
#[derive(Debug, Clone, Copy, PartialEq, Eq, Structural)]
pub enum Kind {
    Local,
    All,
}

/// How to print results.
#[derive(Debug, Clone, Copy, PartialEq, Eq, Structural)]
pub enum OutputFormat {
    Human,
    Json,
}

/// What to list and how.
#[derive(Debug, Clone, PartialEq, Eq)]
pub struct Options {
    pub kind: Kind,
    /// Only references whose full name starts with this.
    pub prefix: Option<String>,
    /// A fuzzy query to rank branch names by.
    pub fuzzy: Option<String>,
    pub sort: bool,
}

/// Why branches could not be listed.
#[derive(Debug, Clone, Copy, PartialEq, Eq, Structural)]
pub enum ListError {
    /// JSON output isn't supported
    JsonUnsupported,
}

/// The number of hits a fuzzy listing shows at most.
pub const MAX_RESULTS: usize = 128;

/// "refs/heads/", where local branches live.
pub open spec fn local_prefix() -> Seq<u8> {
    seq![0x72u8, 0x65, 0x66, 0x73, 0x2f, 0x68, 0x65, 0x61, 0x64, 0x73, 0x2f]
}

/// "refs/remotes/", where remote branches live.
pub open spec fn remote_prefix() -> Seq<u8> {
    seq![0x72u8, 0x65, 0x66, 0x73, 0x2f, 0x72, 0x65, 0x6d, 0x6f, 0x74, 0x65, 0x73, 0x2f]
}

fn local_prefix_bytes() -> (r: Vec<u8>)
    ensures
        r@ == local_prefix(),
{
    let r = vec![0x72u8, 0x65, 0x66, 0x73, 0x2f, 0x68, 0x65, 0x61, 0x64, 0x73, 0x2f];
    proof {
        assert(r@ =~= local_prefix());
    }
    r
}

fn remote_prefix_bytes() -> (r: Vec<u8>)
    ensures
        r@ == remote_prefix(),
{
    let r = vec![0x72u8, 0x65, 0x66, 0x73, 0x2f, 0x72, 0x65, 0x6d, 0x6f, 0x74, 0x65, 0x73, 0x2f];
    proof {
        assert(r@ =~= remote_prefix());
    }
    r
}

/// Names the bytes of `String::from_utf8_lossy` of `b`.
pub uninterp spec fn utf8_lossy(b: Seq<u8>) -> Seq<u8>;

/// Calls `String::from_utf8_lossy`, which replaces each invalid UTF-8
/// sequence of `bytes` by U+FFFD; the claim names the result and states what
/// its documentation says of valid input: it comes back unchanged.
#[verifier::external_body]
fn lossy(bytes: &[u8]) -> (r: Vec<u8>)
    ensures
        r@ == utf8_lossy(bytes@),
        valid_utf8(bytes@) ==> r@ == bytes@,
{
    String::from_utf8_lossy(bytes).into_owned().into_bytes()
}

/// The decimal digits of `n`.
pub open spec fn spec_decimal(n: nat) -> Seq<u8>
    decreases n,
{
    if n < 10 {
        seq![(0x30 + n) as u8]
    } else {
        spec_decimal(n / 10).push((0x30 + n % 10) as u8)
    }
}

/// The decimal digits of `n`.
pub fn decimal(n: usize) -> (r: Vec<u8>)
    ensures
        r@ == spec_decimal(n as nat),
    decreases n,
{
    if n < 10 {
        let r = vec![(0x30 + n) as u8];
        proof {
            assert(r@ =~= spec_decimal(n as nat));
        }
        r
    } else {
        let mut r = decimal(n / 10);
        r.push((0x30 + n % 10) as u8);
        r
    }
}

/// The short name of the first reference named `full`, or `full` itself.
pub open spec fn short_of(refs: Seq<(Seq<u8>, Seq<u8>)>, full: Seq<u8>) -> Seq<u8>
    decreases refs.len(),
{
    if refs.len() == 0 {
        full
    } else if refs[0].0 == full {
        refs[0].1
    } else {
        short_of(refs.drop_first(), full)
    }
}

fn find_short(refs: &Vec<NamedRef>, full: &[u8]) -> (r: Vec<u8>)
    ensures
        r@ == short_of(ref_names(refs@), full@),
{
    let mut i: usize = 0;
    proof {
        assert(ref_names(refs@).subrange(0, refs@.len() as int) =~= ref_names(refs@));
    }
    while i < refs.len()
        invariant
            i <= refs@.len(),
            short_of(ref_names(refs@), full@) == short_of(
                ref_names(refs@).subrange(i as int, refs@.len() as int),
                full@,
            ),
        decreases refs@.len() - i,
    {
        proof {
            assert(ref_names(refs@).subrange(i as int, refs@.len() as int).drop_first() =~= ref_names(
                refs@,
            ).subrange(i + 1, refs@.len() as int));
            assert(ref_names(refs@).subrange(i as int, refs@.len() as int)[0] == refs@[i as int]@);
        }
        if crate::reftable::keys::compare_bytes(refs[i].full.as_slice(), full) == crate::reftable::keys::KeyOrder::Equal {
            proof {
                crate::reftable::keys::lemma_lex_equal(refs@[i as int].full@, full@);
            }
            return copy_bytes(refs[i].short.as_slice());
        }
        proof {
            crate::reftable::keys::lemma_lex_equal(refs@[i as int].full@, full@);
        }
        i = i + 1;
    }
    copy_bytes(full)
}

/// The references whose full name starts with `p`.
pub open spec fn with_prefix(refs: Seq<(Seq<u8>, Seq<u8>)>, p: Seq<u8>) -> Seq<(Seq<u8>, Seq<u8>)>
    decreases refs.len(),
{
    if refs.len() == 0 {
        Seq::empty()
    } else {
        let rest = with_prefix(refs.drop_last(), p);
        if starts_with(refs.last().0, p) {
            rest.push(refs.last())
        } else {
            rest
        }
    }
}

fn filter_prefix(refs: &Vec<NamedRef>, p: &[u8]) -> (r: Vec<NamedRef>)
    ensures
        ref_names(r@) == with_prefix(ref_names(refs@), p@),
        forall|i: int| 0 <= i < r@.len() ==> exists|j: int| 0 <= j < refs@.len() && #[trigger] r@[i]@ == refs@[j]@,
{
    let mut out: Vec<NamedRef> = Vec::new();
    let mut i: usize = 0;
    while i < refs.len()
        invariant
            i <= refs@.len(),
            ref_names(out@) == with_prefix(ref_names(refs@.subrange(0, i as int)), p@),
            forall|k: int| 0 <= k < out@.len() ==> exists|j: int| 0 <= j < refs@.len() && #[trigger] out@[k]@ == refs@[j]@,
        decreases refs@.len() - i,
    {
        proof {
            assert(ref_names(refs@.subrange(0, i + 1)).drop_last() =~= ref_names(refs@.subrange(0, i as int)));
            assert(ref_names(refs@.subrange(0, i + 1)).last() == refs@[i as int]@);
        }
        let ghost before = out@;
        if has_prefix(refs[i].full.as_slice(), p) {
            out.push(NamedRef {
                full: copy_bytes(refs[i].full.as_slice()),
                short: copy_bytes(refs[i].short.as_slice()),
            });
            proof {
                assert(ref_names(out@) =~= ref_names(before).push(refs@[i as int]@));
                assert(out@[out@.len() - 1]@ == refs@[i as int]@);
                assert forall|k: int| 0 <= k < out@.len() implies exists|j: int| 0 <= j < refs@.len() && #[trigger] out@[k]@ == refs@[j]@ by {
                    if k < before.len() {
                        assert(out@[k] == before[k]);
                    } else {
                        assert(out@[k]@ == refs@[i as int]@);
                    }
                }
            }
        }
        i = i + 1;
    }
    proof {
        assert(refs@.subrange(0, refs@.len() as int) =~= refs@);
    }
    out
}


/// The branches to print, local and remote, as shortened names with
/// invalid UTF-8 replaced: references outside `prefix` (where one is given)
/// are left out; a reference under "refs/heads/" is local and one under
/// "refs/remotes/" remote, each only where that kind is shown.
pub open spec fn split_branches(
    refs: Seq<(Seq<u8>, Seq<u8>)>,
    prefix: Option<Seq<u8>>,
    show_local: bool,
    show_remotes: bool,
) -> (Seq<Seq<u8>>, Seq<Seq<u8>>)
    decreases refs.len(),
{
    if refs.len() == 0 {
        (Seq::empty(), Seq::empty())
    } else {
        let (l, r) = split_branches(refs.drop_last(), prefix, show_local, show_remotes);
        let full = refs.last().0;
        let name = utf8_lossy(refs.last().1);
        let in_scope = match prefix {
            None => true,
            Some(p) => starts_with(full, p),
        };
        if in_scope && show_local && starts_with(full, local_prefix()) {
            (l.push(name), r)
        } else if in_scope && show_remotes && starts_with(full, remote_prefix()) {
            (l, r.push(name))
        } else {
            (l, r)
        }
    }
}

/// The listing without a fuzzy query: local branches, then remote ones,
/// each group sorted where asked.
pub open spec fn plain_listing(
    refs: Seq<(Seq<u8>, Seq<u8>)>,
    prefix: Option<Seq<u8>>,
    show_local: bool,
    show_remotes: bool,
    sort: bool,
) -> Seq<Seq<u8>> {
    let (l, r) = split_branches(refs, prefix, show_local, show_remotes);
    if sort {
        l.sort_by(lex_le_fn()) + r.sort_by(lex_le_fn())
    } else {
        l + r
    }
}

/// Law: sorting a plain listing only reorders the lines within each group:
/// the local branches still come first, then the remote ones, each group
/// keeping its lines, now in order.
pub proof fn lemma_sorted_listing_groups(
    refs: Seq<(Seq<u8>, Seq<u8>)>,
    prefix: Option<Seq<u8>>,
    show_local: bool,
    show_remotes: bool,
)
    ensures
        ({
            let (l, r) = split_branches(refs, prefix, show_local, show_remotes);
            let ls = l.sort_by(lex_le_fn());
            let rs = r.sort_by(lex_le_fn());
            &&& plain_listing(refs, prefix, show_local, show_remotes, false) == l + r
            &&& plain_listing(refs, prefix, show_local, show_remotes, true) == ls + rs
            &&& ls.to_multiset() == l.to_multiset()
            &&& rs.to_multiset() == r.to_multiset()
            &&& sorted_by(ls, lex_le_fn())
            &&& sorted_by(rs, lex_le_fn())
        }),
{
    let (l, r) = split_branches(refs, prefix, show_local, show_remotes);
    lemma_lex_total();
    l.lemma_sort_by_ensures(lex_le_fn());
    r.lemma_sort_by_ensures(lex_le_fn());
}

/// The lines for fuzzy hits `hits`: for each local or remote branch that is
/// shown, its short name (invalid UTF-8 replaced), a tab and its score.
pub open spec fn fuzzy_lines(
    refs: Seq<(Seq<u8>, Seq<u8>)>,
    hits: Seq<(Seq<u8>, usize)>,
    show_local: bool,
    show_remotes: bool,
) -> Seq<Seq<u8>>
    decreases hits.len(),
{
    if hits.len() == 0 {
        Seq::empty()
    } else {
        let rest = fuzzy_lines(refs, hits.drop_last(), show_local, show_remotes);
        let h = hits.last();
        if (show_local && starts_with(h.0, local_prefix())) || (show_remotes && starts_with(
            h.0,
            remote_prefix(),
        )) {
            rest.push(utf8_lossy(short_of(refs, h.0)) + seq![0x09u8] + spec_decimal(h.1 as nat))
        } else {
            rest
        }
    }
}

/// Law: the lines of a fuzzy listing are those of the hits that are
/// branches shown, in the order of the hits: local branches (under
/// `refs/heads/`) where they are shown, remote ones (under `refs/remotes/`)
/// where remotes are; each line is the hit's short name, a tab and its
/// score. Tags, `HEAD` and every other hit give no line.
pub proof fn lemma_fuzzy_lines_are_branches(
    refs: Seq<(Seq<u8>, Seq<u8>)>,
    hits: Seq<(Seq<u8>, usize)>,
    show_local: bool,
    show_remotes: bool,
)
    ensures
        fuzzy_lines(refs, hits, show_local, show_remotes) == hits.filter(
            |h: (Seq<u8>, usize)|
                (show_local && starts_with(h.0, local_prefix())) || (show_remotes && starts_with(h.0, remote_prefix())),
        ).map_values(
            |h: (Seq<u8>, usize)| utf8_lossy(short_of(refs, h.0)) + seq![0x09u8] + spec_decimal(h.1 as nat),
        ),
    decreases hits.len(),
{
    let pred = |h: (Seq<u8>, usize)|
        (show_local && starts_with(h.0, local_prefix())) || (show_remotes && starts_with(h.0, remote_prefix()));
    let line = |h: (Seq<u8>, usize)| utf8_lossy(short_of(refs, h.0)) + seq![0x09u8] + spec_decimal(h.1 as nat);
    reveal_with_fuel(Seq::filter, 1);
    if hits.len() > 0 {
        lemma_fuzzy_lines_are_branches(refs, hits.drop_last(), show_local, show_remotes);
        let sub = hits.drop_last().filter(pred);
        assert(hits.filter(pred) == if pred(hits.last()) { sub.push(hits.last()) } else { sub });
        if pred(hits.last()) {
            assert(sub.push(hits.last()).map_values(line) =~= sub.map_values(line).push(line(hits.last())));
        }
    } else {
        assert(hits.filter(pred).map_values(line) =~= Seq::<Seq<u8>>::empty());
    }
}

/// Whether `line` is the line of a hit among `hits` that is a branch shown:
/// under `refs/heads/` where local branches are shown, or under
/// `refs/remotes/` where remotes are.
pub open spec fn is_branch_hit_line(
    refs: Seq<(Seq<u8>, Seq<u8>)>,
    hits: Seq<(Seq<u8>, usize)>,
    show_local: bool,
    show_remotes: bool,
    line: Seq<u8>,
) -> bool {
    exists|h: (Seq<u8>, usize)|
        #[trigger] hits.contains(h) && ((show_local && starts_with(h.0, local_prefix())) || (show_remotes
            && starts_with(h.0, remote_prefix()))) && line == utf8_lossy(short_of(refs, h.0)) + seq![0x09u8]
            + spec_decimal(h.1 as nat)
}

/// Law: every line of a fuzzy listing is that of a hit that is a branch
/// shown (see `is_branch_hit_line`): tags, `HEAD` and other hits give none.
pub proof fn lemma_fuzzy_line_sources(
    refs: Seq<(Seq<u8>, Seq<u8>)>,
    hits: Seq<(Seq<u8>, usize)>,
    show_local: bool,
    show_remotes: bool,
)
    ensures
        forall|k: int|
            0 <= k < fuzzy_lines(refs, hits, show_local, show_remotes).len() ==> is_branch_hit_line(
                refs,
                hits,
                show_local,
                show_remotes,
                #[trigger] fuzzy_lines(refs, hits, show_local, show_remotes)[k],
            ),
{
    let pred = |h: (Seq<u8>, usize)|
        (show_local && starts_with(h.0, local_prefix())) || (show_remotes && starts_with(h.0, remote_prefix()));
    lemma_fuzzy_lines_are_branches(refs, hits, show_local, show_remotes);
    let f = hits.filter(pred);
    let lines = fuzzy_lines(refs, hits, show_local, show_remotes);
    assert forall|k: int| 0 <= k < lines.len() implies is_branch_hit_line(
        refs,
        hits,
        show_local,
        show_remotes,
        #[trigger] lines[k],
    ) by {
        let h = f[k];
        hits.lemma_filter_pred(pred, k);
        assert(f.contains(h));
        hits.lemma_filter_contains_rev(pred, h);
        assert(lines[k] == utf8_lossy(short_of(refs, h.0)) + seq![0x09u8] + spec_decimal(h.1 as nat));
    }
}

/// Whether `lines` is a fuzzy listing for `query` over the references
/// `pool`: the best hits (see `find_in_repo`), ordered by name where asked,
/// printed by `fuzzy_lines`; of hits with equal scores or names either may
/// come first.
pub open spec fn is_fuzzy_listing(
    refs: Seq<(Seq<u8>, Seq<u8>)>,
    pool: Seq<(Seq<u8>, Seq<u8>)>,
    query: Seq<char>,
    show_local: bool,
    show_remotes: bool,
    sort: bool,
    lines: Seq<Seq<u8>>,
) -> bool {
    exists|hits: Seq<(Seq<u8>, usize)>, hs: Seq<(Seq<u8>, usize)>|
        #[trigger] fuzzy_listing_from(refs, pool, query, show_local, show_remotes, sort, lines, hits, hs)
}

/// `lines` is the fuzzy listing made of the hits `hits`, ordered as `hs`.
pub open spec fn fuzzy_listing_from(
    refs: Seq<(Seq<u8>, Seq<u8>)>,
    pool: Seq<(Seq<u8>, Seq<u8>)>,
    query: Seq<char>,
    show_local: bool,
    show_remotes: bool,
    sort: bool,
    lines: Seq<Seq<u8>>,
    hits: Seq<(Seq<u8>, usize)>,
    hs: Seq<(Seq<u8>, usize)>,
) -> bool {
    &&& (search_is_void(query, MAX_RESULTS) ==> hits.len() == 0)
    &&& hits.len() <= MAX_RESULTS
    &&& (forall|j: int, k: int| 0 <= j < k < hits.len() ==> hits[j].1 >= hits[k].1)
    &&& (!search_is_void(query, MAX_RESULTS) && free_of_backslash(pool) ==> is_best_selection(
        spec_candidates(query, pool),
        MAX_RESULTS as nat,
        hits,
    ))
    &&& (sort ==> hs.to_multiset() == hits.to_multiset() && sorted_by_name(hs))
    &&& (!sort ==> hs == hits)
    &&& lines == fuzzy_lines(refs, hs, show_local, show_remotes)
}

/// Whether `line` prints a branch: the short name of a reference under
/// `refs/heads/`, or under `refs/remotes/` where remotes are shown, a tab
/// and a score.
pub open spec fn prints_branch(refs: Seq<(Seq<u8>, Seq<u8>)>, show_remotes: bool, line: Seq<u8>) -> bool {
    exists|full: Seq<u8>, score: usize|
        (starts_with(full, local_prefix()) || (show_remotes && starts_with(full, remote_prefix()))) && #[trigger] (
        utf8_lossy(short_of(refs, full)) + seq![0x09u8] + spec_decimal(score as nat)) == line
}

/// Law: every line of a fuzzy branch listing prints a local branch, or a
/// remote one where remotes are shown; no tag, `HEAD` or other reference is
/// listed.
pub proof fn lemma_fuzzy_listing_prints_branches(
    refs: Seq<(Seq<u8>, Seq<u8>)>,
    pool: Seq<(Seq<u8>, Seq<u8>)>,
    query: Seq<char>,
    show_remotes: bool,
    sort: bool,
    lines: Seq<Seq<u8>>,
)
    requires
        is_fuzzy_listing(refs, pool, query, true, show_remotes, sort, lines),
    ensures
        forall|k: int| 0 <= k < lines.len() ==> prints_branch(refs, show_remotes, #[trigger] lines[k]),
{
    let (hits, hs) = choose|hits: Seq<(Seq<u8>, usize)>, hs: Seq<(Seq<u8>, usize)>|
        fuzzy_listing_from(refs, pool, query, true, show_remotes, sort, lines, hits, hs);
    lemma_fuzzy_line_sources(refs, hs, true, show_remotes);
    assert forall|k: int| 0 <= k < lines.len() implies prints_branch(refs, show_remotes, #[trigger] lines[k]) by {
        assert(lines[k] == fuzzy_lines(refs, hs, true, show_remotes)[k]);
        assert(is_branch_hit_line(refs, hs, true, show_remotes, lines[k]));
        let h = choose|h: (Seq<u8>, usize)|
            #[trigger] hs.contains(h) && ((true && starts_with(h.0, local_prefix())) || (show_remotes && starts_with(
                h.0,
                remote_prefix(),
            ))) && lines[k] == utf8_lossy(short_of(refs, h.0)) + seq![0x09u8] + spec_decimal(h.1 as nat);
        assert(utf8_lossy(short_of(refs, h.0)) + seq![0x09u8] + spec_decimal(h.1 as nat) == lines[k]);
    }
}

/// The prefix of the options as bytes, if there is one.
pub open spec fn prefix_bytes(o: Option<String>) -> Option<Seq<u8>> {
    match o {
        Some(p) => Some(encode_utf8(p@)),
        None => None,
    }
}

/// Whether remote branches are shown for `kind`.
pub open spec fn shows_remotes(kind: Kind) -> bool {
    kind == Kind::All
}

/// List the branches among the references `refs` (in the order their store
/// yields them) as lines of text (see `plain_listing` and
/// `is_fuzzy_listing`).
pub fn list(refs: &Vec<NamedRef>, format: OutputFormat, options: &Options) -> (r: Result<Vec<Vec<u8>>, ListError>)
    requires
        format == OutputFormat::Human ==> match options.fuzzy {
            Some(q) => !query_is_blank(q@) ==> q@.len() <= MAX_QUERY_CHARS && forall|i: int|
                0 <= i < refs@.len() ==> (#[trigger] refs@[i]).full@.len() <= u32::MAX && refs@[i].short@.len()
                    <= u32::MAX,
            None => true,
        },
    ensures
        format == OutputFormat::Json ==> r == Err::<Vec<Vec<u8>>, ListError>(ListError::JsonUnsupported),
        format == OutputFormat::Human ==> (r matches Ok(lines) && match options.fuzzy {
            Some(q) => is_fuzzy_listing(
                ref_names(refs@),
                match prefix_bytes(options.prefix) {
                    Some(p) => with_prefix(ref_names(refs@), p),
                    None => ref_names(refs@),
                },
                q@,
                true,
                shows_remotes(options.kind),
                options.sort,
                byte_strings(lines@),
            ),
            None => byte_strings(lines@) == plain_listing(
                ref_names(refs@),
                prefix_bytes(options.prefix),
                true,
                shows_remotes(options.kind),
                options.sort,
            ),
        }),
{
    if format != OutputFormat::Human {
        return Err(ListError::JsonUnsupported);
    }

    let (show_local, show_remotes) = match options.kind {
        Kind::Local => (true, false),
        Kind::All => (true, true),
    };
    let local_p = local_prefix_bytes();
    let remote_p = remote_prefix_bytes();

    if let Some(query) = &options.fuzzy {
        let pool = match &options.prefix {
            Some(prefix) => filter_prefix(refs, prefix.as_str().as_bytes()),
            None => {
                let mut all: Vec<NamedRef> = Vec::new();
                let mut i: usize = 0;
                while i < refs.len()
                    invariant
                        i <= refs@.len(),
                        ref_names(all@) == ref_names(refs@.subrange(0, i as int)),
                        all@.len() == i,
                        forall|k: int| 0 <= k < i ==> #[trigger] all@[k]@ == refs@[k]@,
                    decreases refs@.len() - i,
                {
                    all.push(NamedRef {
                        full: copy_bytes(refs[i].full.as_slice()),
                        short: copy_bytes(refs[i].short.as_slice()),
                    });
                    proof {
                        assert(ref_names(all@) =~= ref_names(refs@.subrange(0, i + 1)));
                    }
                    i = i + 1;
                }
                proof {
                    assert(refs@.subrange(0, refs@.len() as int) =~= refs@);
                }
                all
            },
        };
        proof {
            assert forall|i: int| !query_is_blank(query@) && 0 <= i < pool@.len() implies (
            #[trigger] pool@[i]).full@.len() <= u32::MAX && pool@[i].short@.len() <= u32::MAX by {
                if options.prefix is Some {
                    let j = choose|j: int| 0 <= j < refs@.len() && pool@[i]@ == refs@[j]@;
                    assert(refs@[j].full@.len() <= u32::MAX);
                } else {
                    assert(pool@[i]@ == refs@[i]@);
                }
            }
        }
        let mut hits = find_in_repo(&pool, query.as_str(), MAX_RESULTS);
        let ghost found = hits@.map_values(|m: Match| m@);
        if options.sort {
            sort_by_name(&mut hits);
        }
        let ghost ordered = hits@.map_values(|m: Match| m@);
        let mut lines: Vec<Vec<u8>> = Vec::new();
        let mut i: usize = 0;
        while i < hits.len()
            invariant
                i <= hits@.len(),
                ordered == hits@.map_values(|m: Match| m@),
                byte_strings(lines@) == fuzzy_lines(ref_names(refs@), ordered.subrange(0, i as int), show_local, show_remotes),
                show_local,
                show_remotes == shows_remotes(options.kind),
                local_p@ == local_prefix(),
                remote_p@ == remote_prefix(),
            decreases hits@.len() - i,
        {
            let name = hits[i].name();
            let is_local = has_prefix(name, local_p.as_slice());
            let is_remote = has_prefix(name, remote_p.as_slice());
            proof {
                assert(ordered.subrange(0, i + 1).drop_last() =~= ordered.subrange(0, i as int));
                assert(ordered.subrange(0, i + 1).last() == hits@[i as int]@);
            }
            let ghost before = byte_strings(lines@);
            if is_local && show_local || is_remote && show_remotes {
                let short = find_short(refs, name);
                let mut line = lossy(short.as_slice());
                line.push(0x09u8);
                let mut digits = decimal(hits[i].score());
                line.append(&mut digits);
                proof {
                    assert(line@ =~= utf8_lossy(short_of(ref_names(refs@), hits@[i as int]@.0)) + seq![0x09u8]
                        + spec_decimal(hits@[i as int]@.1 as nat));
                }
                lines.push(line);
                proof {
                    assert(byte_strings(lines@) =~= before.push(lines@[lines@.len() - 1]@));
                }
            }
            i = i + 1;
        }
        proof {
            assert(ordered.subrange(0, ordered.len() as int) =~= ordered);
            let pool_names = match prefix_bytes(options.prefix) {
                Some(p) => with_prefix(ref_names(refs@), p),
                None => ref_names(refs@),
            };
            assert(ref_names(pool@) == pool_names);
            assert(fuzzy_listing_from(
                ref_names(refs@),
                pool_names,
                query@,
                show_local,
                show_remotes,
                options.sort,
                byte_strings(lines@),
                found,
                ordered,
            ));
        }
        return Ok(lines);
    }

    let mut local: Vec<Vec<u8>> = Vec::new();
    let mut remote: Vec<Vec<u8>> = Vec::new();
    let mut i: usize = 0;
    while i < refs.len()
        invariant
            i <= refs@.len(),
            (byte_strings(local@), byte_strings(remote@)) == split_branches(
                ref_names(refs@.subrange(0, i as int)),
                prefix_bytes(options.prefix),
                show_local,
                show_remotes,
            ),
            show_local,
            show_remotes == shows_remotes(options.kind),
            local_p@ == local_prefix(),
            remote_p@ == remote_prefix(),
        decreases refs@.len() - i,
    {
        let full = refs[i].full.as_slice();
        proof {
            assert(ref_names(refs@.subrange(0, i + 1)).drop_last() =~= ref_names(refs@.subrange(0, i as int)));
            assert(ref_names(refs@.subrange(0, i + 1)).last() == refs@[i as int]@);
        }
        let in_scope = match &options.prefix {
            None => true,
            Some(p) => has_prefix(full, p.as_str().as_bytes()),
        };
        let ghost lb = byte_strings(local@);
        let ghost rb = byte_strings(remote@);
        if in_scope && show_local && has_prefix(full, local_p.as_slice()) {
            local.push(lossy(refs[i].short.as_slice()));
            proof {
                assert(byte_strings(local@) =~= lb.push(utf8_lossy(refs@[i as int].short@)));
            }
        } else if in_scope && show_remotes && has_prefix(full, remote_p.as_slice()) {
            remote.push(lossy(refs[i].short.as_slice()));
            proof {
                assert(byte_strings(remote@) =~= rb.push(utf8_lossy(refs@[i as int].short@)));
            }
        }
        i = i + 1;
    }
    proof {
        assert(refs@.subrange(0, refs@.len() as int) =~= refs@);
    }
    if options.sort {
        sort_byte_strings(&mut local);
        sort_byte_strings(&mut remote);
    }
    let ghost lb = byte_strings(local@);
    let ghost rb = byte_strings(remote@);
    local.append(&mut remote);
    proof {
        assert(byte_strings(local@) =~= lb + rb);
    }
    Ok(local)
}

} // verus!
