//! Fuzzy search over reference names, keeping the best scored hits.
use crate::reftable::copy_bytes;
use crate::reftable::keys::{compare_bytes, lemma_lex_equal, lemma_lex_flip, lemma_lex_trans, lex_le, KeyOrder};
use nucleo_matcher::pattern::{CaseMatching, Normalization, Pattern};
use vstd::prelude::*;
use vstd::string::StringSliceAdditionalSpecFns;
use vstd::utf8::{decode_utf8, encode_utf8, valid_utf8};

verus! {

/// Whether `b` is ASCII whitespace: space, tab, line feed, form feed or
/// carriage return.
pub open spec fn is_ascii_ws(b: u8) -> bool {
    b == 0x20 || b == 0x09 || b == 0x0a || b == 0x0c || b == 0x0d
}

/// `b` with an ASCII upper-case letter turned into lower case.
pub open spec fn ascii_lower(b: u8) -> u8 {
    if 0x41 <= b <= 0x5a {
        (b + 32) as u8
    } else {
        b
    }
}

fn is_ascii_whitespace(b: u8) -> (r: bool)
    ensures
        r == is_ascii_ws(b),
{
    b == 0x20 || b == 0x09 || b == 0x0a || b == 0x0c || b == 0x0d
}

fn to_ascii_lowercase(b: u8) -> (r: u8)
    ensures
        r == ascii_lower(b),
{
    if 0x41 <= b && b <= 0x5a {
        b + 32
    } else {
        b
    }
}

/// The bytes of `s` without ASCII whitespace, lower-cased.
pub open spec fn spec_normalize(s: Seq<u8>) -> Seq<u8>
    decreases s.len(),
{
    if s.len() == 0 {
        Seq::empty()
    } else {
        let rest = spec_normalize(s.drop_last());
        if is_ascii_ws(s.last()) {
            rest
        } else {
            rest.push(ascii_lower(s.last()))
        }
    }
}

/// Drop ASCII whitespace and lower-case ASCII letters.
pub fn normalize(input: &[u8]) -> (r: Vec<u8>)
    ensures
        r@ == spec_normalize(input@),
{
    let mut out: Vec<u8> = Vec::new();
    let mut i: usize = 0;
    while i < input.len()
        invariant
            i <= input@.len(),
            out@ == spec_normalize(input@.subrange(0, i as int)),
        decreases input@.len() - i,
    {
        proof {
            assert(input@.subrange(0, i + 1).drop_last() =~= input@.subrange(0, i as int));
        }
        let b = input[i];
        if !is_ascii_whitespace(b) {
            out.push(to_ascii_lowercase(b));
        }
        i = i + 1;
    }
    proof {
        assert(input@.subrange(0, input@.len() as int) =~= input@);
    }
    out
}

/// Law: normalizing twice is normalizing once.
pub proof fn lemma_normalize_idempotent(s: Seq<u8>)
    ensures
        spec_normalize(spec_normalize(s)) == spec_normalize(s),
    decreases s.len(),
{
    if s.len() > 0 {
        lemma_normalize_idempotent(s.drop_last());
        let rest = spec_normalize(s.drop_last());
        if !is_ascii_ws(s.last()) {
            let n = rest.push(ascii_lower(s.last()));
            assert(n.drop_last() =~= rest);
        }
    }
}

/// Calls `std::str::from_utf8`, which gives the string that `bytes` encode
/// where they are valid UTF-8 and an error otherwise; the claim states just
/// that, by vstd's UTF-8 definitions.
#[verifier::external_body]
pub(crate) fn utf8_str<'a>(bytes: &'a [u8]) -> (r: Option<&'a str>)
    ensures
        match r {
            Some(s) => valid_utf8(bytes@) && s@ == decode_utf8(bytes@),
            None => !valid_utf8(bytes@),
        },
{
    std::str::from_utf8(bytes).ok()
}

#[verifier::external_type_specification]
#[verifier::external_body]
pub struct ExNucleoPattern(nucleo_matcher::pattern::Pattern);

#[verifier::external_type_specification]
#[verifier::external_body]
pub struct ExNucleoMatcher(nucleo_matcher::Matcher);

/// The longest query, in chars, that is scored. Nucleo adds up the score of
/// one pattern atom in a `u16`, at most 34 for the first matched char and 25
/// for each further one with the path configuration; an atom is no longer
/// than its query, so up to this length no sum can overflow.
pub const MAX_QUERY_CHARS: usize = 2560;

/// A search query with the nucleo pattern parsed from it and the matcher
/// that scores with it, configured for paths. Its fields are private and
/// `nucleo_state` is its only constructor.
pub struct NucleoState {
    query: String,
    pattern: nucleo_matcher::pattern::Pattern,
    matcher: nucleo_matcher::Matcher,
}

impl View for NucleoState {
    type V = Seq<char>;

    closed spec fn view(&self) -> Seq<char> {
        self.query@
    }
}

/// Names whether nucleo's pattern for `query` has no atoms.
pub uninterp spec fn nucleo_pattern_is_empty(query: Seq<char>) -> bool;

/// Names the score nucleo gives `haystack`, a string without a backslash,
/// for the pattern of `query`, with a matcher configured for paths. (Only
/// whether a backslash delimits words differs between the targets that
/// configuration is built for.)
pub uninterp spec fn nucleo_path_score(query: Seq<char>, haystack: Seq<char>) -> Option<u32>;

/// Calls `nucleo_matcher::pattern::Pattern::parse` on `query` with smart
/// case matching and smart normalization, and `nucleo_matcher::Matcher::new`
/// with `Config::DEFAULT.match_paths()`, and keeps the query beside them;
/// the claim is only that the query kept is `query`.
#[verifier::external_body]
fn nucleo_state(query: &str) -> (r: NucleoState)
    ensures
        r@ == query@,
{
    NucleoState {
        query: query.to_string(),
        pattern: Pattern::parse(query, CaseMatching::Smart, Normalization::Smart),
        matcher: nucleo_matcher::Matcher::new(nucleo_matcher::Config::DEFAULT.match_paths()),
    }
}

/// Reads the `atoms` of the pattern that `nucleo_state` parsed: the claim is
/// that whether it has none depends on the query alone.
#[verifier::external_body]
fn pattern_is_empty(p: &NucleoState) -> (r: bool)
    ensures
        r == nucleo_pattern_is_empty(p@),
{
    p.pattern.atoms.is_empty()
}

/// Calls `Pattern::score` of the pattern that `nucleo_state` parsed on
/// `haystack`, with the matcher made beside it. The claim is that the query
/// kept is unchanged and that, for a haystack without a backslash, the
/// score depends on the query and the haystack alone: the call only sets
/// the case and normalization flags of the matcher from each atom before
/// scoring with it, and the path configuration differs between targets in
/// the class of a backslash alone. Of a haystack with a backslash nothing is
/// claimed. Nucleo asserts that a haystack has at most `u32::MAX` chars, and
/// `MAX_QUERY_CHARS` keeps its sums from overflowing.
#[verifier::external_body]
fn pattern_score(p: &mut NucleoState, haystack: &str) -> (r: Option<u32>)
    requires
        old(p)@.len() <= MAX_QUERY_CHARS,
        haystack@.len() <= u32::MAX,
    ensures
        final(p)@ == old(p)@,
        !haystack@.contains('\\') ==> r == nucleo_path_score(old(p)@, haystack@),
{
    let mut buf = Vec::new();
    p.pattern.score(nucleo_matcher::Utf32Str::new(haystack, &mut buf), &mut p.matcher)
}

/// The greater of two optional scores, none being less than any.
pub open spec fn max_score(a: Option<u32>, b: Option<u32>) -> Option<usize> {
    match (a, b) {
        (None, None) => None,
        (Some(x), None) => Some(x as usize),
        (None, Some(y)) => Some(y as usize),
        (Some(x), Some(y)) => Some(if x >= y { x as usize } else { y as usize }),
    }
}

/// Whether the name `b` is UTF-8 for a string with a backslash, a char that
/// reference names never hold.
pub open spec fn has_backslash(b: Seq<u8>) -> bool {
    valid_utf8(b) && decode_utf8(b).contains('\\')
}

/// The score of a reference with full name `full` and short name `short`:
/// the better of the scores of both names, or none where either name is not
/// UTF-8.
pub open spec fn spec_score(query: Seq<char>, full: Seq<u8>, short: Seq<u8>) -> Option<usize> {
    if !valid_utf8(full) || !valid_utf8(short) {
        None
    } else {
        max_score(
            nucleo_path_score(query, decode_utf8(full)),
            nucleo_path_score(query, decode_utf8(short)),
        )
    }
}

/// Law: a reference whose names are UTF-8 scores wherever either of its
/// names scores, at least as well as each, and with the score of one of
/// them; where neither name scores, or a name is not UTF-8, it does not
/// score.
pub proof fn lemma_score_is_best_of_names(query: Seq<char>, full: Seq<u8>, short: Seq<u8>)
    ensures
        !valid_utf8(full) || !valid_utf8(short) ==> spec_score(query, full, short) is None,
        valid_utf8(full) && valid_utf8(short) ==> {
            let f = nucleo_path_score(query, decode_utf8(full));
            let h = nucleo_path_score(query, decode_utf8(short));
            &&& f matches Some(x) ==> spec_score(query, full, short) matches Some(v) && v >= x
            &&& h matches Some(y) ==> spec_score(query, full, short) matches Some(v) && v >= y
            &&& f is None && h is None ==> spec_score(query, full, short) is None
            &&& spec_score(query, full, short) matches Some(v) ==> (f == Some(v as u32) || h == Some(v as u32))
        },
{
}

/// Score a reference by its full and its short name, the better of both
/// (see `spec_score`); none where either name is not UTF-8.
pub fn score(full: &[u8], short: &[u8], state: &mut NucleoState) -> (r: Option<usize>)
    requires
        old(state)@.len() <= MAX_QUERY_CHARS,
        full@.len() <= u32::MAX,
        short@.len() <= u32::MAX,
    ensures
        final(state)@ == old(state)@,
        !valid_utf8(full@) || !valid_utf8(short@) ==> r is None,
        !has_backslash(full@) && !has_backslash(short@) ==> r == spec_score(old(state)@, full@, short@),
{
    let full_str = utf8_str(full)?;
    let short_str = utf8_str(short)?;
    proof {
        lemma_decode_utf8_len(full@);
        lemma_decode_utf8_len(short@);
    }
    let full_score = pattern_score(state, full_str);
    let short_score = pattern_score(state, short_str);
    match (full_score, short_score) {
        (None, None) => None,
        (Some(x), None) => Some(x as usize),
        (None, Some(y)) => Some(y as usize),
        (Some(x), Some(y)) => Some(if x >= y { x as usize } else { y as usize }),
    }
}

/// A string decodes to no more chars than it has bytes.
proof fn lemma_decode_utf8_len(s: Seq<u8>)
    requires
        valid_utf8(s),
    ensures
        decode_utf8(s).len() <= s.len(),
    decreases s.len(),
{
    if s.len() > 0 {
        let l = vstd::utf8::length_of_first_scalar(s);
        assert(1 <= l <= s.len());
        let rest = vstd::utf8::pop_first_scalar(s);
        assert(rest.len() == s.len() - l);
        lemma_decode_utf8_len(rest);
    }
}


/// A scored fuzzy-match hit for a reference name.
#[derive(Debug, Clone, PartialEq, Eq)]
pub struct Match {
    name: Vec<u8>,
    score: usize,
}

impl View for Match {
    type V = (Seq<u8>, usize);

    closed spec fn view(&self) -> (Seq<u8>, usize) {
        (self.name@, self.score)
    }
}

impl Match {
    /// Return the matched full reference name.
    pub fn name(&self) -> (r: &[u8])
        ensures
            r@ == self@.0,
    {
        self.name.as_slice()
    }

    /// Return the fuzzy-match score. Higher is better.
    pub fn score(&self) -> (r: usize)
        ensures
            r == self@.1,
    {
        self.score
    }
}

/// Errors of a fuzzy search, carrying the message of the failure below.
#[derive(Debug, Clone, PartialEq, Eq)]
pub enum Error {
    /// The reference store could not be opened.
    Open(String),
    /// The reference iteration could not be set up.
    Init(String),
    /// Could not iterate references.
    Iterate(String),
}

/// A candidate: the full name of a reference and its score.
#[derive(Debug, Clone, PartialEq, Eq)]
pub struct Scored {
    pub score: usize,
    pub name: Vec<u8>,
}

/// The name and score of a candidate.
pub open spec fn scored_view(c: Scored) -> (Seq<u8>, usize) {
    (c.name@, c.score)
}

/// Whether `r` is a best selection of at most `limit` of the candidates
/// `c`: each taken once, as many as the limit allows, by score from best to
/// worst, and none left out scoring better than one taken.
pub open spec fn is_best_selection(c: Seq<(Seq<u8>, usize)>, limit: nat, r: Seq<(Seq<u8>, usize)>) -> bool {
    &&& r.len() == if c.len() < limit { c.len() } else { limit }
    &&& forall|j: int, k: int| 0 <= j < k < r.len() ==> r[j].1 >= r[k].1
    &&& exists|sel: Seq<int>| is_selection_of(c, r, sel)
}

/// `sel` picks the entries of `r` out of `c`, each at most once, and every
/// entry of `c` it leaves out scores no better than any it picks.
pub open spec fn is_selection_of(c: Seq<(Seq<u8>, usize)>, r: Seq<(Seq<u8>, usize)>, sel: Seq<int>) -> bool {
    &&& sel.len() == r.len()
    &&& forall|j: int| 0 <= j < sel.len() ==> 0 <= #[trigger] sel[j] < c.len() && r[j] == c[sel[j]]
    &&& forall|j: int, k: int| 0 <= j < k < sel.len() ==> sel[j] != sel[k]
    &&& forall|i: int, j: int|
        0 <= i < c.len() && !sel.contains(i) && 0 <= j < r.len() ==> #[trigger] c[i].1 <= #[trigger] r[j].1
}

proof fn lemma_selection_swap(c: Seq<(Seq<u8>, usize)>, r: Seq<(Seq<u8>, usize)>, sel: Seq<int>, a: int, b: int)
    requires
        is_selection_of(c, r, sel),
        0 <= a < r.len(),
        0 <= b < r.len(),
    ensures
        is_selection_of(c, r.update(a, r[b]).update(b, r[a]), sel.update(a, sel[b]).update(b, sel[a])),
{
    let r2 = r.update(a, r[b]).update(b, r[a]);
    let s2 = sel.update(a, sel[b]).update(b, sel[a]);
    assert forall|i: int| s2.contains(i) <==> sel.contains(i) by {
        if sel.contains(i) {
            let j = choose|j: int| 0 <= j < sel.len() && sel[j] == i;
            if j == a {
                assert(s2[b] == i);
            } else if j == b {
                assert(s2[a] == i);
            } else {
                assert(s2[j] == i);
            }
        }
        if s2.contains(i) {
            let j = choose|j: int| 0 <= j < s2.len() && s2[j] == i;
            if j == a {
                assert(sel[b] == i);
            } else if j == b {
                assert(sel[a] == i);
            } else {
                assert(sel[j] == i);
            }
        }
    }
    assert forall|i: int, j: int|
        0 <= i < c.len() && !s2.contains(i) && 0 <= j < r2.len() implies #[trigger] c[i].1 <= #[trigger] r2[j].1 by {
        if j == a {
            assert(c[i].1 <= r[b].1);
        } else if j == b {
            assert(c[i].1 <= r[a].1);
        } else {
            assert(c[i].1 <= r[j].1);
        }
    }
}

/// Keep the `limit` best scored candidates, best first (see
/// `is_best_selection`); of candidates with equal scores either may be
/// kept.
pub fn select_best(candidates: &Vec<Scored>, limit: usize) -> (r: Vec<Match>)
    ensures
        is_best_selection(candidates@.map_values(|c: Scored| scored_view(c)), limit as nat, r@.map_values(|m: Match| m@)),
{
    let ghost cv = candidates@.map_values(|c: Scored| scored_view(c));
    let mut best: Vec<Match> = Vec::new();
    let ghost mut sel: Seq<int> = Seq::empty();
    let mut i: usize = 0;
    while i < candidates.len()
        invariant
            cv == candidates@.map_values(|c: Scored| scored_view(c)),
            i <= candidates@.len(),
            best@.len() == if i < limit { i as int } else { limit as int },
            is_selection_of(cv.subrange(0, i as int), best@.map_values(|m: Match| m@), sel),
            i <= limit ==> forall|k: int| 0 <= k < i ==> #[trigger] sel[k] == k,
        decreases candidates@.len() - i,
    {
        let ghost bv = best@.map_values(|m: Match| m@);
        let ghost pre = cv.subrange(0, i as int);
        let ghost next = cv.subrange(0, i + 1);
        assert(forall|k: int| 0 <= k < i ==> next[k] == pre[k]);
        let cand = &candidates[i];
        if best.len() < limit {
            best.push(Match { name: copy_bytes(cand.name.as_slice()), score: cand.score });
            proof {
                let nb = best@.map_values(|m: Match| m@);
                assert(nb =~= bv.push(cv[i as int]));
                let s2 = sel.push(i as int);
                assert forall|k: int| 0 <= k < next.len() implies s2.contains(k) by {
                    assert(s2[k] == k);
                }
                sel = s2;
            }
        } else if best.len() > 0 {
            // Find the worst kept candidate.
            let mut w: usize = 0;
            let mut j: usize = 1;
            while j < best.len()
                invariant
                    1 <= j <= best@.len(),
                    w < j,
                    forall|k: int| 0 <= k < j ==> best@[w as int].score <= best@[k].score,
                decreases best@.len() - j,
            {
                if best[j].score < best[w].score {
                    w = j;
                }
                j = j + 1;
            }
            if cand.score > best[w].score {
                let mut m = Match { name: copy_bytes(cand.name.as_slice()), score: cand.score };
                std::mem::swap(&mut best[w], &mut m);
                proof {
                    let nb = best@.map_values(|m: Match| m@);
                    assert(nb =~= bv.update(w as int, cv[i as int]));
                    let dropped = sel[w as int];
                    let s2 = sel.update(w as int, i as int);
                    assert forall|k: int| 0 <= k < next.len() && !s2.contains(k) implies (k < pre.len() && (
                    !sel.contains(k) || k == dropped)) by {
                        if k == i {
                            assert(s2[w as int] == k);
                        } else if sel.contains(k) && k != dropped {
                            let jj = choose|jj: int| 0 <= jj < sel.len() && sel[jj] == k;
                            assert(jj != w);
                            assert(s2[jj] == k);
                        }
                    }
                    assert forall|k: int, jx: int|
                        0 <= k < next.len() && !s2.contains(k) && 0 <= jx < nb.len() implies #[trigger] next[k].1
                        <= #[trigger] nb[jx].1 by {
                        assert(next[k] == pre[k]);
                        if k == dropped {
                            assert(pre[k] == bv[w as int]);
                            if jx != w {
                                assert(nb[jx] == bv[jx]);
                            }
                        } else {
                            assert(pre[k].1 <= bv[w as int].1);
                            if jx != w {
                                assert(nb[jx] == bv[jx]);
                            }
                        }
                    }
                    assert forall|a: int, b: int| 0 <= a < b < s2.len() implies s2[a] != s2[b] by {
                        if a != w && b != w {
                            assert(sel[a] != sel[b]);
                        }
                    }
                    sel = s2;
                }
            } else {
                proof {
                    assert forall|k: int, jx: int|
                        0 <= k < next.len() && !sel.contains(k) && 0 <= jx < bv.len() implies #[trigger] next[k].1
                        <= #[trigger] bv[jx].1 by {
                        if k < i {
                            assert(next[k] == pre[k]);
                        } else {
                            assert(next[k] == cv[i as int]);
                            assert(bv[w as int].1 <= bv[jx].1);
                        }
                    }
                }
            }
        } else {
            proof {
                assert(limit == 0);
            }
        }
        i = i + 1;
    }
    proof {
        assert(cv.subrange(0, candidates@.len() as int) =~= cv);
    }
    // Order best first.
    let mut s: usize = 0;
    while s < best.len()
        invariant
            s <= best@.len(),
            best@.len() == if candidates@.len() < limit { candidates@.len() as int } else { limit as int },
            is_selection_of(cv, best@.map_values(|m: Match| m@), sel),
            forall|j: int, k: int| 0 <= j < k < s ==> best@[j].score >= best@[k].score,
            forall|j: int, k: int| 0 <= j < s && s <= k < best@.len() ==> best@[j].score >= best@[k].score,
        decreases best@.len() - s,
    {
        let mut m = s;
        let mut j = s + 1;
        while j < best.len()
            invariant
                s <= m < best@.len(),
                s < j <= best@.len(),
                forall|k: int| s <= k < j ==> best@[m as int].score >= best@[k].score,
            decreases best@.len() - j,
        {
            if best[j].score > best[m].score {
                m = j;
            }
            j = j + 1;
        }
        let ghost bv = best@.map_values(|x: Match| x@);
        let ghost b0 = best@;
        if s != m {
            let mut tmp = Match { name: Vec::new(), score: 0 };
            std::mem::swap(&mut best[s], &mut tmp);
            std::mem::swap(&mut best[m], &mut tmp);
            std::mem::swap(&mut best[s], &mut tmp);
        }
        proof {
            lemma_selection_swap(cv, bv, sel, s as int, m as int);
            sel = sel.update(s as int, sel[m as int]).update(m as int, sel[s as int]);
            assert(best@.map_values(|x: Match| x@) =~= bv.update(s as int, bv[m as int]).update(m as int, bv[s as int]));
        }
        s = s + 1;
    }
    best
}


/// Whether the hits `h` are ordered by name.
pub open spec fn sorted_by_name(h: Seq<(Seq<u8>, usize)>) -> bool {
    forall|j: int, k: int| 0 <= j < k < h.len() ==> lex_le(h[j].0, h[k].0)
}

/// Order hits by name; hits with equal names keep no particular order.
pub fn sort_by_name(v: &mut Vec<Match>)
    ensures
        final(v)@.map_values(|m: Match| m@).to_multiset() == old(v)@.map_values(|m: Match| m@).to_multiset(),
        sorted_by_name(final(v)@.map_values(|m: Match| m@)),
{
    let ghost orig = v@.map_values(|m: Match| m@);
    let mut s: usize = 0;
    while s < v.len()
        invariant
            s <= v@.len(),
            v@.map_values(|m: Match| m@).to_multiset() == orig.to_multiset(),
            forall|j: int, k: int| 0 <= j < k < s ==> lex_le(v@[j]@.0, v@[k]@.0),
            forall|j: int, k: int| 0 <= j < s && s <= k < v@.len() ==> lex_le(v@[j]@.0, v@[k]@.0),
        decreases v@.len() - s,
    {
        let mut m = s;
        let mut j = s + 1;
        proof {
            lemma_lex_equal(v@[s as int]@.0, v@[s as int]@.0);
        }
        while j < v.len()
            invariant
                s <= m < v@.len(),
                s < j <= v@.len(),
                forall|k: int| s <= k < j ==> lex_le(v@[m as int]@.0, v@[k]@.0),
            decreases v@.len() - j,
        {
            let o = compare_bytes(v[j].name(), v[m].name());
            proof {
                lemma_lex_flip(v@[j as int]@.0, v@[m as int]@.0);
            }
            if o == KeyOrder::Less {
                proof {
                    assert forall|k: int| s <= k < j implies lex_le(v@[j as int]@.0, v@[k]@.0) by {
                        lemma_lex_trans(v@[j as int]@.0, v@[m as int]@.0, v@[k]@.0);
                    }
                    lemma_lex_equal(v@[j as int]@.0, v@[j as int]@.0);
                }
                m = j;
            }
            j = j + 1;
        }
        let ghost before = v@.map_values(|x: Match| x@);
        if s != m {
            let mut tmp = Match { name: Vec::new(), score: 0 };
            std::mem::swap(&mut v[s], &mut tmp);
            std::mem::swap(&mut v[m], &mut tmp);
            std::mem::swap(&mut v[s], &mut tmp);
        }
        proof {
            broadcast use vstd::multiset::group_multiset_axioms;
            broadcast use vstd::seq_lib::group_to_multiset_ensures;

            let after = v@.map_values(|x: Match| x@);
            let mid = before.update(s as int, before[m as int]);
            assert(after =~= mid.update(m as int, before[s as int]));
            vstd::seq_lib::to_multiset_update(before, s as int, before[m as int]);
            vstd::seq_lib::to_multiset_update(mid, m as int, before[s as int]);
            assert(before.to_multiset().contains(before[s as int]));
            assert(before.to_multiset().contains(before[m as int]));
            if s != m {
                assert(mid[m as int] == before[m as int]);
            }
            assert(after.to_multiset() =~= before.to_multiset());
        }
        s = s + 1;
    }
}

/// A reference to search: its full name and its short name.
#[derive(Debug, Clone, PartialEq, Eq)]
pub struct NamedRef {
    pub full: Vec<u8>,
    pub short: Vec<u8>,
}

impl View for NamedRef {
    type V = (Seq<u8>, Seq<u8>);

    open spec fn view(&self) -> (Seq<u8>, Seq<u8>) {
        (self.full@, self.short@)
    }
}

/// The names of the references `refs`.
pub open spec fn ref_names(refs: Seq<NamedRef>) -> Seq<(Seq<u8>, Seq<u8>)> {
    refs.map_values(|r: NamedRef| r@)
}

/// The references (full and short name) that score for `query`, with their
/// scores, in order.
pub open spec fn spec_candidates(query: Seq<char>, refs: Seq<(Seq<u8>, Seq<u8>)>) -> Seq<(Seq<u8>, usize)>
    decreases refs.len(),
{
    if refs.len() == 0 {
        Seq::empty()
    } else {
        let rest = spec_candidates(query, refs.drop_last());
        match spec_score(query, refs.last().0, refs.last().1) {
            Some(sc) => rest.push((refs.last().0, sc)),
            None => rest,
        }
    }
}

/// Whether `query` is empty or holds nothing but ASCII whitespace.
pub open spec fn query_is_blank(query: Seq<char>) -> bool {
    query.len() == 0 || spec_normalize(encode_utf8(query)).len() == 0
}

/// Whether `query` is empty or holds nothing but ASCII whitespace (see
/// `query_is_blank`).
pub fn is_blank_query(query: &str) -> (r: bool)
    ensures
        r == query_is_blank(query@),
{
    if query.is_empty() {
        return true;
    }
    let normalized = normalize(query.as_bytes());
    normalized.len() == 0
}

/// Whether a search for `query` with `limit` finds nothing before any
/// reference is scored: no room for hits, a blank query, or a query without
/// pattern atoms.
pub open spec fn search_is_void(query: Seq<char>, limit: usize) -> bool {
    limit == 0 || query_is_blank(query) || nucleo_pattern_is_empty(query)
}

/// Whether no full or short name among `refs` has a backslash.
pub open spec fn free_of_backslash(refs: Seq<(Seq<u8>, Seq<u8>)>) -> bool {
    forall|i: int| 0 <= i < refs.len() ==> !has_backslash(#[trigger] refs[i].0) && !has_backslash(refs[i].1)
}

/// Find the `limit` references that match `query` best, best first (see
/// `is_best_selection` and `spec_score`).
pub fn find_in_repo(refs: &Vec<NamedRef>, query: &str, limit: usize) -> (r: Vec<Match>)
    requires
        limit > 0 && !query_is_blank(query@) ==> query@.len() <= MAX_QUERY_CHARS,
        limit > 0 && !query_is_blank(query@) ==> forall|i: int|
            0 <= i < refs@.len() ==> (#[trigger] refs@[i]).full@.len() <= u32::MAX && refs@[i].short@.len()
                <= u32::MAX,
    ensures
        search_is_void(query@, limit) ==> r@.len() == 0,
        r@.len() <= limit,
        forall|j: int, k: int| 0 <= j < k < r@.len() ==> r@[j]@.1 >= r@[k]@.1,
        !search_is_void(query@, limit) && free_of_backslash(ref_names(refs@)) ==> is_best_selection(
            spec_candidates(query@, ref_names(refs@)),
            limit as nat,
            r@.map_values(|m: Match| m@),
        ),
{
    if limit == 0 || is_blank_query(query) {
        return Vec::new();
    }

    let mut state = nucleo_state(query);
    if pattern_is_empty(&state) {
        return Vec::new();
    }

    let mut candidates: Vec<Scored> = Vec::new();
    let mut i: usize = 0;
    while i < refs.len()
        invariant
            i <= refs@.len(),
            state@ == query@,
            query@.len() <= MAX_QUERY_CHARS,
            forall|k: int|
                0 <= k < refs@.len() ==> (#[trigger] refs@[k]).full@.len() <= u32::MAX && refs@[k].short@.len()
                    <= u32::MAX,
            free_of_backslash(ref_names(refs@)) ==> candidates@.map_values(|c: Scored| scored_view(c))
                == spec_candidates(query@, ref_names(refs@.subrange(0, i as int))),
        decreases refs@.len() - i,
    {
        let reference = &refs[i];
        let ghost pre = candidates@.map_values(|c: Scored| scored_view(c));
        proof {
            assert(ref_names(refs@.subrange(0, i + 1)).drop_last() =~= ref_names(refs@.subrange(0, i as int)));
            assert(ref_names(refs@.subrange(0, i + 1)).last() == refs@[i as int]@);
            if free_of_backslash(ref_names(refs@)) {
                assert(ref_names(refs@)[i as int] == refs@[i as int]@);
            }
        }
        match score(reference.full.as_slice(), reference.short.as_slice(), &mut state) {
            Some(sc) => {
                candidates.push(Scored { score: sc, name: copy_bytes(reference.full.as_slice()) });
                proof {
                    assert(candidates@.map_values(|c: Scored| scored_view(c)) =~= pre.push(
                        (reference.full@, sc),
                    ));
                }
            },
            None => {},
        }
        i = i + 1;
    }
    proof {
        assert(refs@.subrange(0, refs@.len() as int) =~= refs@);
    }
    let best = select_best(&candidates, limit);
    proof {
        let ghost bv = best@.map_values(|m: Match| m@);
        assert forall|j: int, k: int| 0 <= j < k < best@.len() implies best@[j]@.1 >= best@[k]@.1 by {
            assert(bv[j] == best@[j]@ && bv[k] == best@[k]@);
        }
    }
    best
}

} // verus!
