//! The inverted index from keywords to the MCP methods that serve them. Items
//! are stored under the key `keyword:mcp_name:standard_match`; they are found
//! again by keyword (word by word), by keyword group, by MCP name and by
//! confidence, and a list of keywords picks its best match.
use vstd::prelude::*;
use crate::sorted_map::{SortedMap, KeyFields, MapKey, text_key, lemma_text_key_injective};
use crate::text::{utf8_of, occurs_in, lemma_utf8_concat, lowercase, to_lower, text_contains, text_equal, concat_text,
    concat3, texts_view};

verus! {

/// One entry of the index. `confidence` is the score as the bit pattern of an
/// IEEE-754 binary32 number (`f32::to_bits`).
pub struct InvertedIndexItem {
    pub keyword: String,
    pub keyword_group: String,
    pub mcp_name: String,
    pub method_name: String,
    pub source_field: String,
    pub confidence: u32,
    pub standard_match: String,
}

/// An entry of the index as a value.
#[verifier::ext_equal]
pub struct IndexEntry {
    pub keyword: Seq<char>,
    pub keyword_group: Seq<char>,
    pub mcp_name: Seq<char>,
    pub method_name: Seq<char>,
    pub source_field: Seq<char>,
    pub confidence: u32,
    pub standard_match: Seq<char>,
}

impl View for InvertedIndexItem {
    type V = IndexEntry;

    open spec fn view(&self) -> IndexEntry {
        IndexEntry {
            keyword: self.keyword@,
            keyword_group: self.keyword_group@,
            mcp_name: self.mcp_name@,
            method_name: self.method_name@,
            source_field: self.source_field@,
            confidence: self.confidence,
            standard_match: self.standard_match@,
        }
    }
}

impl Clone for InvertedIndexItem {
    fn clone(&self) -> (r: Self)
        ensures
            r == *self,
    {
        InvertedIndexItem {
            keyword: self.keyword.clone(),
            keyword_group: self.keyword_group.clone(),
            mcp_name: self.mcp_name.clone(),
            method_name: self.method_name.clone(),
            source_field: self.source_field.clone(),
            confidence: self.confidence,
            standard_match: self.standard_match.clone(),
        }
    }
}

/// The entries that a list of items stands for.
pub open spec fn entries_of(v: Seq<InvertedIndexItem>) -> Seq<IndexEntry> {
    v.map_values(|it: InvertedIndexItem| it@)
}

// ---------------------------------------------------------------------------
// Confidence scores: IEEE-754 binary32 comparison on bit patterns.
// ---------------------------------------------------------------------------

/// The magnitude bits of a binary32 number (all but the sign).
pub open spec fn magnitude_bits(b: u32) -> u32 {
    b & 0x7fff_ffffu32
}

/// Whether a binary32 bit pattern is a NaN.
pub open spec fn is_nan_bits(b: u32) -> bool {
    magnitude_bits(b) > 0x7f80_0000u32
}

/// The place of a binary32 number on the number line: for numbers that are no
/// NaN, `a < b` as floats exactly when `float_place(a) < float_place(b)`; both
/// zeros have place 0.
pub open spec fn float_place(b: u32) -> int {
    if b & 0x8000_0000u32 == 0 {
        magnitude_bits(b) as int
    } else {
        -(magnitude_bits(b) as int)
    }
}

/// `a >= b` on binary32 numbers (false when either is a NaN).
pub open spec fn float_ge(a: u32, b: u32) -> bool {
    !is_nan_bits(a) && !is_nan_bits(b) && float_place(a) >= float_place(b)
}

/// `a < b` on binary32 numbers (false when either is a NaN).
pub open spec fn float_lt(a: u32, b: u32) -> bool {
    !is_nan_bits(a) && !is_nan_bits(b) && float_place(a) < float_place(b)
}

/// `a > b` on binary32 numbers (false when either is a NaN).
pub open spec fn float_gt(a: u32, b: u32) -> bool {
    !is_nan_bits(a) && !is_nan_bits(b) && float_place(a) > float_place(b)
}

/// The binary32 bit pattern of 0.7, the confidence below which the keyword
/// strategy skips an item.
pub const STRATEGY_MIN_CONFIDENCE: u32 = 0x3f33_3333u32;

fn place_of(b: u32) -> (r: i64)
    ensures
        r == float_place(b),
{
    let m = b & 0x7fff_ffffu32;
    if b & 0x8000_0000u32 == 0 {
        m as i64
    } else {
        -(m as i64)
    }
}

fn nan_bits(b: u32) -> (r: bool)
    ensures
        r == is_nan_bits(b),
{
    (b & 0x7fff_ffffu32) > 0x7f80_0000u32
}

/// `a >= b` on confidence scores.
pub fn confidence_ge(a: u32, b: u32) -> (r: bool)
    ensures
        r == float_ge(a, b),
{
    !nan_bits(a) && !nan_bits(b) && place_of(a) >= place_of(b)
}

/// `a < b` on confidence scores.
pub fn confidence_lt(a: u32, b: u32) -> (r: bool)
    ensures
        r == float_lt(a, b),
{
    !nan_bits(a) && !nan_bits(b) && place_of(a) < place_of(b)
}

/// `a > b` on confidence scores.
pub fn confidence_gt(a: u32, b: u32) -> (r: bool)
    ensures
        r == float_gt(a, b),
{
    !nan_bits(a) && !nan_bits(b) && place_of(a) > place_of(b)
}

// ---------------------------------------------------------------------------
// Words of a keyword.
// ---------------------------------------------------------------------------

/// Whether `c` separates words: `-`, and also `_` unless `dash_only`.
pub open spec fn is_separator(c: char, dash_only: bool) -> bool {
    c == '-' || (!dash_only && c == '_')
}

/// The pieces of `s` between separators, as `str::split` yields them (an empty
/// text is one empty piece).
pub open spec fn pieces(s: Seq<char>, dash_only: bool) -> Seq<Seq<char>>
    decreases s.len(),
{
    if s.len() == 0 {
        seq![Seq::<char>::empty()]
    } else {
        let p = pieces(s.drop_last(), dash_only);
        if is_separator(s.last(), dash_only) {
            p.push(Seq::<char>::empty())
        } else {
            p.update(p.len() - 1, p.last().push(s.last()))
        }
    }
}

pub proof fn lemma_pieces_len(s: Seq<char>, dash_only: bool)
    ensures
        pieces(s, dash_only).len() >= 1,
    decreases s.len(),
{
    if s.len() > 0 {
        lemma_pieces_len(s.drop_last(), dash_only);
    }
}

/// The lower-cased pieces of `s`.
pub open spec fn words(s: Seq<char>, dash_only: bool) -> Seq<Seq<char>> {
    pieces(s, dash_only).map_values(|w: Seq<char>| lowercase(w))
}

/// Splits `s` at its separators.
fn split_pieces(s: &str, dash_only: bool) -> (r: Vec<String>)
    ensures
        texts_view(r@) == pieces(s@, dash_only),
{
    let n = s.unicode_len();
    let mut done: Vec<String> = Vec::new();
    let mut start: usize = 0;
    let mut i: usize = 0;
    proof {
        assert(s@.take(0) =~= Seq::<char>::empty());
        assert(s@.subrange(0, 0) =~= Seq::<char>::empty());
        assert(texts_view(done@).push(s@.subrange(0, 0)) =~= pieces(s@.take(0), dash_only));
    }
    while i < n
        invariant
            n == s@.len(),
            start <= i <= n,
            texts_view(done@).push(s@.subrange(start as int, i as int)) == pieces(s@.take(i as int), dash_only),
        decreases n - i,
    {
        let c = s.get_char(i);
        proof {
            assert(s@.take(i + 1).drop_last() =~= s@.take(i as int));
            assert(s@.take(i + 1).last() == c);
            lemma_pieces_len(s@.take(i as int), dash_only);
        }
        if c == '-' || (!dash_only && c == '_') {
            let piece = s.substring_char(start, i).to_owned();
            done.push(piece);
            start = i + 1;
            proof {
                assert(texts_view(done@) =~= pieces(s@.take(i as int), dash_only));
                assert(s@.subrange(start as int, i + 1) =~= Seq::<char>::empty());
            }
        } else {
            proof {
                assert(s@.subrange(start as int, i + 1) =~= s@.subrange(start as int, i as int).push(c));
            }
        }
        i = i + 1;
        proof {
            assert(texts_view(done@).push(s@.subrange(start as int, i as int)) =~= pieces(s@.take(i as int), dash_only));
        }
    }
    let last = s.substring_char(start, n).to_owned();
    done.push(last);
    proof {
        assert(s@.take(n as int) =~= s@);
        assert(texts_view(done@) =~= pieces(s@, dash_only));
    }
    done
}

/// The lower-cased words of `s`.
pub fn split_words(s: &str, dash_only: bool) -> (r: Vec<String>)
    ensures
        texts_view(r@) == words(s@, dash_only),
{
    let p = split_pieces(s, dash_only);
    let mut out: Vec<String> = Vec::new();
    for i in 0..p.len()
        invariant
            texts_view(p@) == pieces(s@, dash_only),
            texts_view(out@) == words(s@, dash_only).take(i as int),
    {
        let w = to_lower(p[i].as_str());
        let ghost before = out@;
        out.push(w);
        proof {
            assert(out@ == before.push(w));
            assert(texts_view(out@) =~= texts_view(before).push(w@));
            assert(texts_view(p@)[i as int] == p@[i as int]@);
            assert(words(s@, dash_only)[i as int] == lowercase(pieces(s@, dash_only)[i as int]));
            assert(texts_view(out@) =~= words(s@, dash_only).take(i + 1));
        }
    }
    proof {
        assert(words(s@, dash_only).take(p@.len() as int) =~= words(s@, dash_only));
    }
    out
}

/// Checks that every item names its standard match; the error names the first
/// keyword without one.
pub fn validate_items(items: &Vec<InvertedIndexItem>) -> (r: Result<(), String>)
    ensures
        match r {
            Ok(()) => forall|i: int| 0 <= i < items@.len() ==> #[trigger] items@[i].standard_match@.len() > 0,
            Err(e) => exists|i: int| {
                &&& 0 <= i < items@.len()
                &&& #[trigger] items@[i].standard_match@.len() == 0
                &&& forall|j: int| 0 <= j < i ==> #[trigger] items@[j].standard_match@.len() > 0
                &&& e@ == "Invalid item: standard_match is empty for keyword "@ + items@[i].keyword@
            },
        },
{
    for i in 0..items.len()
        invariant
            forall|j: int| 0 <= j < i ==> #[trigger] items@[j].standard_match@.len() > 0,
    {
        if items[i].standard_match.unicode_len() == 0 {
            let e = concat_text("Invalid item: standard_match is empty for keyword ", items[i].keyword.as_str());
            return Err(e);
        }
    }
    Ok(())
}

// ---------------------------------------------------------------------------
// Ranking: a stable sort, best first.
// ---------------------------------------------------------------------------

/// A candidate of a ranked query: where it was drawn from, and what it is
/// ranked by.
#[derive(Clone, Copy)]
pub struct Ranked {
    pub pos: usize,
    pub preferred: bool,
    pub score: usize,
    pub confidence: u32,
}

/// Whether `a` ranks above `b`: preferred first, then by higher score, then by
/// higher confidence.
pub open spec fn outranks(a: Ranked, b: Ranked) -> bool {
    if a.preferred != b.preferred {
        a.preferred
    } else if a.score != b.score {
        a.score > b.score
    } else {
        float_gt(a.confidence, b.confidence)
    }
}

/// The first position in `t` from `i` on that `x` outranks.
pub open spec fn rank_slot(x: Ranked, t: Seq<Ranked>, i: int) -> int
    decreases t.len() - i,
{
    if i < 0 || i >= t.len() {
        t.len() as int
    } else if outranks(x, t[i]) {
        i
    } else {
        rank_slot(x, t, i + 1)
    }
}

/// The stable sort of `s`, best first: each candidate in turn goes in front of
/// the first it outranks, after all it does not.
pub open spec fn ranked(s: Seq<Ranked>) -> Seq<Ranked>
    decreases s.len(),
{
    if s.len() == 0 {
        s
    } else {
        let t = ranked(s.drop_last());
        t.insert(rank_slot(s.last(), t, 0), s.last())
    }
}

pub proof fn lemma_rank_slot(x: Ranked, t: Seq<Ranked>, i: int)
    requires
        0 <= i <= t.len(),
    ensures
        i <= rank_slot(x, t, i) <= t.len(),
    decreases t.len() - i,
{
    if i < t.len() && !outranks(x, t[i]) {
        lemma_rank_slot(x, t, i + 1);
    }
}

/// Ranking keeps the length, and every ranked candidate is one of `s`.
pub proof fn lemma_ranked(s: Seq<Ranked>)
    ensures
        ranked(s).len() == s.len(),
        forall|k: int| 0 <= k < s.len() ==> exists|j: int| 0 <= j < s.len() && #[trigger] ranked(s)[k] == s[j],
    decreases s.len(),
{
    if s.len() > 0 {
        let t = ranked(s.drop_last());
        lemma_ranked(s.drop_last());
        lemma_rank_slot(s.last(), t, 0);
        let p = rank_slot(s.last(), t, 0);
        assert forall|k: int| 0 <= k < s.len() implies exists|j: int| 0 <= j < s.len() && #[trigger] ranked(s)[k] == s[j] by {
            if k < p {
                let j = choose|j: int| 0 <= j < s.len() - 1 && t[k] == s.drop_last()[j];
                assert(ranked(s)[k] == s[j]);
            } else if k == p {
                assert(ranked(s)[k] == s[s.len() - 1]);
            } else {
                let j = choose|j: int| 0 <= j < s.len() - 1 && t[k - 1] == s.drop_last()[j];
                assert(ranked(s)[k] == s[j]);
            }
        }
    }
}

fn outranks_exec(a: &Ranked, b: &Ranked) -> (r: bool)
    ensures
        r == outranks(*a, *b),
{
    if a.preferred != b.preferred {
        a.preferred
    } else if a.score != b.score {
        a.score > b.score
    } else {
        confidence_gt(a.confidence, b.confidence)
    }
}

fn find_rank_slot(t: &Vec<Ranked>, x: &Ranked) -> (p: usize)
    ensures
        p == rank_slot(*x, t@, 0),
{
    let mut i: usize = 0;
    while i < t.len()
        invariant
            i <= t@.len(),
            rank_slot(*x, t@, 0) == rank_slot(*x, t@, i as int),
        decreases t@.len() - i,
    {
        if outranks_exec(x, &t[i]) {
            return i;
        }
        i = i + 1;
    }
    i
}

/// Sorts candidates best first, keeping the order of those that tie.
pub fn rank_candidates(s: &Vec<Ranked>) -> (r: Vec<Ranked>)
    ensures
        r@ == ranked(s@),
{
    let mut out: Vec<Ranked> = Vec::new();
    let n = s.len();
    for i in 0..n
        invariant
            n == s@.len(),
            out@ == ranked(s@.take(i as int)),
    {
        proof {
            assert(s@.take(i + 1).drop_last() =~= s@.take(i as int));
            lemma_ranked(s@.take(i as int));
        }
        let x = s[i];
        let p = find_rank_slot(&out, &x);
        proof {
            lemma_rank_slot(x, out@, 0);
        }
        out.insert(p, x);
    }
    proof {
        assert(s@.take(n as int) =~= s@);
    }
    out
}

/// How many of `parts` occur in the lower-cased `key` (each part counted as
/// often as it is listed).
pub open spec fn hit_count(parts: Seq<Seq<char>>, key: Seq<char>) -> nat
    decreases parts.len(),
{
    if parts.len() == 0 {
        0
    } else {
        hit_count(parts.drop_last(), key) + if occurs_in(utf8_of(parts.last()), utf8_of(lowercase(key))) {
            1nat
        } else {
            0nat
        }
    }
}

pub proof fn lemma_hit_count(parts: Seq<Seq<char>>, key: Seq<char>)
    ensures
        hit_count(parts, key) <= parts.len(),
    decreases parts.len(),
{
    if parts.len() > 0 {
        lemma_hit_count(parts.drop_last(), key);
    }
}

/// The entries of `w` whose key meets one of `parts` at least, with the
/// number of parts it meets, in the order of `w`.
pub open spec fn keyword_candidates(parts: Seq<Seq<char>>, w: Seq<IndexEntry>) -> Seq<Ranked>
    decreases w.len(),
{
    if w.len() == 0 {
        Seq::empty()
    } else {
        let c = keyword_candidates(parts, w.drop_last());
        let h = hit_count(parts, entry_key(w.last()));
        if h > 0 {
            c.push(Ranked { pos: (w.len() - 1) as usize, preferred: false, score: h as usize, confidence: 0 })
        } else {
            c
        }
    }
}

pub proof fn lemma_keyword_candidates(parts: Seq<Seq<char>>, w: Seq<IndexEntry>)
    ensures
        keyword_candidates(parts, w).len() <= w.len(),
        forall|k: int| 0 <= k < keyword_candidates(parts, w).len() ==> (#[trigger] keyword_candidates(parts, w)[k]).pos < w.len(),
    decreases w.len(),
{
    if w.len() > 0 {
        lemma_keyword_candidates(parts, w.drop_last());
    }
}

/// What a search for `keyword` finds in the walk `w`: the entries whose key
/// meets one of the lower-cased `-`-separated words of `keyword`, those that
/// meet more words first, in walk order among equals.
pub open spec fn keyword_matches(w: Seq<IndexEntry>, keyword: Seq<char>) -> Seq<IndexEntry> {
    ranked(keyword_candidates(words(keyword, true), w)).map_values(|c: Ranked| w[c.pos as int])
}

/// The number of `parts` that occur in the lower-cased `key`.
fn count_hits(parts: &Vec<String>, key: &str) -> (n: usize)
    ensures
        n == hit_count(texts_view(parts@), key@),
{
    let low = to_lower(key);
    let mut n: usize = 0;
    let m = parts.len();
    for i in 0..m
        invariant
            m == parts@.len(),
            low@ == lowercase(key@),
            n == hit_count(texts_view(parts@).take(i as int), key@),
            n <= i,
    {
        proof {
            assert(texts_view(parts@).take(i + 1).drop_last() =~= texts_view(parts@).take(i as int));
            assert(texts_view(parts@).take(i + 1).last() == parts@[i as int]@);
        }
        if text_contains(low.as_str(), parts[i].as_str()) {
            n = n + 1;
        }
    }
    proof {
        assert(texts_view(parts@).take(m as int) =~= texts_view(parts@));
    }
    n
}

/// Whether `e` belongs to the MCP named `mcp`.
pub open spec fn filed_for(e: IndexEntry, mcp: Seq<char>) -> bool {
    e.mcp_name == mcp
}

/// The keyword lists after `mcp` leaves the list of keyword `kw`; a list left
/// empty goes.
pub open spec fn drop_doc_of(d: Map<KeyFields, Seq<Seq<char>>>, kw: Seq<char>, mcp: Seq<char>) -> Map<KeyFields, Seq<Seq<char>>> {
    let k = text_key(kw);
    if d.contains_key(k) {
        let l = crate::text::drop_entry(d[k], mcp);
        if l.len() == 0 {
            d.remove(k)
        } else {
            d.insert(k, l)
        }
    } else {
        d
    }
}

/// The keyword lists after the entries `rs` are deleted in turn for `mcp`.
pub open spec fn docs_without(d: Map<KeyFields, Seq<Seq<char>>>, rs: Seq<IndexEntry>, mcp: Seq<char>) -> Map<KeyFields, Seq<Seq<char>>>
    decreases rs.len(),
{
    if rs.len() == 0 {
        d
    } else {
        drop_doc_of(docs_without(d, rs.drop_last(), mcp), rs.last().keyword, mcp)
    }
}

/// `keyword_matches` finds no more than the walk holds, and only entries of it.
pub proof fn lemma_keyword_matches(w: Seq<IndexEntry>, keyword: Seq<char>)
    ensures
        keyword_matches(w, keyword).len() <= w.len(),
{
    let c = keyword_candidates(words(keyword, true), w);
    lemma_keyword_candidates(words(keyword, true), w);
    lemma_ranked(c);
}

// ---------------------------------------------------------------------------
// Tallies by MCP name.
// ---------------------------------------------------------------------------

/// The position of the group of `mcp` in `g` (the last one), or -1.
pub open spec fn group_index(g: Seq<(IndexEntry, nat)>, mcp: Seq<char>) -> int
    decreases g.len(),
{
    if g.len() == 0 {
        -1
    } else if g.last().0.mcp_name == mcp {
        g.len() - 1
    } else {
        group_index(g.drop_last(), mcp)
    }
}

pub proof fn lemma_group_index(g: Seq<(IndexEntry, nat)>, mcp: Seq<char>)
    ensures
        -1 <= group_index(g, mcp) < g.len(),
        0 <= group_index(g, mcp) ==> g[group_index(g, mcp)].0.mcp_name == mcp,
    decreases g.len(),
{
    if g.len() > 0 && g.last().0.mcp_name != mcp {
        lemma_group_index(g.drop_last(), mcp);
    }
}

/// The tally after `by` more for the MCP name of `e`: its group grows, or a
/// new group starts with `e` as its item.
pub open spec fn bump(g: Seq<(IndexEntry, nat)>, e: IndexEntry, by: nat) -> Seq<(IndexEntry, nat)> {
    let i = group_index(g, e.mcp_name);
    if 0 <= i {
        g.update(i, (g[i].0, g[i].1 + by))
    } else {
        g.push((e, by))
    }
}

/// The count of the group of the MCP name `mcp` in `g`, or 0 when it has none.
pub open spec fn group_total(g: Seq<(IndexEntry, nat)>, mcp: Seq<char>) -> nat {
    let i = group_index(g, mcp);
    if 0 <= i && i < g.len() {
        g[i].1
    } else {
        0
    }
}

/// Changing the count of a group leaves where each name is found.
proof fn lemma_group_index_update(g: Seq<(IndexEntry, nat)>, i: int, x: nat, m: Seq<char>)
    requires
        0 <= i < g.len(),
    ensures
        group_index(g.update(i, (g[i].0, x)), m) == group_index(g, m),
    decreases g.len(),
{
    let h = g.update(i, (g[i].0, x));
    if i < g.len() - 1 {
        assert(h.drop_last() =~= g.drop_last().update(i, (g[i].0, x)));
        assert(h.last() == g.last());
        assert(g.drop_last()[i] == g[i]);
        lemma_group_index_update(g.drop_last(), i, x, m);
    } else {
        assert(h.drop_last() =~= g.drop_last());
        assert(h.last().0 == g.last().0);
    }
}

/// A bump adds `by` to the count of `e`'s MCP name and leaves the others.
proof fn lemma_bump_total(g: Seq<(IndexEntry, nat)>, e: IndexEntry, by: nat, m: Seq<char>)
    ensures
        group_total(bump(g, e, by), m) == group_total(g, m) + if m == e.mcp_name { by } else { 0nat },
{
    lemma_group_index(g, e.mcp_name);
    lemma_group_index(g, m);
    let i = group_index(g, e.mcp_name);
    if 0 <= i {
        lemma_group_index_update(g, i, g[i].1 + by, m);
        if m == e.mcp_name {
        } else {
            let j = group_index(g, m);
            if 0 <= j {
                assert(j != i);
            }
        }
    } else {
        let h = g.push((e, by));
        assert(h.drop_last() =~= g);
        if m != e.mcp_name {
            assert(group_index(h, m) == group_index(g, m));
        }
    }
}

/// Scoring more entries never lowers a count: the tally over a prefix of
/// `found` counts no more than the tally over all of it.
proof fn lemma_strategy_tally_grows(g: Seq<(IndexEntry, nat)>, found: Seq<IndexEntry>, seqs: Seq<Seq<Seq<char>>>, b: int, m: Seq<char>)
    requires
        0 <= b <= found.len(),
    ensures
        group_total(strategy_tally(g, found.take(b), seqs), m) <= group_total(strategy_tally(g, found, seqs), m),
    decreases found.len(),
{
    if b == found.len() {
        assert(found.take(b) =~= found);
    } else {
        assert(found.drop_last().take(b) =~= found.take(b));
        lemma_strategy_tally_grows(g, found.drop_last(), seqs, b, m);
        let prev = strategy_tally(g, found.drop_last(), seqs);
        let e = found.last();
        lemma_bump_total(prev, e, strategy_score(seqs, words(e.keyword, false)), m);
    }
}

/// The tally over the first `a` word lists counts no more than the tally over
/// the first `k >= a`.
proof fn lemma_strategy_groups_grow(w: Seq<IndexEntry>, seqs: Seq<Seq<Seq<char>>>, a: nat, k: nat, m: Seq<char>)
    requires
        a <= k,
    ensures
        group_total(strategy_groups(w, seqs, a), m) <= group_total(strategy_groups(w, seqs, k), m),
    decreases k,
{
    if a < k {
        lemma_strategy_groups_grow(w, seqs, a, (k - 1) as nat, m);
        let found = keyword_matches(w, join_dash(seqs[k - 1]));
        let g = strategy_groups(w, seqs, (k - 1) as nat);
        assert(found.take(0) =~= Seq::<IndexEntry>::empty());
        lemma_strategy_tally_grows(g, found, seqs, 0, m);
    }
}

/// Whether every count of the strategy tally for `kws` fits in a `usize`.
pub open spec fn strategy_fits(w: Seq<IndexEntry>, kws: Seq<Seq<char>>) -> bool {
    let seqs = keyword_words(kws);
    let g = strategy_groups(w, seqs, seqs.len());
    forall|i: int| 0 <= i < g.len() ==> (#[trigger] g[i]).1 <= usize::MAX
}

/// The count of the group of the MCP name `mcp`, or 0 when it has none.
fn current_total(groups: &Vec<(InvertedIndexItem, usize)>, mcp: &String) -> (r: usize)
    ensures
        r == group_total(groups_view(groups@), mcp@),
{
    let ghost g = groups_view(groups@);
    let mut i = groups.len();
    proof {
        assert(g.take(i as int) =~= g);
    }
    while i > 0
        invariant
            i <= groups@.len(),
            g == groups_view(groups@),
            group_index(g, mcp@) == group_index(g.take(i as int), mcp@),
        decreases i,
    {
        proof {
            assert(g.take(i as int).drop_last() =~= g.take(i - 1));
        }
        if groups[i - 1].0.mcp_name == *mcp {
            proof {
                assert(group_index(g, mcp@) == i - 1);
            }
            return groups[i - 1].1;
        }
        i = i - 1;
    }
    proof {
        assert(g.take(0) =~= Seq::<(IndexEntry, nat)>::empty());
    }
    0
}

/// The tally after counting the entries of `found` whose confidence is at
/// least `min`, one each.
pub open spec fn tally(g: Seq<(IndexEntry, nat)>, found: Seq<IndexEntry>, min: u32) -> Seq<(IndexEntry, nat)>
    decreases found.len(),
{
    if found.len() == 0 {
        g
    } else {
        let prev = tally(g, found.drop_last(), min);
        if float_ge(found.last().confidence, min) {
            bump(prev, found.last(), 1)
        } else {
            prev
        }
    }
}

/// The tally over what each of `kws` finds in the walk `w`.
pub open spec fn tally_keywords(w: Seq<IndexEntry>, kws: Seq<Seq<char>>, min: u32) -> Seq<(IndexEntry, nat)>
    decreases kws.len(),
{
    if kws.len() == 0 {
        Seq::empty()
    } else {
        tally(tally_keywords(w, kws.drop_last(), min), keyword_matches(w, kws.last()), min)
    }
}

/// The groups of a tally as candidates: ranked by count, then by the
/// confidence of their item, and (when `prefer_exact`) those whose item's
/// standard match is `true` before all others.
pub open spec fn group_candidates(g: Seq<(IndexEntry, nat)>, prefer_exact: bool) -> Seq<Ranked> {
    Seq::new(g.len(), |i: int| Ranked {
        pos: i as usize,
        preferred: prefer_exact && g[i].0.standard_match == "true"@,
        score: g[i].1 as usize,
        confidence: g[i].0.confidence,
    })
}

/// What a search for several keywords finds: one item per MCP name (the first
/// found), those found more often first, then those of higher confidence.
pub open spec fn keywords_matches(w: Seq<IndexEntry>, kws: Seq<Seq<char>>, min: u32) -> Seq<IndexEntry> {
    let g = tally_keywords(w, kws, min);
    ranked(group_candidates(g, false)).map_values(|c: Ranked| g[c.pos as int].0)
}

/// The number of words of `q` (each as often as it is listed) that `stored`
/// holds.
pub open spec fn word_hits(q: Seq<Seq<char>>, stored: Seq<Seq<char>>) -> nat
    decreases q.len(),
{
    if q.len() == 0 {
        0
    } else {
        word_hits(q.drop_last(), stored) + if stored.contains(q.last()) { 1nat } else { 0nat }
    }
}

/// The number of word lists of `seqs` of which more than half the words are in
/// `stored`.
pub open spec fn strategy_score(seqs: Seq<Seq<Seq<char>>>, stored: Seq<Seq<char>>) -> nat
    decreases seqs.len(),
{
    if seqs.len() == 0 {
        0
    } else {
        strategy_score(seqs.drop_last(), stored) + if word_hits(seqs.last(), stored) > seqs.last().len() / 2 {
            1nat
        } else {
            0nat
        }
    }
}

pub proof fn lemma_strategy_score(seqs: Seq<Seq<Seq<char>>>, stored: Seq<Seq<char>>)
    ensures
        strategy_score(seqs, stored) <= seqs.len(),
    decreases seqs.len(),
{
    if seqs.len() > 0 {
        lemma_strategy_score(seqs.drop_last(), stored);
    }
}

/// The tally after scoring the entries of `found` against `seqs`: an entry of
/// a `help` method, or of confidence below 0.7, counts nothing.
pub open spec fn strategy_tally(g: Seq<(IndexEntry, nat)>, found: Seq<IndexEntry>, seqs: Seq<Seq<Seq<char>>>) -> Seq<(IndexEntry, nat)>
    decreases found.len(),
{
    if found.len() == 0 {
        g
    } else {
        let prev = strategy_tally(g, found.drop_last(), seqs);
        let e = found.last();
        let score = strategy_score(seqs, words(e.keyword, false));
        if e.method_name == "help"@ || float_lt(e.confidence, STRATEGY_MIN_CONFIDENCE) || score == 0 {
            prev
        } else {
            bump(prev, e, score)
        }
    }
}

/// Words joined with `-`.
pub open spec fn join_dash(ws: Seq<Seq<char>>) -> Seq<char>
    decreases ws.len(),
{
    if ws.len() == 0 {
        Seq::empty()
    } else if ws.len() == 1 {
        ws[0]
    } else {
        join_dash(ws.drop_last()) + "-"@ + ws.last()
    }
}

/// The tally over what the first `k` word lists of `seqs` find in the walk
/// `w`, each joined with `-`.
pub open spec fn strategy_groups(w: Seq<IndexEntry>, seqs: Seq<Seq<Seq<char>>>, k: nat) -> Seq<(IndexEntry, nat)>
    decreases k,
{
    if k == 0 {
        Seq::empty()
    } else {
        strategy_tally(strategy_groups(w, seqs, (k - 1) as nat), keyword_matches(w, join_dash(seqs[k - 1])), seqs)
    }
}

/// The word lists of a list of keywords: each split at `-` and `_`, in lower
/// case.
pub open spec fn keyword_words(kws: Seq<Seq<char>>) -> Seq<Seq<Seq<char>>> {
    kws.map_values(|k: Seq<char>| words(k, false))
}

/// The best match for a list of keywords: none for no keyword or no match;
/// else the item of the best ranked group, those whose standard match is
/// `true` first.
pub open spec fn strategy_choice(w: Seq<IndexEntry>, kws: Seq<Seq<char>>) -> Option<IndexEntry> {
    let seqs = keyword_words(kws);
    let g = strategy_groups(w, seqs, seqs.len());
    if kws.len() == 0 || g.len() == 0 {
        None
    } else {
        Some(g[ranked(group_candidates(g, true))[0].pos as int].0)
    }
}

/// The entries of a list of groups.
pub open spec fn groups_view(g: Seq<(InvertedIndexItem, usize)>) -> Seq<(IndexEntry, nat)> {
    g.map_values(|p: (InvertedIndexItem, usize)| (p.0@, p.1 as nat))
}

/// Adds `by` to the group of the MCP name of `item`, or starts one.
fn bump_group(groups: &mut Vec<(InvertedIndexItem, usize)>, item: &InvertedIndexItem, by: usize)
    requires
        group_total(groups_view(old(groups)@), item@.mcp_name) + by <= usize::MAX,
    ensures
        groups_view(final(groups)@) == bump(groups_view(old(groups)@), item@, by as nat),
{
    let ghost g = groups_view(groups@);
    let mut i = groups.len();
    proof {
        assert(g.take(i as int) =~= g);
        lemma_group_index(g, item@.mcp_name);
    }
    while i > 0
        invariant
            i <= groups@.len(),
            g == groups_view(groups@),
            *groups == *old(groups),
            group_total(g, item@.mcp_name) + by <= usize::MAX,
            -1 <= group_index(g, item@.mcp_name) < g.len(),
            group_index(g, item@.mcp_name) == group_index(g.take(i as int), item@.mcp_name),
        decreases i,
    {
        proof {
            assert(g.take(i as int).drop_last() =~= g.take(i - 1));
        }
        if groups[i - 1].0.mcp_name == item.mcp_name {
            proof {
                assert(group_index(g, item@.mcp_name) == i - 1);
                assert(g[i - 1].1 == groups@[i - 1].1);
            }
            let c = groups[i - 1].1;
            let first = groups[i - 1].0.clone();
            groups.set(i - 1, (first, c + by));
            proof {
                assert(groups_view(groups@) =~= g.update(i - 1, (g[i - 1].0, (g[i - 1].1 + by) as nat)));
            }
            return;
        }
        i = i - 1;
    }
    groups.push((item.clone(), by));
    proof {
        assert(g.take(0) =~= Seq::<(IndexEntry, nat)>::empty());
        assert(groups_view(groups@) =~= g.push((item@, by as nat)));
    }
}

proof fn lemma_mul_step(a: int, n: int, k: int)
    requires
        0 <= a < k,
        0 <= n,
    ensures
        a * n + n <= k * n,
        (a + 1) * n == a * n + n,
        0 <= a * n,
{
    assert((a + 1) * n == a * n + n) by (nonlinear_arith);
    assert((a + 1) * n <= k * n) by (nonlinear_arith)
        requires
            a + 1 <= k,
            0 <= n,
    ;
    assert(0 <= a * n) by (nonlinear_arith)
        requires
            0 <= a,
            0 <= n,
    ;
}

/// Ranks the groups of a tally, best first.
fn rank_groups(groups: &Vec<(InvertedIndexItem, usize)>, prefer_exact: bool) -> (order: Vec<Ranked>)
    ensures
        order@ == ranked(group_candidates(groups_view(groups@), prefer_exact)),
        order@.len() == groups@.len(),
        forall|k: int| 0 <= k < order@.len() ==> (#[trigger] order@[k]).pos < groups@.len(),
{
    let mut cands: Vec<Ranked> = Vec::new();
    let n = groups.len();
    for i in 0..n
        invariant
            n == groups@.len(),
            cands@ == group_candidates(groups_view(groups@), prefer_exact).take(i as int),
    {
        let exact = prefer_exact && text_equal(groups[i].0.standard_match.as_str(), "true");
        cands.push(Ranked { pos: i, preferred: exact, score: groups[i].1, confidence: groups[i].0.confidence });
        proof {
            assert(cands@ =~= group_candidates(groups_view(groups@), prefer_exact).take(i + 1));
        }
    }
    proof {
        assert(cands@ =~= group_candidates(groups_view(groups@), prefer_exact));
    }
    let order = rank_candidates(&cands);
    proof {
        lemma_ranked(cands@);
        assert forall|k: int| 0 <= k < order@.len() implies (#[trigger] order@[k]).pos < groups@.len() by {
            let j = choose|j: int| 0 <= j < cands@.len() && order@[k] == cands@[j];
        }
    }
    order
}

/// The word lists of a list of lists of strings.
pub open spec fn lists_view(v: Seq<Vec<String>>) -> Seq<Seq<Seq<char>>> {
    v.map_values(|x: Vec<String>| texts_view(x@))
}

fn count_word_hits(q: &Vec<String>, stored: &Vec<String>) -> (n: usize)
    ensures
        n == word_hits(texts_view(q@), texts_view(stored@)),
        n <= q@.len(),
{
    let mut n: usize = 0;
    let m = q.len();
    for i in 0..m
        invariant
            m == q@.len(),
            n == word_hits(texts_view(q@).take(i as int), texts_view(stored@)),
            n <= i,
    {
        proof {
            assert(texts_view(q@).take(i + 1).drop_last() =~= texts_view(q@).take(i as int));
            assert(texts_view(q@).take(i + 1).last() == q@[i as int]@);
        }
        if crate::text::texts_contain(stored, &q[i]) {
            n = n + 1;
        }
    }
    proof {
        assert(texts_view(q@).take(m as int) =~= texts_view(q@));
    }
    n
}

fn score_words(seqs: &Vec<Vec<String>>, stored: &Vec<String>) -> (n: usize)
    ensures
        n == strategy_score(lists_view(seqs@), texts_view(stored@)),
        n <= seqs@.len(),
{
    let mut n: usize = 0;
    let m = seqs.len();
    for i in 0..m
        invariant
            m == seqs@.len(),
            n == strategy_score(lists_view(seqs@).take(i as int), texts_view(stored@)),
            n <= i,
    {
        proof {
            assert(lists_view(seqs@).take(i + 1).drop_last() =~= lists_view(seqs@).take(i as int));
            assert(lists_view(seqs@).take(i + 1).last() == texts_view(seqs@[i as int]@));
        }
        let h = count_word_hits(&seqs[i], stored);
        if h > seqs[i].len() / 2 {
            n = n + 1;
        }
    }
    proof {
        assert(lists_view(seqs@).take(m as int) =~= lists_view(seqs@));
    }
    n
}

fn join_words(ws: &Vec<String>) -> (r: String)
    ensures
        r@ == join_dash(texts_view(ws@)),
{
    let n = ws.len();
    if n == 0 {
        proof {
            assert(texts_view(ws@) =~= Seq::<Seq<char>>::empty());
        }
        return String::new();
    }
    let mut acc = ws[0].clone();
    proof {
        assert(texts_view(ws@).take(1) =~= seq![ws@[0]@]);
    }
    for i in 1..n
        invariant
            n == ws@.len(),
            n >= 1,
            acc@ == join_dash(texts_view(ws@).take(i as int)),
    {
        proof {
            assert(texts_view(ws@).take(i + 1).drop_last() =~= texts_view(ws@).take(i as int));
            assert(texts_view(ws@).take(i + 1).last() == ws@[i as int]@);
        }
        acc = concat3(acc.as_str(), "-", ws[i].as_str());
    }
    proof {
        assert(texts_view(ws@).take(n as int) =~= texts_view(ws@));
    }
    acc
}

/// Every item of a stored list is found again under its key: the filed form of
/// the last item with that key.
pub proof fn lemma_stored_items_kept(m: Map<KeyFields, IndexEntry>, es: Seq<IndexEntry>, i: int)
    requires
        0 <= i < es.len(),
    ensures
        with_entries(m, es).contains_key(text_key(entry_key(filed(es[i])))),
        (forall|j: int| i < j < es.len() ==> text_key(entry_key(filed(#[trigger] es[j]))) != text_key(entry_key(filed(es[i]))))
            ==> with_entries(m, es)[text_key(entry_key(filed(es[i])))] == filed(es[i]),
    decreases es.len(),
{
    if i < es.len() - 1 {
        lemma_stored_items_kept(m, es.drop_last(), i);
        assert forall|j: int| i < j < es.drop_last().len() implies es.drop_last()[j] == es[j] by {}
    }
}

/// The items whose key holds `:<mcp>:`.
pub open spec fn mcp_matches(w: Seq<IndexEntry>, mcp: Seq<char>) -> Seq<IndexEntry> {
    w.filter(|e: IndexEntry| occurs_in(utf8_of(":"@ + mcp + ":"@), utf8_of(entry_key(e))))
}

/// The key of an item holds `:<its MCP name>:`, so a search by MCP name finds
/// every item of that MCP.
pub proof fn lemma_found_by_its_mcp(w: Seq<IndexEntry>, mcp: Seq<char>)
    ensures
        forall|i: int| 0 <= i < w.len() && w[i].mcp_name == mcp ==> mcp_matches(w, mcp).contains(#[trigger] w[i]),
{
    assert forall|i: int| 0 <= i < w.len() && w[i].mcp_name == mcp implies
        occurs_in(utf8_of(":"@ + mcp + ":"@), utf8_of(entry_key(#[trigger] w[i]))) by {
        let e = w[i];
        let colon = ":"@;
        lemma_utf8_concat(e.keyword + colon + mcp + colon, e.standard_match);
        lemma_utf8_concat(e.keyword + colon + mcp, colon);
        lemma_utf8_concat(e.keyword + colon, mcp);
        lemma_utf8_concat(e.keyword, colon);
        lemma_utf8_concat(colon + mcp, colon);
        lemma_utf8_concat(colon, mcp);
        let k = utf8_of(e.keyword);
        let c = utf8_of(colon);
        let m = utf8_of(mcp);
        let t = utf8_of(e.standard_match);
        let needle = utf8_of(colon + mcp + colon);
        assert(needle == c + m + c);
        assert(utf8_of(entry_key(e)) == k + c + m + c + t);
        let hay = utf8_of(entry_key(e));
        assert(hay.subrange(k.len() as int, (k.len() + needle.len()) as int) =~= needle);
    }
    broadcast use vstd::seq_lib::group_filter_ensures;
}

/// The items left after those filed for `mcp` are deleted.
pub open spec fn without_mcp(w: Seq<IndexEntry>, mcp: Seq<char>) -> Seq<IndexEntry> {
    w.filter(|e: IndexEntry| !filed_for(e, mcp))
}

/// After the items of an MCP are deleted, no item left is filed for it, and
/// every item not filed for it is left.
pub proof fn lemma_deleted_items_gone(w: Seq<IndexEntry>, mcp: Seq<char>)
    ensures
        forall|i: int| 0 <= i < without_mcp(w, mcp).len() ==> !filed_for(#[trigger] without_mcp(w, mcp)[i], mcp),
        forall|i: int| 0 <= i < w.len() && !filed_for(w[i], mcp) ==> without_mcp(w, mcp).contains(#[trigger] w[i]),
{
    broadcast use vstd::seq_lib::group_filter_ensures;
}

// ---------------------------------------------------------------------------
// The store.
// ---------------------------------------------------------------------------

/// The key under which an entry is stored: `keyword:mcp_name:standard_match`.
pub open spec fn entry_key(e: IndexEntry) -> Seq<char> {
    e.keyword + ":"@ + e.mcp_name + ":"@ + e.standard_match
}

/// An entry as the store files it: the entry of a `help` method takes the
/// keyword `help-for-<mcp_name>`.
pub open spec fn filed(e: IndexEntry) -> IndexEntry {
    if e.method_name == "help"@ {
        IndexEntry {
            keyword: "help-for-"@ + e.mcp_name,
            keyword_group: e.keyword_group,
            mcp_name: e.mcp_name,
            method_name: e.method_name,
            source_field: e.source_field,
            confidence: e.confidence,
            standard_match: e.standard_match,
        }
    } else {
        e
    }
}

/// The items after filing `es` in turn: each under its key, the last one
/// filed under a key winning.
pub open spec fn with_entries(m: Map<KeyFields, IndexEntry>, es: Seq<IndexEntry>) -> Map<KeyFields, IndexEntry>
    decreases es.len(),
{
    if es.len() == 0 {
        m
    } else {
        let e = filed(es.last());
        with_entries(m, es.drop_last()).insert(text_key(entry_key(e)), e)
    }
}

/// The MCP names listed under a keyword in `d`.
pub open spec fn docs_at(d: Map<KeyFields, Seq<Seq<char>>>, k: KeyFields) -> Seq<Seq<char>> {
    if d.contains_key(k) {
        d[k]
    } else {
        Seq::empty()
    }
}

/// The keyword lists after filing `es` in turn: each adds its MCP name to the
/// list of its keyword.
pub open spec fn with_docs(d: Map<KeyFields, Seq<Seq<char>>>, es: Seq<IndexEntry>) -> Map<KeyFields, Seq<Seq<char>>>
    decreases es.len(),
{
    if es.len() == 0 {
        d
    } else {
        let e = filed(es.last());
        let prev = with_docs(d, es.drop_last());
        let k = text_key(e.keyword);
        prev.insert(k, docs_at(prev, k).push(e.mcp_name))
    }
}

/// The index: items by key, and for each keyword the MCP names filed under it.
pub struct InvertedIndexStore {
    items: SortedMap<String, InvertedIndexItem>,
    keyword_to_docs: SortedMap<String, Vec<String>>,
}

impl InvertedIndexStore {
    /// The items, in ascending order of their keys.
    pub closed spec fn walk(&self) -> Seq<IndexEntry> {
        entries_of(self.items.val_seq())
    }

    /// The items by key.
    pub closed spec fn item_map(&self) -> Map<KeyFields, IndexEntry> {
        self.items.as_map().map_values(|it: InvertedIndexItem| it@)
    }

    /// The keys of the items, in ascending order.
    pub closed spec fn item_keys(&self) -> Seq<KeyFields> {
        self.items.key_seq()
    }

    /// For each keyword, the MCP names filed under it.
    pub closed spec fn doc_map(&self) -> Map<KeyFields, Seq<Seq<char>>> {
        self.keyword_to_docs.as_map().map_values(|v: Vec<String>| texts_view(v@))
    }

    /// The keywords, in ascending order.
    pub closed spec fn doc_keys(&self) -> Seq<KeyFields> {
        self.keyword_to_docs.key_seq()
    }

    pub closed spec fn wf(&self) -> bool {
        &&& self.items.wf()
        &&& self.keyword_to_docs.wf()
        &&& forall|i: int| 0 <= i < self.items.key_seq().len() ==>
            #[trigger] self.items.key_seq()[i] == text_key(entry_key(self.items.val_seq()[i]@))
    }

    /// The walk holds each item once, under its key, in ascending key order;
    /// the map of items is the walk taken by key.
    pub proof fn lemma_walk(&self)
        requires
            self.wf(),
        ensures
            self.walk().len() == self.item_keys().len(),
            crate::sorted_map::strictly_sorted(self.item_keys()),
            forall|i: int| 0 <= i < self.walk().len() ==> #[trigger] self.item_keys()[i] == text_key(entry_key(self.walk()[i])),
            forall|i: int| 0 <= i < self.walk().len() ==> #[trigger] self.item_map().contains_key(self.item_keys()[i]),
            forall|i: int| 0 <= i < self.walk().len() ==> #[trigger] self.item_map()[self.item_keys()[i]] == self.walk()[i],
            forall|k: KeyFields| #[trigger] self.item_map().contains_key(k) ==> self.item_keys().contains(k),
            crate::sorted_map::strictly_sorted(self.doc_keys()),
            forall|k: KeyFields| #[trigger] self.doc_map().contains_key(k) <==> self.doc_keys().contains(k),
    {
        assert forall|i: int| 0 <= i < self.walk().len() implies #[trigger] self.item_map().contains_key(self.item_keys()[i])
            && self.item_map()[self.item_keys()[i]] == self.walk()[i] by {
            self.items.lemma_at(i);
        }
        assert forall|i: int| 0 <= i < self.walk().len() implies #[trigger] self.item_map()[self.item_keys()[i]] == self.walk()[i] by {
            self.items.lemma_at(i);
        }
    }

    pub fn new() -> (s: Self)
        ensures
            s.wf(),
            s.walk() == Seq::<IndexEntry>::empty(),
            s.item_map() == Map::<KeyFields, IndexEntry>::empty(),
            s.item_keys() == Seq::<KeyFields>::empty(),
            s.doc_map() == Map::<KeyFields, Seq<Seq<char>>>::empty(),
            s.doc_keys() == Seq::<KeyFields>::empty(),
    {
        let s = InvertedIndexStore { items: SortedMap::new(), keyword_to_docs: SortedMap::new() };
        assert(s.walk() =~= Seq::<IndexEntry>::empty());
        assert(s.item_map() =~= Map::<KeyFields, IndexEntry>::empty());
        assert(s.doc_map() =~= Map::<KeyFields, Seq<Seq<char>>>::empty());
        s
    }

    /// Files one item under its key, and its MCP name under its keyword.
    fn file_item(&mut self, item: InvertedIndexItem)
        requires
            old(self).wf(),
        ensures
            final(self).wf(),
            final(self).item_map() == old(self).item_map().insert(text_key(entry_key(filed(item@))), filed(item@)),
            final(self).doc_map() == old(self).doc_map().insert(
                text_key(filed(item@).keyword),
                docs_at(old(self).doc_map(), text_key(filed(item@).keyword)).push(item@.mcp_name),
            ),
    {
        let ghost orig = item@;
        let mut item = item;
        if text_equal(item.method_name.as_str(), "help") {
            item.keyword = concat_text("help-for-", item.mcp_name.as_str());
        }
        assert(item@ == filed(orig));
        let k1 = concat3(item.keyword.as_str(), ":", item.mcp_name.as_str());
        let key = concat3(k1.as_str(), ":", item.standard_match.as_str());
        let ghost old_items = self.items;
        let mcp = item.mcp_name.clone();
        let kw = item.keyword.clone();
        self.items.insert(key, item);
        proof {
            assert(self.item_map() =~= old(self).item_map().insert(text_key(entry_key(item@)), item@));
            if old_items.as_map().contains_key(text_key(entry_key(item@))) {
                let i = choose|i: int| 0 <= i < old_items.key_seq().len()
                    && old_items.key_seq()[i] == text_key(entry_key(item@))
                    && self.items.key_seq() == old_items.key_seq()
                    && self.items.val_seq() == old_items.val_seq().update(i, item);
                assert forall|j: int| 0 <= j < self.items.key_seq().len() implies
                    #[trigger] self.items.key_seq()[j] == text_key(entry_key(self.items.val_seq()[j]@)) by {
                    if j != i {
                        assert(old_items.key_seq()[j] == text_key(entry_key(old_items.val_seq()[j]@)));
                    }
                }
            } else {
                let p = choose|p: int| 0 <= p <= old_items.key_seq().len()
                    && self.items.key_seq() == old_items.key_seq().insert(p, text_key(entry_key(item@)))
                    && self.items.val_seq() == old_items.val_seq().insert(p, item);
                assert forall|j: int| 0 <= j < self.items.key_seq().len() implies
                    #[trigger] self.items.key_seq()[j] == text_key(entry_key(self.items.val_seq()[j]@)) by {
                    if j < p {
                        assert(old_items.key_seq()[j] == text_key(entry_key(old_items.val_seq()[j]@)));
                    } else if j > p {
                        assert(old_items.key_seq()[j - 1] == text_key(entry_key(old_items.val_seq()[j - 1]@)));
                    }
                }
            }
        }
        let mut list: Vec<String> = match self.keyword_to_docs.get(&kw) {
            Some(v) => crate::text::clone_texts(v),
            None => Vec::new(),
        };
        list.push(mcp);
        let ghost old_docs = self.keyword_to_docs;
        self.keyword_to_docs.insert(kw, list);
        proof {
            assert(texts_view(list@) =~= docs_at(old(self).doc_map(), text_key(item@.keyword)).push(item@.mcp_name)) by {
                if old(self).doc_map().contains_key(text_key(item@.keyword)) {
                    assert(old_docs.as_map().contains_key(kw.key_fields()));
                }
            }
            assert(self.doc_map() =~= old(self).doc_map().insert(text_key(item@.keyword), texts_view(list@)));
        }
    }
    /// Files a list of items. Every item must name its standard match; when one
    /// does not, nothing is filed.
    pub fn store_items(&mut self, items: Vec<InvertedIndexItem>) -> (r: Result<(), String>)
        requires
            old(self).wf(),
        ensures
            final(self).wf(),
            r is Ok <==> forall|i: int| 0 <= i < items@.len() ==> #[trigger] items@[i].standard_match@.len() > 0,
            r matches Err(e) ==> e@ == "standard_match field cannot be empty"@
                && final(self).item_map() == old(self).item_map()
                && final(self).walk() == old(self).walk()
                && final(self).doc_map() == old(self).doc_map(),
            r is Ok ==> final(self).item_map() == with_entries(old(self).item_map(), entries_of(items@))
                && final(self).doc_map() == with_docs(old(self).doc_map(), entries_of(items@)),
    {
        for i in 0..items.len()
            invariant
                self.wf(),
                *self == *old(self),
                forall|j: int| 0 <= j < i ==> #[trigger] items@[j].standard_match@.len() > 0,
        {
            if items[i].standard_match.unicode_len() == 0 {
                return Err("standard_match field cannot be empty".to_string());
            }
        }
        let ghost start_items = self.item_map();
        let ghost start_docs = self.doc_map();
        let ghost all = entries_of(items@);
        let n = items.len();
        let mut i: usize = 0;
        while i < n
            invariant
                n == all.len(),
                i <= n,
                self.wf(),
                all == entries_of(items@),
                self.item_map() == with_entries(start_items, all.take(i as int)),
                self.doc_map() == with_docs(start_docs, all.take(i as int)),
            decreases n - i,
        {
            let item = items[i].clone();
            proof {
                assert(all.take(i + 1).drop_last() =~= all.take(i as int));
                assert(all.take(i + 1).last() == item@);
            }
            self.file_item(item);
            i = i + 1;
        }
        proof {
            assert(all.take(n as int) =~= all);
        }
        Ok(())
    }

    /// Every item, in ascending order of its key.
    pub fn get_all_items(&self) -> (r: Vec<InvertedIndexItem>)
        requires
            self.wf(),
        ensures
            entries_of(r@) == self.walk(),
    {
        let mut out: Vec<InvertedIndexItem> = Vec::new();
        let n = self.items.len();
        for i in 0..n
            invariant
                n == self.items.key_seq().len(),
                self.wf(),
                entries_of(out@) == self.walk().take(i as int),
        {
            let (_, v) = self.items.entry_at(i);
            let ghost before = out@;
            out.push(v.clone());
            proof {
                assert(self.walk()[i as int] == v@);
                assert(entries_of(out@) =~= entries_of(before).push(v@));
                assert(entries_of(out@) =~= self.walk().take(i + 1));
            }
        }
        proof {
            assert(self.walk().take(self.items.key_seq().len() as int) =~= self.walk());
        }
        out
    }

    /// Every keyword under which an MCP name is filed, each once, in ascending
    /// order.
    pub fn get_all_keywords(&self) -> (r: Vec<String>)
        requires
            self.wf(),
        ensures
            texts_view(r@).map_values(|s: Seq<char>| text_key(s)) == self.doc_keys(),
    {
        let mut out: Vec<String> = Vec::new();
        let n = self.keyword_to_docs.len();
        for i in 0..n
            invariant
                n == self.keyword_to_docs.key_seq().len(),
                self.wf(),
                texts_view(out@).map_values(|s: Seq<char>| text_key(s)) == self.doc_keys().take(i as int),
        {
            let (k, _) = self.keyword_to_docs.entry_at(i);
            let ghost before = out@;
            out.push(k.clone());
            proof {
                assert(texts_view(out@) =~= texts_view(before).push(k@));
                assert(texts_view(out@).map_values(|s: Seq<char>| text_key(s)) =~=
                    texts_view(before).map_values(|s: Seq<char>| text_key(s)).push(text_key(k@)));
                assert(texts_view(out@).map_values(|s: Seq<char>| text_key(s)) =~= self.doc_keys().take(i + 1));
            }
        }
        proof {
            assert(self.doc_keys().take(self.keyword_to_docs.key_seq().len() as int) =~= self.doc_keys());
        }
        out
    }
    /// The item at position `i` of the walk, with the key it is stored under.
    fn key_at(&self, i: usize) -> (r: (&String, &InvertedIndexItem))
        requires
            self.wf(),
            i < self.walk().len(),
        ensures
            r.0@ == entry_key(r.1@),
            r.1@ == self.walk()[i as int],
            text_key(r.0@) == self.item_keys()[i as int],
    {
        let (k, v) = self.items.entry_at(i);
        proof {
            assert(self.items.key_seq()[i as int] == text_key(entry_key(self.items.val_seq()[i as int]@)));
            lemma_text_key_injective(k@, entry_key(v@));
        }
        (k, v)
    }

    /// The number of items.
    pub fn item_count(&self) -> (n: usize)
        requires
            self.wf(),
        ensures
            n == self.walk().len(),
    {
        self.items.len()
    }

    /// The items of keyword group `group`, in ascending key order.
    pub fn find_by_keyword_group(&self, group: &str) -> (r: Vec<InvertedIndexItem>)
        requires
            self.wf(),
        ensures
            entries_of(r@) == self.walk().filter(|e: IndexEntry| e.keyword_group == group@),
    {
        let mut out: Vec<InvertedIndexItem> = Vec::new();
        let n = self.item_count();
        for i in 0..n
            invariant
                n == self.walk().len(),
                self.wf(),
                entries_of(out@) == self.walk().take(i as int).filter(|e: IndexEntry| e.keyword_group == group@),
        {
            let (_, v) = self.key_at(i);
            proof {
                reveal_with_fuel(Seq::<_>::filter, 1);
                assert(self.walk().take(i + 1).drop_last() =~= self.walk().take(i as int));
            }
            if text_equal(v.keyword_group.as_str(), group) {
                let ghost before = out@;
                out.push(v.clone());
                proof {
                    assert(entries_of(out@) =~= entries_of(before).push(v@));
                }
            }
        }
        proof {
            assert(self.walk().take(n as int) =~= self.walk());
        }
        out
    }

    /// The items whose key holds `:<mcp_name>:`, in ascending key order.
    pub fn find_by_mcp_name(&self, mcp_name: &str) -> (r: Vec<InvertedIndexItem>)
        requires
            self.wf(),
        ensures
            entries_of(r@) == mcp_matches(self.walk(), mcp_name@),
    {
        let needle = concat3(":", mcp_name, ":");
        let mut out: Vec<InvertedIndexItem> = Vec::new();
        let n = self.item_count();
        for i in 0..n
            invariant
                n == self.walk().len(),
                self.wf(),
                needle@ == ":"@ + mcp_name@ + ":"@,
                entries_of(out@) == self.walk().take(i as int).filter(
                    |e: IndexEntry| occurs_in(utf8_of(":"@ + mcp_name@ + ":"@), utf8_of(entry_key(e)))),
        {
            let (k, v) = self.key_at(i);
            proof {
                reveal_with_fuel(Seq::<_>::filter, 1);
                assert(self.walk().take(i + 1).drop_last() =~= self.walk().take(i as int));
            }
            if text_contains(k.as_str(), needle.as_str()) {
                let ghost before = out@;
                out.push(v.clone());
                proof {
                    assert(entries_of(out@) =~= entries_of(before).push(v@));
                }
            }
        }
        proof {
            assert(self.walk().take(n as int) =~= self.walk());
        }
        out
    }

    /// The items whose confidence is at least `min_confidence`, in ascending
    /// key order.
    pub fn find_by_confidence(&self, min_confidence: u32) -> (r: Vec<InvertedIndexItem>)
        requires
            self.wf(),
        ensures
            entries_of(r@) == self.walk().filter(|e: IndexEntry| float_ge(e.confidence, min_confidence)),
    {
        let mut out: Vec<InvertedIndexItem> = Vec::new();
        let n = self.item_count();
        for i in 0..n
            invariant
                n == self.walk().len(),
                self.wf(),
                entries_of(out@) == self.walk().take(i as int).filter(|e: IndexEntry| float_ge(e.confidence, min_confidence)),
        {
            let (_, v) = self.key_at(i);
            proof {
                reveal_with_fuel(Seq::<_>::filter, 1);
                assert(self.walk().take(i + 1).drop_last() =~= self.walk().take(i as int));
            }
            if confidence_ge(v.confidence, min_confidence) {
                let ghost before = out@;
                out.push(v.clone());
                proof {
                    assert(entries_of(out@) =~= entries_of(before).push(v@));
                }
            }
        }
        proof {
            assert(self.walk().take(n as int) =~= self.walk());
        }
        out
    }
    /// The items whose key meets the words of `keyword` (split at `-`, lower
    /// case), those that meet more words first, in key order among equals.
    pub fn find_by_keyword(&self, keyword: &str) -> (r: Vec<InvertedIndexItem>)
        requires
            self.wf(),
        ensures
            entries_of(r@) == keyword_matches(self.walk(), keyword@),
    {
        let parts = split_words(keyword, true);
        let ghost pv = words(keyword@, true);
        let mut cands: Vec<Ranked> = Vec::new();
        let n = self.item_count();
        for i in 0..n
            invariant
                n == self.walk().len(),
                self.wf(),
                texts_view(parts@) == pv,
                cands@ == keyword_candidates(pv, self.walk().take(i as int)),
        {
            let (k, _) = self.key_at(i);
            let h = count_hits(&parts, k.as_str());
            proof {
                let w = self.walk().take(i + 1);
                assert(w.drop_last() =~= self.walk().take(i as int));
                assert(w.last() == self.walk()[i as int]);
            }
            if h > 0 {
                cands.push(Ranked { pos: i, preferred: false, score: h, confidence: 0 });
            }
        }
        proof {
            assert(self.walk().take(n as int) =~= self.walk());
            lemma_keyword_candidates(pv, self.walk());
        }
        let order = rank_candidates(&cands);
        proof {
            lemma_ranked(cands@);
        }
        let mut out: Vec<InvertedIndexItem> = Vec::new();
        let m = order.len();
        for j in 0..m
            invariant
                m == order@.len(),
                m == cands@.len(),
                n == self.walk().len(),
                self.wf(),
                order@ == ranked(cands@),
                cands@ == keyword_candidates(pv, self.walk()),
                forall|k: int| 0 <= k < cands@.len() ==> (#[trigger] cands@[k]).pos < n,
                forall|k: int| 0 <= k < cands@.len() ==> exists|q: int| 0 <= q < cands@.len() && #[trigger] order@[k] == cands@[q],
                entries_of(out@) == order@.take(j as int).map_values(|c: Ranked| self.walk()[c.pos as int]),
        {
            let c = order[j];
            proof {
                let q = choose|q: int| 0 <= q < cands@.len() && order@[j as int] == cands@[q];
                assert(cands@[q].pos < n);
            }
            let (_, v) = self.key_at(c.pos);
            let ghost before = out@;
            out.push(v.clone());
            proof {
                assert(entries_of(out@) =~= entries_of(before).push(v@));
                assert(order@.take(j + 1).map_values(|c: Ranked| self.walk()[c.pos as int]) =~=
                    order@.take(j as int).map_values(|c: Ranked| self.walk()[c.pos as int]).push(self.walk()[c.pos as int]));
            }
        }
        proof {
            assert(order@.take(m as int) =~= order@);
        }
        out
    }
    /// Takes `mcp_name` out of the list of keyword `kw`; a list left empty goes.
    fn drop_doc(&mut self, kw: String, mcp: &String)
        requires
            old(self).wf(),
        ensures
            final(self).wf(),
            final(self).walk() == old(self).walk(),
            final(self).item_map() == old(self).item_map(),
            final(self).doc_map() == drop_doc_of(old(self).doc_map(), kw@, mcp@),
    {
        let kept = match self.keyword_to_docs.get(&kw) {
            Some(list) => {
                let kept = crate::text::without_text(list, mcp);
                proof {
                    crate::text::lemma_drop_text(list@, mcp@);
                    assert(old(self).doc_map().contains_key(text_key(kw@)));
                    assert(old(self).doc_map()[text_key(kw@)] == texts_view(list@));
                    assert(texts_view(kept@) == crate::text::drop_entry(old(self).doc_map()[text_key(kw@)], mcp@));
                }
                Some(kept)
            },
            None => {
                assert(!old(self).doc_map().contains_key(text_key(kw@)));
                None
            },
        };
        match kept {
            Some(kept) => {
                if kept.len() == 0 {
                    self.keyword_to_docs.remove(&kw);
                    proof {
                        assert(self.doc_map() =~= old(self).doc_map().remove(text_key(kw@)));
                    }
                } else {
                    let ghost kv = texts_view(kept@);
                    self.keyword_to_docs.insert(kw, kept);
                    proof {
                        assert(self.doc_map() =~= old(self).doc_map().insert(text_key(kw@), kv));
                    }
                }
            },
            None => {},
        }
    }

    /// Deletes every item of the MCP `mcp_name`, and takes the name out of
    /// their keywords' lists; the items of other MCPs stay as they were.
    pub fn delete_by_mcp_name(&mut self, mcp_name: &str) -> (r: Result<(), String>)
        requires
            old(self).wf(),
        ensures
            r is Ok,
            final(self).wf(),
            final(self).walk() == without_mcp(old(self).walk(), mcp_name@),
            final(self).doc_map() == docs_without(old(self).doc_map(),
                old(self).walk().filter(|e: IndexEntry| filed_for(e, mcp_name@)), mcp_name@),
    {
        let ghost orig = self.walk();
        let ghost start_docs = self.doc_map();
        let mcp = mcp_name.to_owned();
        let n = self.item_count();
        let mut i: usize = 0;
        let mut p: usize = 0;
        while p < n
            invariant
                n == orig.len(),
                p <= n,
                self.wf(),
                mcp@ == mcp_name@,
                self.walk() == orig.take(p as int).filter(|e: IndexEntry| !filed_for(e, mcp_name@)) + orig.skip(p as int),
                i == orig.take(p as int).filter(|e: IndexEntry| !filed_for(e, mcp_name@)).len(),
                self.doc_map() == docs_without(start_docs,
                    orig.take(p as int).filter(|e: IndexEntry| filed_for(e, mcp_name@)), mcp_name@),
            decreases n - p,
        {
            let ghost kept = orig.take(p as int).filter(|e: IndexEntry| !filed_for(e, mcp_name@));
            let ghost gone = orig.take(p as int).filter(|e: IndexEntry| filed_for(e, mcp_name@));
            proof {
                reveal_with_fuel(Seq::<_>::filter, 1);
                assert(orig.take(p + 1).drop_last() =~= orig.take(p as int));
                assert(self.walk()[i as int] == orig[p as int]);
            }
            let (_, it) = self.key_at(i);
            let hit = text_equal(it.mcp_name.as_str(), mcp_name);
            if hit {
                let ghost before = self.items;
                let ghost old_walk = self.walk();
                proof {
                    self.lemma_walk();
                    assert(i < self.walk().len());
                    assert(i < before.key_seq().len());
                }
                let (_, item) = self.items.remove_at(i);
                proof {
                    assert(before.pairs().len() == before.key_seq().len());
                    assert(self.items.pairs().len() == self.items.key_seq().len());
                    assert(i < before.pairs().len());
                    assert(self.items.pairs() == before.pairs().remove(i as int));
                    assert(self.items.pairs().len() == before.pairs().len() - 1);
                    assert(self.items.key_seq().len() == before.key_seq().len() - 1);
                    assert(self.items.val_seq() =~= before.val_seq().remove(i as int)) by {
                        assert forall|j: int| 0 <= j < self.items.val_seq().len() implies
                            self.items.val_seq()[j] == before.val_seq().remove(i as int)[j] by {
                            assert(self.items.pairs()[j] == before.pairs().remove(i as int)[j]);
                        }
                    }
                    assert(self.items.key_seq() =~= before.key_seq().remove(i as int)) by {
                        assert forall|j: int| 0 <= j < self.items.key_seq().len() implies
                            self.items.key_seq()[j] == before.key_seq().remove(i as int)[j] by {
                            assert(self.items.pairs()[j] == before.pairs().remove(i as int)[j]);
                        }
                    }
                    assert forall|j: int| 0 <= j < self.items.key_seq().len() implies
                        #[trigger] self.items.key_seq()[j] == text_key(entry_key(self.items.val_seq()[j]@)) by {
                        if j < i {
                            assert(before.key_seq()[j] == text_key(entry_key(before.val_seq()[j]@)));
                        } else {
                            assert(before.key_seq()[j + 1] == text_key(entry_key(before.val_seq()[j + 1]@)));
                        }
                    }
                    assert(self.walk() =~= old_walk.remove(i as int));
                    assert(old_walk.remove(i as int) =~= kept + orig.skip(p + 1));
                    assert(orig.take(p + 1).filter(|e: IndexEntry| !filed_for(e, mcp_name@)) == kept);
                    assert(orig.take(p + 1).filter(|e: IndexEntry| filed_for(e, mcp_name@)) == gone.push(orig[p as int]));
                    assert(gone.push(orig[p as int]).drop_last() =~= gone);
                }
                proof {
                    assert(item@ == orig[p as int]);
                }
                self.drop_doc(item.keyword, &mcp);
            } else {
                proof {
                    assert(orig.take(p + 1).filter(|e: IndexEntry| !filed_for(e, mcp_name@)) == kept.push(orig[p as int]));
                    assert(kept.push(orig[p as int]) + orig.skip(p + 1) =~= kept + orig.skip(p as int));
                    assert(orig.take(p + 1).filter(|e: IndexEntry| filed_for(e, mcp_name@)) == gone);
                }
                i = i + 1;
            }
            p = p + 1;
        }
        proof {
            assert(orig.take(n as int) =~= orig);
            assert(orig.skip(n as int) =~= Seq::<IndexEntry>::empty());
            assert(self.walk() =~= orig.filter(|e: IndexEntry| !filed_for(e, mcp_name@)));
        }
        Ok(())
    }
    /// Searches for each of `keywords`, keeps what has at least
    /// `min_confidence`, and gives one item per MCP name (the first found):
    /// those found more often first, then those of higher confidence.
    pub fn find_by_keywords(&self, keywords: &Vec<String>, min_confidence: u32) -> (r: Vec<InvertedIndexItem>)
        requires
            self.wf(),
            keywords@.len() * self.walk().len() <= usize::MAX,
        ensures
            entries_of(r@) == keywords_matches(self.walk(), texts_view(keywords@), min_confidence),
    {
        let ghost w = self.walk();
        let ghost kws = texts_view(keywords@);
        let k = keywords.len();
        let mut groups: Vec<(InvertedIndexItem, usize)> = Vec::new();
        for a in 0..k
            invariant
                k == keywords@.len(),
                w == self.walk(),
                kws == texts_view(keywords@),
                self.wf(),
                k * w.len() <= usize::MAX,
                groups_view(groups@) == tally_keywords(w, kws.take(a as int), min_confidence),
                forall|i: int| 0 <= i < groups@.len() ==> (#[trigger] groups@[i]).1 <= a * w.len(),
        {
            let found = self.find_by_keyword(keywords[a].as_str());
            proof {
                lemma_keyword_matches(w, kws[a as int]);
                lemma_mul_step(a as int, w.len() as int, k as int);
                assert(kws.take(a + 1).drop_last() =~= kws.take(a as int));
                assert(kws.take(a + 1).last() == keywords@[a as int]@);
            }
            let ghost g0 = groups_view(groups@);
            let m = found.len();
            for b in 0..m
                invariant
                    m == found@.len(),
                    m <= w.len(),
                    a < k,
                    k * w.len() <= usize::MAX,
                    a * w.len() + w.len() <= k * w.len(),
                    0 <= a * w.len(),
                    groups_view(groups@) == tally(g0, entries_of(found@).take(b as int), min_confidence),
                    forall|i: int| 0 <= i < groups@.len() ==> (#[trigger] groups@[i]).1 <= a * w.len() + b,
            {
                proof {
                    assert(entries_of(found@).take(b + 1).drop_last() =~= entries_of(found@).take(b as int));
                    assert(entries_of(found@).take(b + 1).last() == found@[b as int]@);
                }
                if confidence_ge(found[b].confidence, min_confidence) {
                    let ghost before = groups@;
                    bump_group(&mut groups, &found[b], 1);
                    proof {
                        let gv = groups_view(before);
                        let idx = group_index(gv, found@[b as int]@.mcp_name);
                        lemma_group_index(gv, found@[b as int]@.mcp_name);
                        assert forall|i: int| 0 <= i < groups@.len() implies (#[trigger] groups@[i]).1 <= a * w.len() + b + 1 by {
                            assert(groups_view(groups@)[i].1 == groups@[i].1);
                            if idx >= 0 {
                                assert(groups_view(groups@) == gv.update(idx, (gv[idx].0, gv[idx].1 + 1)));
                                assert(gv[i].1 == before[i].1);
                            } else {
                                assert(groups_view(groups@) == gv.push((found@[b as int]@, 1nat)));
                                if i < before.len() {
                                    assert(gv[i].1 == before[i].1);
                                }
                            }
                        }
                    }
                }
            }
            proof {
                assert(entries_of(found@).take(m as int) =~= entries_of(found@));
            }
        }
        proof {
            assert(kws.take(k as int) =~= kws);
        }
        let order = rank_groups(&groups, false);
        let mut out: Vec<InvertedIndexItem> = Vec::new();
        let n = order.len();
        for j in 0..n
            invariant
                n == order@.len(),
                n == groups@.len(),
                forall|q: int| 0 <= q < order@.len() ==> (#[trigger] order@[q]).pos < groups@.len(),
                entries_of(out@) == order@.take(j as int).map_values(|c: Ranked| groups_view(groups@)[c.pos as int].0),
        {
            let c = order[j];
            let ghost before = out@;
            out.push(groups[c.pos].0.clone());
            proof {
                assert(entries_of(out@) =~= entries_of(before).push(groups@[c.pos as int].0@));
                assert(order@.take(j + 1).map_values(|c: Ranked| groups_view(groups@)[c.pos as int].0) =~=
                    order@.take(j as int).map_values(|c: Ranked| groups_view(groups@)[c.pos as int].0).push(groups_view(groups@)[c.pos as int].0));
            }
        }
        proof {
            assert(order@.take(n as int) =~= order@);
        }
        out
    }
    /// The best match for a list of keywords. Each keyword is split into
    /// lower-case words at `-` and `_` and searched for; an item found counts
    /// for its MCP name as many word lists as it shares more than half the
    /// words of, unless it is a `help` method or its confidence is below 0.7.
    /// The MCP names are ranked (standard match `true` first, then by count,
    /// then by confidence) and the item of the best one comes back; none when
    /// there is no keyword or nothing counts.
    pub fn find_by_keywords_strategy(&self, keywords: &Vec<String>) -> (r: Option<InvertedIndexItem>)
        requires
            self.wf(),
        ensures
            strategy_fits(self.walk(), texts_view(keywords@)) ==> match (r, strategy_choice(self.walk(), texts_view(keywords@))) {
                (Some(x), Some(e)) => x@ == e,
                (None, None) => true,
                _ => false,
            },
            !strategy_fits(self.walk(), texts_view(keywords@)) ==> r is None,
    {
        let ghost w = self.walk();
        let ghost kws = texts_view(keywords@);
        let ghost sv = keyword_words(kws);
        let k = keywords.len();
        if k == 0 {
            return None;
        }
        let mut seqs: Vec<Vec<String>> = Vec::new();
        for i in 0..k
            invariant
                k == keywords@.len(),
                kws == texts_view(keywords@),
                sv == keyword_words(kws),
                lists_view(seqs@) == sv.take(i as int),
        {
            let ws = split_words(keywords[i].as_str(), false);
            let ghost before = seqs@;
            seqs.push(ws);
            proof {
                assert(lists_view(seqs@) =~= lists_view(before).push(texts_view(ws@)));
                assert(lists_view(seqs@) =~= sv.take(i + 1));
            }
        }
        proof {
            assert(sv.take(k as int) =~= sv);
        }
        let mut groups: Vec<(InvertedIndexItem, usize)> = Vec::new();
        for a in 0..k
            invariant
                k == keywords@.len(),
                k == sv.len(),
                w == self.walk(),
                lists_view(seqs@) == sv,
                self.wf(),
                kws == texts_view(keywords@),
                sv == keyword_words(kws),
                groups_view(groups@) == strategy_groups(w, sv, a as nat),
        {
            let joined = join_words(&seqs[a]);
            let found = self.find_by_keyword(joined.as_str());
            proof {
                assert(lists_view(seqs@)[a as int] == texts_view(seqs@[a as int]@));
                lemma_keyword_matches(w, join_dash(sv[a as int]));
            }
            let ghost g0 = groups_view(groups@);
            let m = found.len();
            for b in 0..m
                invariant
                    m == found@.len(),
                    m <= w.len(),
                    a < k,
                    k == sv.len(),
                    lists_view(seqs@) == sv,
                    kws == texts_view(keywords@),
                    sv == keyword_words(kws),
                    g0 == strategy_groups(w, sv, a as nat),
                    w == self.walk(),
                    entries_of(found@) == keyword_matches(w, join_dash(sv[a as int])),
                    groups_view(groups@) == strategy_tally(g0, entries_of(found@).take(b as int), sv),
            {
                let ghost fb = entries_of(found@).take(b + 1);
                proof {
                    assert(fb.drop_last() =~= entries_of(found@).take(b as int));
                    assert(fb.last() == found@[b as int]@);
                }
                let item = &found[b];
                if !text_equal(item.method_name.as_str(), "help")
                    && !confidence_lt(item.confidence, STRATEGY_MIN_CONFIDENCE) {
                    let stored = split_words(item.keyword.as_str(), false);
                    let score = score_words(&seqs, &stored);
                    if score > 0 {
                        let cur = current_total(&groups, &item.mcp_name);
                        if score > usize::MAX - cur {
                            proof {
                                let mm = item@.mcp_name;
                                let ff = entries_of(found@);
                                lemma_bump_total(groups_view(groups@), item@, score as nat, mm);
                                assert(strategy_tally(g0, fb, sv) == bump(groups_view(groups@), item@, score as nat));
                                lemma_strategy_tally_grows(g0, ff, sv, b + 1, mm);
                                assert(strategy_tally(g0, ff, sv) == strategy_groups(w, sv, (a + 1) as nat));
                                lemma_strategy_groups_grow(w, sv, (a + 1) as nat, k as nat, mm);
                                let fin = strategy_groups(w, sv, k as nat);
                                lemma_group_index(fin, mm);
                                let j = group_index(fin, mm);
                                assert(0 <= j < fin.len());
                                assert(fin[j].1 > usize::MAX);
                                assert(!strategy_fits(w, kws));
                            }
                            return None;
                        }
                        bump_group(&mut groups, item, score);
                    }
                }
            }
            proof {
                assert(entries_of(found@).take(m as int) =~= entries_of(found@));
            }
        }
        if groups.len() == 0 {
            return None;
        }
        let order = rank_groups(&groups, true);
        let best = order[0].pos;
        Some(groups[best].0.clone())
    }
}

/// On binary32 numbers that are not negative and no NaN, the order of the
/// numbers is the order of their bit patterns.
pub proof fn lemma_float_order_nonnegative(a: u32, b: u32)
    requires
        a <= 0x7f80_0000u32,
        b <= 0x7f80_0000u32,
    ensures
        float_gt(a, b) <==> a > b,
        float_lt(a, b) <==> a < b,
        float_ge(a, b) <==> a >= b,
{
    assert(a & 0x8000_0000u32 == 0 && a & 0x7fff_ffffu32 == a) by (bit_vector)
        requires
            a <= 0x7f80_0000u32,
    ;
    assert(b & 0x8000_0000u32 == 0 && b & 0x7fff_ffffu32 == b) by (bit_vector)
        requires
            b <= 0x7f80_0000u32,
    ;
}

/// On negative binary32 numbers that are no NaN, the larger number has the
/// smaller bit pattern.
pub proof fn lemma_float_order_negative(a: u32, b: u32)
    requires
        0x8000_0000u32 <= a <= 0xff80_0000u32,
        0x8000_0000u32 <= b <= 0xff80_0000u32,
    ensures
        float_gt(a, b) <==> a < b,
        float_lt(a, b) <==> a > b,
{
    assert(a & 0x8000_0000u32 != 0 && a & 0x7fff_ffffu32 == a - 0x8000_0000u32) by (bit_vector)
        requires
            0x8000_0000u32 <= a <= 0xff80_0000u32,
    ;
    assert(b & 0x8000_0000u32 != 0 && b & 0x7fff_ffffu32 == b - 0x8000_0000u32) by (bit_vector)
        requires
            0x8000_0000u32 <= b <= 0xff80_0000u32,
    ;
}

/// A number that is not negative is above every negative one, but for the two
/// zeros, which are equal.
pub proof fn lemma_float_order_signs(a: u32, b: u32)
    requires
        a <= 0x7f80_0000u32,
        0x8000_0000u32 <= b <= 0xff80_0000u32,
        a != 0 || b != 0x8000_0000u32,
    ensures
        float_gt(a, b),
        !float_gt(b, a),
{
    assert(a & 0x8000_0000u32 == 0 && a & 0x7fff_ffffu32 == a) by (bit_vector)
        requires
            a <= 0x7f80_0000u32,
    ;
    assert(b & 0x8000_0000u32 != 0 && b & 0x7fff_ffffu32 == b - 0x8000_0000u32) by (bit_vector)
        requires
            0x8000_0000u32 <= b <= 0xff80_0000u32,
    ;
}

/// Ranking is a strict order: nothing outranks itself, and it is transitive.
proof fn lemma_outranks_order(a: Ranked, b: Ranked, c: Ranked)
    ensures
        !outranks(a, a),
        outranks(a, b) && outranks(b, c) ==> outranks(a, c),
        outranks(a, b) ==> !outranks(b, a),
{
}

/// `rank_slot` is the first position from `i` on that `x` outranks.
proof fn lemma_rank_slot_first(x: Ranked, t: Seq<Ranked>, i: int)
    requires
        0 <= i <= t.len(),
    ensures
        forall|k: int| i <= k < rank_slot(x, t, i) ==> !outranks(x, #[trigger] t[k]),
        rank_slot(x, t, i) < t.len() ==> outranks(x, t[rank_slot(x, t, i)]),
    decreases t.len() - i,
{
    if i < t.len() && !outranks(x, t[i]) {
        lemma_rank_slot_first(x, t, i + 1);
    }
}

/// In a ranking no candidate outranks one that comes before it.
pub proof fn lemma_ranked_sorted(s: Seq<Ranked>)
    ensures
        forall|i: int, j: int| 0 <= i < j < ranked(s).len() ==> !outranks(#[trigger] ranked(s)[j], #[trigger] ranked(s)[i]),
    decreases s.len(),
{
    if s.len() > 0 {
        let t = ranked(s.drop_last());
        let x = s.last();
        lemma_ranked_sorted(s.drop_last());
        lemma_rank_slot(x, t, 0);
        lemma_rank_slot_first(x, t, 0);
        let p = rank_slot(x, t, 0);
        let r = t.insert(p, x);
        assert(ranked(s) == r);
        assert forall|i: int, j: int| 0 <= i < j < r.len() implies !outranks(#[trigger] r[j], #[trigger] r[i]) by {
            if j < p {
                assert(r[i] == t[i] && r[j] == t[j]);
            } else if j == p {
                assert(r[i] == t[i] && r[j] == x);
            } else if i < p {
                assert(r[i] == t[i] && r[j] == t[j - 1]);
            } else if i == p {
                assert(r[i] == x && r[j] == t[j - 1]);
                lemma_outranks_order(t[j - 1], x, t[p]);
                if j - 1 > p {
                    assert(!outranks(t[j - 1], t[p]));
                }
            } else {
                assert(r[i] == t[i - 1] && r[j] == t[j - 1]);
            }
        }
    }
}

/// What a ranking orders by: preferred candidates first; among candidates of
/// the same preference, higher scores first; and among those of the same score,
/// a candidate of strictly higher confidence never comes after one of lower.
pub proof fn lemma_ranking_order(s: Seq<Ranked>)
    ensures
        forall|i: int, j: int| 0 <= i < j < ranked(s).len() ==> {
            let a = #[trigger] ranked(s)[i];
            let b = #[trigger] ranked(s)[j];
            &&& (b.preferred ==> a.preferred)
            &&& (a.preferred == b.preferred ==> a.score >= b.score)
            &&& (a.preferred == b.preferred && a.score == b.score ==> !float_gt(b.confidence, a.confidence))
        },
{
    lemma_ranked_sorted(s);
}

/// What a search for several keywords gives is ordered by how often each item
/// was found, most first, and among items found equally often, one of strictly
/// higher confidence never comes after one of lower.
pub proof fn lemma_keywords_matches_order(w: Seq<IndexEntry>, kws: Seq<Seq<char>>, min: u32)
    requires
        tally_keywords(w, kws, min).len() <= usize::MAX,
    ensures
        ({
            let g = tally_keywords(w, kws, min);
            let c = ranked(group_candidates(g, false));
            let r = keywords_matches(w, kws, min);
            &&& r.len() == c.len()
            &&& forall|i: int| 0 <= i < c.len() ==> 0 <= (#[trigger] c[i]).pos < g.len() && r[i] == g[c[i].pos as int].0
            &&& forall|i: int, j: int| 0 <= i < j < c.len() ==> (#[trigger] c[i]).score >= (#[trigger] c[j]).score && (c[i].score
                == c[j].score ==> !float_gt(r[j].confidence, r[i].confidence))
        }),
{
    let g = tally_keywords(w, kws, min);
    let s = group_candidates(g, false);
    let c = ranked(s);
    let r = keywords_matches(w, kws, min);
    lemma_ranked(s);
    lemma_ranking_order(s);
    assert forall|i: int| 0 <= i < c.len() implies 0 <= (#[trigger] c[i]).pos < g.len() && r[i] == g[c[i].pos as int].0
        && c[i].confidence == r[i].confidence by {
        let k = choose|k: int| 0 <= k < s.len() && #[trigger] c[i] == s[k];
        assert(s[k].pos == k as usize);
        assert(c[i].pos as int == k);
        assert(r[i] == g[c[i].pos as int].0);
    }
    assert forall|i: int, j: int| 0 <= i < j < c.len() implies (#[trigger] c[i]).score >= (#[trigger] c[j]).score && (c[i].score
        == c[j].score ==> !float_gt(r[j].confidence, r[i].confidence)) by {
        assert(c[i].confidence == r[i].confidence);
        assert(c[j].confidence == r[j].confidence);
    }
}

} // verus!
