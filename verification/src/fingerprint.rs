//! The fingerprint generator. A query — an ordered list of filters — is
//! mapped to a fixed-width cache key by hashing its canonical byte encoding:
//! fields in a fixed order, absent and empty constraints kept apart, every
//! length explicit. The encoding is proved injective, so equal keys can come
//! only from equal queries or from a collision of the final 64-bit hash;
//! the hash itself is the Fowler–Noll–Vo function, chosen for stability
//! across processes and platforms.

use vstd::prelude::*;

use crate::codec::{
    dec_bytes, dec_bytes_list, dec_u64, enc_bytes, enc_bytes_list, enc_u64, fits_u64,
    lemma_concat_assoc, lemma_dec_enc_bytes, lemma_dec_enc_bytes_list, lemma_dec_enc_u64,
    wf_bytes_list,
};
use crate::filter::{Filter, FilterView, TagQuery, TagQueryView};

verus! {

// ---------------------------------------------------------------------------
// Lists of integers.
// ---------------------------------------------------------------------------

/// Concatenated encodings of a list of integers.
pub open spec fn concat_enc_u64s(items: Seq<u64>) -> Seq<u8>
    decreases items.len(),
{
    if items.len() == 0 {
        Seq::empty()
    } else {
        enc_u64(items[0]) + concat_enc_u64s(items.skip(1))
    }
}

/// Canonical encoding of a list of integers.
pub open spec fn enc_u64_list(items: Seq<u64>) -> Seq<u8> {
    enc_u64(items.len() as u64) + concat_enc_u64s(items)
}

/// Decodes `n` integers from the front of `s`.
pub open spec fn dec_u64_items(s: Seq<u8>, n: nat) -> Option<(Seq<u64>, Seq<u8>)>
    decreases n,
{
    if n == 0 {
        Some((Seq::empty(), s))
    } else {
        match dec_u64(s) {
            Some((v, r)) => match dec_u64_items(r, (n - 1) as nat) {
                Some((items, r2)) => Some((seq![v] + items, r2)),
                None => None,
            },
            None => None,
        }
    }
}

/// Decodes a list of integers from the front of `s`.
pub open spec fn dec_u64_list(s: Seq<u8>) -> Option<(Seq<u64>, Seq<u8>)> {
    match dec_u64(s) {
        Some((n, r)) => dec_u64_items(r, n as nat),
        None => None,
    }
}

proof fn lemma_dec_enc_u64_items(items: Seq<u64>, rest: Seq<u8>)
    ensures
        dec_u64_items(concat_enc_u64s(items) + rest, items.len()) == Some((items, rest)),
    decreases items.len(),
{
    if items.len() == 0 {
        assert(concat_enc_u64s(items) + rest =~= rest);
        assert(items =~= Seq::<u64>::empty());
    } else {
        let tail = items.skip(1);
        lemma_concat_assoc(enc_u64(items[0]), concat_enc_u64s(tail), rest);
        lemma_dec_enc_u64(items[0], concat_enc_u64s(tail) + rest);
        lemma_dec_enc_u64_items(tail, rest);
        assert(seq![items[0]] + tail =~= items);
    }
}

/// Decoding inverts encoding for lists of integers, whatever follows.
pub proof fn lemma_dec_enc_u64_list(items: Seq<u64>, rest: Seq<u8>)
    requires
        fits_u64(items.len()),
    ensures
        dec_u64_list(enc_u64_list(items) + rest) == Some((items, rest)),
{
    lemma_concat_assoc(enc_u64(items.len() as u64), concat_enc_u64s(items), rest);
    lemma_dec_enc_u64(items.len() as u64, concat_enc_u64s(items) + rest);
    lemma_dec_enc_u64_items(items, rest);
}

// ---------------------------------------------------------------------------
// Optional fields: a presence byte, then the value if present. An absent
// constraint and an empty one therefore never encode alike.
// ---------------------------------------------------------------------------

/// Canonical encoding of an optional integer.
pub open spec fn enc_opt_u64(o: Option<u64>) -> Seq<u8> {
    match o {
        None => seq![0u8],
        Some(n) => seq![1u8] + enc_u64(n),
    }
}

/// Decodes an optional integer from the front of `s`.
pub open spec fn dec_opt_u64(s: Seq<u8>) -> Option<(Option<u64>, Seq<u8>)> {
    if s.len() == 0 {
        None
    } else if s[0] == 0 {
        Some((None, s.skip(1)))
    } else if s[0] == 1 {
        match dec_u64(s.skip(1)) {
            Some((n, r)) => Some((Some(n), r)),
            None => None,
        }
    } else {
        None
    }
}

/// Decoding inverts encoding for optional integers, whatever follows.
pub proof fn lemma_dec_enc_opt_u64(o: Option<u64>, rest: Seq<u8>)
    ensures
        dec_opt_u64(enc_opt_u64(o) + rest) == Some((o, rest)),
{
    match o {
        None => {
            assert((seq![0u8] + rest).skip(1) =~= rest);
        },
        Some(n) => {
            lemma_concat_assoc(seq![1u8], enc_u64(n), rest);
            assert((seq![1u8] + (enc_u64(n) + rest)).skip(1) =~= enc_u64(n) + rest);
            lemma_dec_enc_u64(n, rest);
        },
    }
}

/// Canonical encoding of an optional byte string.
pub open spec fn enc_opt_bytes(o: Option<Seq<u8>>) -> Seq<u8> {
    match o {
        None => seq![0u8],
        Some(b) => seq![1u8] + enc_bytes(b),
    }
}

/// Decodes an optional byte string from the front of `s`.
pub open spec fn dec_opt_bytes(s: Seq<u8>) -> Option<(Option<Seq<u8>>, Seq<u8>)> {
    if s.len() == 0 {
        None
    } else if s[0] == 0 {
        Some((None, s.skip(1)))
    } else if s[0] == 1 {
        match dec_bytes(s.skip(1)) {
            Some((b, r)) => Some((Some(b), r)),
            None => None,
        }
    } else {
        None
    }
}

/// Decoding inverts encoding for optional byte strings.
pub proof fn lemma_dec_enc_opt_bytes(o: Option<Seq<u8>>, rest: Seq<u8>)
    requires
        o is Some ==> fits_u64(o.unwrap().len()),
    ensures
        dec_opt_bytes(enc_opt_bytes(o) + rest) == Some((o, rest)),
{
    match o {
        None => {
            assert((seq![0u8] + rest).skip(1) =~= rest);
        },
        Some(b) => {
            lemma_concat_assoc(seq![1u8], enc_bytes(b), rest);
            assert((seq![1u8] + (enc_bytes(b) + rest)).skip(1) =~= enc_bytes(b) + rest);
            lemma_dec_enc_bytes(b, rest);
        },
    }
}

/// Canonical encoding of an optional list of byte strings.
pub open spec fn enc_opt_bytes_list(o: Option<Seq<Seq<u8>>>) -> Seq<u8> {
    match o {
        None => seq![0u8],
        Some(items) => seq![1u8] + enc_bytes_list(items),
    }
}

/// Decodes an optional list of byte strings from the front of `s`.
pub open spec fn dec_opt_bytes_list(s: Seq<u8>) -> Option<(Option<Seq<Seq<u8>>>, Seq<u8>)> {
    if s.len() == 0 {
        None
    } else if s[0] == 0 {
        Some((None, s.skip(1)))
    } else if s[0] == 1 {
        match dec_bytes_list(s.skip(1)) {
            Some((items, r)) => Some((Some(items), r)),
            None => None,
        }
    } else {
        None
    }
}

/// Decoding inverts encoding for optional byte-string lists.
pub proof fn lemma_dec_enc_opt_bytes_list(o: Option<Seq<Seq<u8>>>, rest: Seq<u8>)
    requires
        o is Some ==> wf_bytes_list(o.unwrap()),
    ensures
        dec_opt_bytes_list(enc_opt_bytes_list(o) + rest) == Some((o, rest)),
{
    match o {
        None => {
            assert((seq![0u8] + rest).skip(1) =~= rest);
        },
        Some(items) => {
            lemma_concat_assoc(seq![1u8], enc_bytes_list(items), rest);
            assert((seq![1u8] + (enc_bytes_list(items) + rest)).skip(1) =~= enc_bytes_list(items)
                + rest);
            lemma_dec_enc_bytes_list(items, rest);
        },
    }
}

/// Canonical encoding of an optional list of integers.
pub open spec fn enc_opt_u64_list(o: Option<Seq<u64>>) -> Seq<u8> {
    match o {
        None => seq![0u8],
        Some(items) => seq![1u8] + enc_u64_list(items),
    }
}

/// Decodes an optional list of integers from the front of `s`.
pub open spec fn dec_opt_u64_list(s: Seq<u8>) -> Option<(Option<Seq<u64>>, Seq<u8>)> {
    if s.len() == 0 {
        None
    } else if s[0] == 0 {
        Some((None, s.skip(1)))
    } else if s[0] == 1 {
        match dec_u64_list(s.skip(1)) {
            Some((items, r)) => Some((Some(items), r)),
            None => None,
        }
    } else {
        None
    }
}

/// Decoding inverts encoding for optional integer lists.
pub proof fn lemma_dec_enc_opt_u64_list(o: Option<Seq<u64>>, rest: Seq<u8>)
    requires
        o is Some ==> fits_u64(o.unwrap().len()),
    ensures
        dec_opt_u64_list(enc_opt_u64_list(o) + rest) == Some((o, rest)),
{
    match o {
        None => {
            assert((seq![0u8] + rest).skip(1) =~= rest);
        },
        Some(items) => {
            lemma_concat_assoc(seq![1u8], enc_u64_list(items), rest);
            assert((seq![1u8] + (enc_u64_list(items) + rest)).skip(1) =~= enc_u64_list(items)
                + rest);
            lemma_dec_enc_u64_list(items, rest);
        },
    }
}

// ---------------------------------------------------------------------------
// Tag constraints.
// ---------------------------------------------------------------------------

/// Canonical encoding of one tag constraint: its letter, then its values.
pub open spec fn enc_tag_query(t: TagQueryView) -> Seq<u8> {
    seq![t.letter] + enc_bytes_list(t.values)
}

/// Decodes one tag constraint from the front of `s`.
pub open spec fn dec_tag_query(s: Seq<u8>) -> Option<(TagQueryView, Seq<u8>)> {
    if s.len() == 0 {
        None
    } else {
        match dec_bytes_list(s.skip(1)) {
            Some((values, r)) => Some((TagQueryView { letter: s[0], values }, r)),
            None => None,
        }
    }
}

/// The tag constraint's value list fits the length fields.
pub open spec fn wf_tag_query(t: TagQueryView) -> bool {
    wf_bytes_list(t.values)
}

/// Decoding inverts encoding for tag constraints, whatever follows.
pub proof fn lemma_dec_enc_tag_query(t: TagQueryView, rest: Seq<u8>)
    requires
        wf_tag_query(t),
    ensures
        dec_tag_query(enc_tag_query(t) + rest) == Some((t, rest)),
{
    lemma_concat_assoc(seq![t.letter], enc_bytes_list(t.values), rest);
    assert((seq![t.letter] + (enc_bytes_list(t.values) + rest)).skip(1) =~= enc_bytes_list(t.values)
        + rest);
    lemma_dec_enc_bytes_list(t.values, rest);
}

/// Concatenated encodings of a list of tag constraints.
pub open spec fn concat_enc_tag_queries(tags: Seq<TagQueryView>) -> Seq<u8>
    decreases tags.len(),
{
    if tags.len() == 0 {
        Seq::empty()
    } else {
        enc_tag_query(tags[0]) + concat_enc_tag_queries(tags.skip(1))
    }
}

/// Canonical encoding of a list of tag constraints.
pub open spec fn enc_tag_query_list(tags: Seq<TagQueryView>) -> Seq<u8> {
    enc_u64(tags.len() as u64) + concat_enc_tag_queries(tags)
}

/// Decodes `n` tag constraints from the front of `s`.
pub open spec fn dec_tag_query_items(s: Seq<u8>, n: nat) -> Option<(Seq<TagQueryView>, Seq<u8>)>
    decreases n,
{
    if n == 0 {
        Some((Seq::empty(), s))
    } else {
        match dec_tag_query(s) {
            Some((t, r)) => match dec_tag_query_items(r, (n - 1) as nat) {
                Some((tags, r2)) => Some((seq![t] + tags, r2)),
                None => None,
            },
            None => None,
        }
    }
}

/// Decodes a list of tag constraints from the front of `s`.
pub open spec fn dec_tag_query_list(s: Seq<u8>) -> Option<(Seq<TagQueryView>, Seq<u8>)> {
    match dec_u64(s) {
        Some((n, r)) => dec_tag_query_items(r, n as nat),
        None => None,
    }
}

/// Every tag constraint of the list is well formed and the list fits a
/// count field.
pub open spec fn wf_tag_query_list(tags: Seq<TagQueryView>) -> bool {
    &&& fits_u64(tags.len())
    &&& forall|i: int| 0 <= i < tags.len() ==> wf_tag_query(#[trigger] tags[i])
}

proof fn lemma_dec_enc_tag_query_items(tags: Seq<TagQueryView>, rest: Seq<u8>)
    requires
        forall|i: int| 0 <= i < tags.len() ==> wf_tag_query(#[trigger] tags[i]),
    ensures
        dec_tag_query_items(concat_enc_tag_queries(tags) + rest, tags.len()) == Some((tags, rest)),
    decreases tags.len(),
{
    if tags.len() == 0 {
        assert(concat_enc_tag_queries(tags) + rest =~= rest);
        assert(tags =~= Seq::<TagQueryView>::empty());
    } else {
        let tail = tags.skip(1);
        lemma_concat_assoc(enc_tag_query(tags[0]), concat_enc_tag_queries(tail), rest);
        lemma_dec_enc_tag_query(tags[0], concat_enc_tag_queries(tail) + rest);
        lemma_dec_enc_tag_query_items(tail, rest);
        assert(seq![tags[0]] + tail =~= tags);
    }
}

/// Decoding inverts encoding for lists of tag constraints.
pub proof fn lemma_dec_enc_tag_query_list(tags: Seq<TagQueryView>, rest: Seq<u8>)
    requires
        wf_tag_query_list(tags),
    ensures
        dec_tag_query_list(enc_tag_query_list(tags) + rest) == Some((tags, rest)),
{
    lemma_concat_assoc(enc_u64(tags.len() as u64), concat_enc_tag_queries(tags), rest);
    lemma_dec_enc_u64(tags.len() as u64, concat_enc_tag_queries(tags) + rest);
    lemma_dec_enc_tag_query_items(tags, rest);
}

// ---------------------------------------------------------------------------
// Filters and queries.
// ---------------------------------------------------------------------------

/// Canonical encoding of one filter: every field, in a fixed order.
pub open spec fn enc_filter(f: FilterView) -> Seq<u8> {
    enc_opt_bytes_list(f.ids) + enc_opt_bytes_list(f.authors) + enc_opt_u64_list(f.kinds)
        + enc_opt_u64(f.since) + enc_opt_u64(f.until) + enc_opt_u64(f.limit) + enc_opt_bytes(
        f.search,
    ) + enc_tag_query_list(f.tags)
}

/// Decodes one filter from the front of `s`.
#[verifier::opaque]
pub open spec fn dec_filter(s: Seq<u8>) -> Option<(FilterView, Seq<u8>)> {
    match dec_opt_bytes_list(s) {
        Some((ids, s)) => match dec_opt_bytes_list(s) {
            Some((authors, s)) => match dec_opt_u64_list(s) {
                Some((kinds, s)) => match dec_opt_u64(s) {
                    Some((since, s)) => match dec_opt_u64(s) {
                        Some((until, s)) => match dec_opt_u64(s) {
                            Some((limit, s)) => match dec_opt_bytes(s) {
                                Some((search, s)) => match dec_tag_query_list(s) {
                                    Some((tags, s)) => Some(
                                        (FilterView {
                                            ids,
                                            authors,
                                            kinds,
                                            since,
                                            until,
                                            limit,
                                            search,
                                            tags,
                                        },
                                        s),
                                    ),
                                    None => None,
                                },
                                None => None,
                            },
                            None => None,
                        },
                        None => None,
                    },
                    None => None,
                },
                None => None,
            },
            None => None,
        },
        None => None,
    }
}

/// Every list of the filter fits its length and count fields.
pub open spec fn wf_filter(f: FilterView) -> bool {
    &&& (f.ids is Some ==> wf_bytes_list(f.ids.unwrap()))
    &&& (f.authors is Some ==> wf_bytes_list(f.authors.unwrap()))
    &&& (f.kinds is Some ==> fits_u64(f.kinds.unwrap().len()))
    &&& (f.search is Some ==> fits_u64(f.search.unwrap().len()))
    &&& wf_tag_query_list(f.tags)
}

/// Decoding inverts encoding for one filter, whatever follows.
pub proof fn lemma_dec_enc_filter(f: FilterView, rest: Seq<u8>)
    requires
        wf_filter(f),
    ensures
        dec_filter(enc_filter(f) + rest) == Some((f, rest)),
{
    reveal(dec_filter);
    let a = enc_opt_bytes_list(f.ids);
    let b = enc_opt_bytes_list(f.authors);
    let c = enc_opt_u64_list(f.kinds);
    let d = enc_opt_u64(f.since);
    let e = enc_opt_u64(f.until);
    let g = enc_opt_u64(f.limit);
    let w = enc_opt_bytes(f.search);
    let h = enc_tag_query_list(f.tags);
    let r7 = h + rest;
    let r6 = w + r7;
    let r5 = g + r6;
    let r4 = e + r5;
    let r3 = d + r4;
    let r2 = c + r3;
    let r1 = b + r2;
    lemma_concat_assoc(a + b + c + d + e + g + w, h, rest);
    lemma_concat_assoc(a + b + c + d + e + g, w, r7);
    lemma_concat_assoc(a + b + c + d + e, g, r6);
    lemma_concat_assoc(a + b + c + d, e, r5);
    lemma_concat_assoc(a + b + c, d, r4);
    lemma_concat_assoc(a + b, c, r3);
    lemma_concat_assoc(a, b, r2);
    assert(enc_filter(f) + rest == a + r1);
    lemma_dec_enc_opt_bytes_list(f.ids, r1);
    lemma_dec_enc_opt_bytes_list(f.authors, r2);
    lemma_dec_enc_opt_u64_list(f.kinds, r3);
    lemma_dec_enc_opt_u64(f.since, r4);
    lemma_dec_enc_opt_u64(f.until, r5);
    lemma_dec_enc_opt_u64(f.limit, r6);
    lemma_dec_enc_opt_bytes(f.search, r7);
    lemma_dec_enc_tag_query_list(f.tags, rest);
}

/// Concatenated encodings of the filters of a query.
pub open spec fn concat_enc_filters(q: Seq<FilterView>) -> Seq<u8>
    decreases q.len(),
{
    if q.len() == 0 {
        Seq::empty()
    } else {
        enc_filter(q[0]) + concat_enc_filters(q.skip(1))
    }
}

/// The canonical byte encoding of a whole query: the number of filters,
/// then each filter, in order.
pub open spec fn enc_query(q: Seq<FilterView>) -> Seq<u8> {
    enc_u64(q.len() as u64) + concat_enc_filters(q)
}

/// Decodes `n` filters from the front of `s`.
pub open spec fn dec_filter_items(s: Seq<u8>, n: nat) -> Option<(Seq<FilterView>, Seq<u8>)>
    decreases n,
{
    if n == 0 {
        Some((Seq::empty(), s))
    } else {
        match dec_filter(s) {
            Some((f, r)) => match dec_filter_items(r, (n - 1) as nat) {
                Some((q, r2)) => Some((seq![f] + q, r2)),
                None => None,
            },
            None => None,
        }
    }
}

/// Decodes a whole query; the whole byte string must be consumed.
pub open spec fn dec_query(s: Seq<u8>) -> Option<Seq<FilterView>> {
    match dec_u64(s) {
        Some((n, r)) => match dec_filter_items(r, n as nat) {
            Some((q, r2)) => if r2.len() == 0 {
                Some(q)
            } else {
                None
            },
            None => None,
        },
        None => None,
    }
}

/// Every filter of the query is well formed and the query fits a count
/// field.
pub open spec fn wf_query(q: Seq<FilterView>) -> bool {
    &&& fits_u64(q.len())
    &&& forall|i: int| 0 <= i < q.len() ==> wf_filter(#[trigger] q[i])
}

#[verifier::rlimit(50)]
proof fn lemma_dec_enc_filter_items(q: Seq<FilterView>, rest: Seq<u8>)
    requires
        forall|i: int| 0 <= i < q.len() ==> wf_filter(#[trigger] q[i]),
    ensures
        dec_filter_items(concat_enc_filters(q) + rest, q.len()) == Some((q, rest)),
    decreases q.len(),
{
    if q.len() == 0 {
        assert(concat_enc_filters(q) + rest =~= rest);
        assert(q =~= Seq::<FilterView>::empty());
    } else {
        let tail = q.skip(1);
        lemma_concat_assoc(enc_filter(q[0]), concat_enc_filters(tail), rest);
        lemma_dec_enc_filter(q[0], concat_enc_filters(tail) + rest);
        lemma_dec_enc_filter_items(tail, rest);
        assert(seq![q[0]] + tail =~= q);
    }
}

/// Decoding inverts encoding for whole queries.
pub proof fn lemma_dec_enc_query(q: Seq<FilterView>)
    requires
        wf_query(q),
    ensures
        dec_query(enc_query(q)) == Some(q),
{
    assert(enc_query(q) =~= enc_u64(q.len() as u64) + (concat_enc_filters(q) + Seq::empty()));
    lemma_dec_enc_u64(q.len() as u64, concat_enc_filters(q) + Seq::empty());
    lemma_dec_enc_filter_items(q, Seq::empty());
}

/// The canonical query encoding is injective: equal encodings can only
/// come from equal queries.
pub proof fn lemma_enc_query_injective(q1: Seq<FilterView>, q2: Seq<FilterView>)
    requires
        wf_query(q1),
        wf_query(q2),
        enc_query(q1) == enc_query(q2),
    ensures
        q1 == q2,
{
    lemma_dec_enc_query(q1);
    lemma_dec_enc_query(q2);
}

// ---------------------------------------------------------------------------
// Appending one encoded entry extends the concatenation by that entry.
// ---------------------------------------------------------------------------

pub proof fn lemma_concat_enc_u64s_snoc(s: Seq<u64>, x: u64)
    ensures
        concat_enc_u64s(s.push(x)) == concat_enc_u64s(s) + enc_u64(x),
    decreases s.len(),
{
    let p = s.push(x);
    assert(p.len() == s.len() + 1);
    if s.len() == 0 {
        assert(p[0] == x);
        assert(p.skip(1) =~= Seq::<u64>::empty());
        assert(concat_enc_u64s(Seq::<u64>::empty()) == Seq::<u8>::empty());
        assert(concat_enc_u64s(p) == enc_u64(x) + Seq::<u8>::empty());
        assert(enc_u64(x) + Seq::<u8>::empty() =~= Seq::<u8>::empty() + enc_u64(x));
        assert(concat_enc_u64s(s) == Seq::<u8>::empty());
    } else {
        assert(p[0] == s[0]);
        assert(p.skip(1) =~= s.skip(1).push(x));
        lemma_concat_enc_u64s_snoc(s.skip(1), x);
        assert(concat_enc_u64s(p) == enc_u64(s[0]) + (concat_enc_u64s(s.skip(1)) + enc_u64(x)));
        lemma_concat_assoc(enc_u64(s[0]), concat_enc_u64s(s.skip(1)), enc_u64(x));
        assert(concat_enc_u64s(s) == enc_u64(s[0]) + concat_enc_u64s(s.skip(1)));
    }
}

pub proof fn lemma_concat_enc_tag_queries_snoc(s: Seq<TagQueryView>, x: TagQueryView)
    ensures
        concat_enc_tag_queries(s.push(x)) == concat_enc_tag_queries(s) + enc_tag_query(x),
    decreases s.len(),
{
    let p = s.push(x);
    assert(p.len() == s.len() + 1);
    if s.len() == 0 {
        assert(p[0] == x);
        assert(p.skip(1) =~= Seq::<TagQueryView>::empty());
        assert(concat_enc_tag_queries(Seq::<TagQueryView>::empty()) == Seq::<u8>::empty());
        assert(concat_enc_tag_queries(p) == enc_tag_query(x) + Seq::<u8>::empty());
        assert(enc_tag_query(x) + Seq::<u8>::empty() =~= Seq::<u8>::empty() + enc_tag_query(x));
        assert(concat_enc_tag_queries(s) == Seq::<u8>::empty());
    } else {
        assert(p[0] == s[0]);
        assert(p.skip(1) =~= s.skip(1).push(x));
        lemma_concat_enc_tag_queries_snoc(s.skip(1), x);
        assert(concat_enc_tag_queries(p) == enc_tag_query(s[0]) + (concat_enc_tag_queries(
            s.skip(1),
        ) + enc_tag_query(x)));
        lemma_concat_assoc(enc_tag_query(s[0]), concat_enc_tag_queries(s.skip(1)), enc_tag_query(
            x,
        ));
        assert(concat_enc_tag_queries(s) == enc_tag_query(s[0]) + concat_enc_tag_queries(
            s.skip(1),
        ));
    }
}

pub proof fn lemma_concat_enc_filters_snoc(s: Seq<FilterView>, x: FilterView)
    ensures
        concat_enc_filters(s.push(x)) == concat_enc_filters(s) + enc_filter(x),
    decreases s.len(),
{
    let p = s.push(x);
    assert(p.len() == s.len() + 1);
    if s.len() == 0 {
        assert(p[0] == x);
        assert(p.skip(1) =~= Seq::<FilterView>::empty());
        assert(concat_enc_filters(Seq::<FilterView>::empty()) == Seq::<u8>::empty());
        assert(concat_enc_filters(p) == enc_filter(x) + Seq::<u8>::empty());
        assert(enc_filter(x) + Seq::<u8>::empty() =~= Seq::<u8>::empty() + enc_filter(x));
        assert(concat_enc_filters(s) == Seq::<u8>::empty());
    } else {
        assert(p[0] == s[0]);
        assert(p.skip(1) =~= s.skip(1).push(x));
        lemma_concat_enc_filters_snoc(s.skip(1), x);
        assert(concat_enc_filters(p) == enc_filter(s[0]) + (concat_enc_filters(s.skip(1))
            + enc_filter(x)));
        lemma_concat_assoc(enc_filter(s[0]), concat_enc_filters(s.skip(1)), enc_filter(x));
        assert(concat_enc_filters(s) == enc_filter(s[0]) + concat_enc_filters(s.skip(1)));
    }
}

// ---------------------------------------------------------------------------
// Encoders.
// ---------------------------------------------------------------------------

fn write_u64_list(out: &mut Vec<u8>, items: &Vec<u64>)
    ensures
        final(out)@ == old(out)@ + enc_u64_list(items@),
{
    crate::codec::write_u64(out, items.len() as u64);
    let ghost mid = out@;
    let mut i: usize = 0;
    while i < items.len()
        invariant
            i <= items@.len(),
            out@ == mid + concat_enc_u64s(items@.take(i as int)),
        decreases items@.len() - i,
    {
        proof {
            assert(items@.take(i + 1) =~= items@.take(i as int).push(items@[i as int]));
            lemma_concat_enc_u64s_snoc(items@.take(i as int), items@[i as int]);
            lemma_concat_assoc(mid, concat_enc_u64s(items@.take(i as int)), enc_u64(
                items@[i as int],
            ));
        }
        crate::codec::write_u64(out, items[i]);
        i = i + 1;
    }
    proof {
        assert(items@.take(items@.len() as int) =~= items@);
        lemma_concat_assoc(old(out)@, enc_u64(items@.len() as u64), concat_enc_u64s(items@));
    }
}

fn write_opt_u64(out: &mut Vec<u8>, o: &Option<u64>)
    ensures
        final(out)@ == old(out)@ + enc_opt_u64(*o),
{
    match o {
        None => {
            out.push(0u8);
            proof {
                assert(out@ =~= old(out)@ + seq![0u8]);
            }
        },
        Some(n) => {
            out.push(1u8);
            crate::codec::write_u64(out, *n);
            proof {
                assert(out@ =~= old(out)@ + (seq![1u8] + enc_u64(*n)));
            }
        },
    }
}

fn write_opt_bytes_list(out: &mut Vec<u8>, o: &Option<Vec<Vec<u8>>>)
    ensures
        final(out)@ == old(out)@ + enc_opt_bytes_list(o.deep_view()),
{
    match o {
        None => {
            out.push(0u8);
            proof {
                assert(out@ =~= old(out)@ + seq![0u8]);
            }
        },
        Some(items) => {
            out.push(1u8);
            crate::codec::write_bytes_list(out, items);
            proof {
                assert(out@ =~= old(out)@ + (seq![1u8] + enc_bytes_list(items.deep_view())));
            }
        },
    }
}

fn write_opt_u64_list(out: &mut Vec<u8>, o: &Option<Vec<u64>>)
    ensures
        final(out)@ == old(out)@ + enc_opt_u64_list(o.deep_view()),
{
    match o {
        None => {
            out.push(0u8);
            proof {
                assert(out@ =~= old(out)@ + seq![0u8]);
            }
        },
        Some(items) => {
            out.push(1u8);
            write_u64_list(out, items);
            proof {
                assert(out@ =~= old(out)@ + (seq![1u8] + enc_u64_list(items@)));
                assert(items.deep_view() =~= items@);
            }
        },
    }
}

fn write_opt_bytes(out: &mut Vec<u8>, o: &Option<Vec<u8>>)
    ensures
        final(out)@ == old(out)@ + enc_opt_bytes(o.deep_view()),
{
    match o {
        None => {
            out.push(0u8);
            proof {
                assert(out@ =~= old(out)@ + seq![0u8]);
            }
        },
        Some(b) => {
            out.push(1u8);
            crate::codec::write_bytes(out, b);
            proof {
                assert(out@ =~= old(out)@ + (seq![1u8] + enc_bytes(b@)));
                assert(b.deep_view() =~= b@);
            }
        },
    }
}

fn write_tag_query(out: &mut Vec<u8>, t: &TagQuery)
    ensures
        final(out)@ == old(out)@ + enc_tag_query(t.deep_view()),
{
    out.push(t.letter);
    crate::codec::write_bytes_list(out, &t.values);
    proof {
        assert(out@ =~= old(out)@ + (seq![t.letter] + enc_bytes_list(t.values.deep_view())));
    }
}

fn write_tag_query_list(out: &mut Vec<u8>, tags: &Vec<TagQuery>)
    ensures
        final(out)@ == old(out)@ + enc_tag_query_list(tags.deep_view()),
{
    crate::codec::write_u64(out, tags.len() as u64);
    let ghost mid = out@;
    let ghost tv = tags.deep_view();
    let mut i: usize = 0;
    while i < tags.len()
        invariant
            i <= tv.len(),
            tv == tags.deep_view(),
            tv.len() == tags@.len(),
            out@ == mid + concat_enc_tag_queries(tv.take(i as int)),
        decreases tv.len() - i,
    {
        proof {
            assert(tv.take(i + 1) =~= tv.take(i as int).push(tags@[i as int].deep_view()));
            lemma_concat_enc_tag_queries_snoc(tv.take(i as int), tags@[i as int].deep_view());
            lemma_concat_assoc(mid, concat_enc_tag_queries(tv.take(i as int)), enc_tag_query(
                tags@[i as int].deep_view(),
            ));
        }
        write_tag_query(out, &tags[i]);
        i = i + 1;
    }
    proof {
        assert(tv.take(tv.len() as int) =~= tv);
        lemma_concat_assoc(old(out)@, enc_u64(tv.len() as u64), concat_enc_tag_queries(tv));
    }
}

fn write_filter(out: &mut Vec<u8>, f: &Filter)
    ensures
        final(out)@ == old(out)@ + enc_filter(f.deep_view()),
{
    write_opt_bytes_list(out, &f.ids);
    write_opt_bytes_list(out, &f.authors);
    write_opt_u64_list(out, &f.kinds);
    write_opt_u64(out, &f.since);
    write_opt_u64(out, &f.until);
    write_opt_u64(out, &f.limit);
    write_opt_bytes(out, &f.search);
    write_tag_query_list(out, &f.tags);
    proof {
        let o = old(out)@;
        let a = enc_opt_bytes_list(f.ids.deep_view());
        let b = enc_opt_bytes_list(f.authors.deep_view());
        let c = enc_opt_u64_list(f.kinds.deep_view());
        let d = enc_opt_u64(f.since);
        let e = enc_opt_u64(f.until);
        let g = enc_opt_u64(f.limit);
        let w = enc_opt_bytes(f.search.deep_view());
        let t = enc_tag_query_list(f.tags.deep_view());
        lemma_concat_assoc(o, a, b);
        lemma_concat_assoc(o, a + b, c);
        lemma_concat_assoc(o, a + b + c, d);
        lemma_concat_assoc(o, a + b + c + d, e);
        lemma_concat_assoc(o, a + b + c + d + e, g);
        lemma_concat_assoc(o, a + b + c + d + e + g, w);
        lemma_concat_assoc(o, a + b + c + d + e + g + w, t);
        assert(out@ == o + enc_filter(f.deep_view()));
    }
}

/// Produces the canonical byte encoding of a query.
pub fn encode_query(filters: &Vec<Filter>) -> (r: Vec<u8>)
    ensures
        r@ == enc_query(filters.deep_view()),
{
    let mut out: Vec<u8> = Vec::new();
    crate::codec::write_u64(&mut out, filters.len() as u64);
    let ghost mid = out@;
    let ghost qv = filters.deep_view();
    let mut i: usize = 0;
    while i < filters.len()
        invariant
            i <= qv.len(),
            qv == filters.deep_view(),
            qv.len() == filters@.len(),
            out@ == mid + concat_enc_filters(qv.take(i as int)),
        decreases qv.len() - i,
    {
        proof {
            assert(qv.take(i + 1) =~= qv.take(i as int).push(filters@[i as int].deep_view()));
            lemma_concat_enc_filters_snoc(qv.take(i as int), filters@[i as int].deep_view());
            lemma_concat_assoc(mid, concat_enc_filters(qv.take(i as int)), enc_filter(
                filters@[i as int].deep_view(),
            ));
        }
        write_filter(&mut out, &filters[i]);
        i = i + 1;
    }
    proof {
        assert(qv.take(qv.len() as int) =~= qv);
        assert(mid =~= Seq::empty() + enc_u64(qv.len() as u64));
        assert(out@ =~= enc_query(qv));
    }
    out
}

// ---------------------------------------------------------------------------
// The hash. Fowler–Noll–Vo, 64 bits: an offset basis, then for each byte
// an exclusive-or followed by a wrapping multiplication with the prime.
// ---------------------------------------------------------------------------

pub const FNV_OFFSET: u64 = 0xcbf29ce484222325;

pub const FNV_PRIME: u64 = 0x100000001b3;

/// One step of the hash: mix one byte into the running state.
pub open spec fn fnv1a_step(h: u64, b: u8) -> u64 {
    (h ^ (b as u64)).wrapping_mul(FNV_PRIME)
}

/// The hash state after mixing all of `s` into `h`.
pub open spec fn fnv1a_from(h: u64, s: Seq<u8>) -> u64
    decreases s.len(),
{
    if s.len() == 0 {
        h
    } else {
        fnv1a_from(fnv1a_step(h, s[0]), s.skip(1))
    }
}

/// The hash of a byte string.
pub open spec fn fnv1a(s: Seq<u8>) -> u64 {
    fnv1a_from(FNV_OFFSET, s)
}

/// The fingerprint of a query: the hash of its canonical encoding.
pub open spec fn spec_fingerprint(q: Seq<FilterView>) -> u64 {
    fnv1a(enc_query(q))
}

fn fnv1a_bytes(bytes: &Vec<u8>) -> (h: u64)
    ensures
        h == fnv1a(bytes@),
{
    let mut h: u64 = FNV_OFFSET;
    let mut i: usize = 0;
    proof {
        assert(bytes@.skip(0) =~= bytes@);
    }
    while i < bytes.len()
        invariant
            i <= bytes@.len(),
            fnv1a(bytes@) == fnv1a_from(h, bytes@.skip(i as int)),
        decreases bytes@.len() - i,
    {
        let b = bytes[i];
        proof {
            let s = bytes@.skip(i as int);
            assert(s[0] == bytes@[i as int]);
            assert(s.skip(1) =~= bytes@.skip(i as int + 1));
        }
        h = (h ^ (b as u64)).wrapping_mul(FNV_PRIME);
        i = i + 1;
    }
    proof {
        assert(bytes@.skip(bytes@.len() as int) =~= Seq::<u8>::empty());
    }
    h
}

/// The fingerprint generator: maps a query to its cache key, the hash of
/// the query's canonical byte encoding. A pure function of the query value,
/// so the key is stable across calls, processes and platforms.
pub fn make_hash(filters: &Vec<Filter>) -> (h: u64)
    ensures
        h == spec_fingerprint(filters.deep_view()),
{
    let bytes = encode_query(filters);
    fnv1a_bytes(&bytes)
}

// ---------------------------------------------------------------------------
// Laws of the fingerprint.
// ---------------------------------------------------------------------------

/// Determinism: the fingerprint is a function of the query value alone, so
/// equal queries always fingerprint alike, in one process or across many.
pub proof fn lemma_fingerprint_deterministic(q1: Seq<FilterView>, q2: Seq<FilterView>)
    requires
        q1 == q2,
    ensures
        spec_fingerprint(q1) == spec_fingerprint(q2),
{
}

/// Order sensitivity, at the level of the canonical encoding: two distinct
/// filters in swapped order never encode to the same bytes. The 64-bit key
/// is the hash of these bytes, so swapped orders give distinct keys except
/// where the hash itself collides, a risk the cache accepts.
pub proof fn lemma_query_encoding_order_sensitive(f1: FilterView, f2: FilterView)
    requires
        wf_filter(f1),
        wf_filter(f2),
        f1 != f2,
    ensures
        enc_query(seq![f1, f2]) != enc_query(seq![f2, f1]),
{
    let q1 = seq![f1, f2];
    let q2 = seq![f2, f1];
    assert(q1[0] == f1 && q1[1] == f2 && q2[0] == f2 && q2[1] == f1);
    assert(wf_query(q1));
    assert(wf_query(q2));
    if enc_query(q1) == enc_query(q2) {
        lemma_enc_query_injective(q1, q2);
        assert(f1 == f2);
    }
}

} // verus!
