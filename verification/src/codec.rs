//! Byte-level codec. The cache stores a query's result set as one byte
//! string, so the library defines a canonical encoding: integers are eight
//! bytes little-endian, byte strings and lists carry their length up front,
//! and records are their fields in a fixed order. Every decoder is proved to
//! invert its encoder, which gives the round-trip law for stored result sets
//! and makes the canonical query encoding injective.

use vstd::prelude::*;

use crate::event::{Event, EventView, Tag, TagView};

verus! {

/// Concatenation of byte strings is associative.
pub proof fn lemma_concat_assoc(a: Seq<u8>, b: Seq<u8>, c: Seq<u8>)
    ensures
        (a + b) + c == a + (b + c),
{
    assert((a + b) + c =~= a + (b + c));
}

/// Number of values an eight-byte length field can take; lengths must stay
/// below it for the encoding to be faithful.
pub open spec fn fits_u64(n: nat) -> bool {
    n < 0x1_0000_0000_0000_0000
}

// ---------------------------------------------------------------------------
// Integers: eight bytes, little-endian.
// ---------------------------------------------------------------------------

/// Canonical encoding of an integer.
pub open spec fn enc_u64(n: u64) -> Seq<u8> {
    seq![
        (n & 0xff) as u8,
        ((n >> 8) & 0xff) as u8,
        ((n >> 16) & 0xff) as u8,
        ((n >> 24) & 0xff) as u8,
        ((n >> 32) & 0xff) as u8,
        ((n >> 40) & 0xff) as u8,
        ((n >> 48) & 0xff) as u8,
        ((n >> 56) & 0xff) as u8,
    ]
}

/// The integer eight little-endian bytes denote.
pub open spec fn u64_from_le_bytes(
    b0: u8,
    b1: u8,
    b2: u8,
    b3: u8,
    b4: u8,
    b5: u8,
    b6: u8,
    b7: u8,
) -> u64 {
    (b0 as u64) | (b1 as u64) << 8 | (b2 as u64) << 16 | (b3 as u64) << 24 | (b4 as u64) << 32 | (
    b5 as u64) << 40 | (b6 as u64) << 48 | (b7 as u64) << 56
}

/// Decodes an integer from the front of `s`, returning it with the rest.
pub open spec fn dec_u64(s: Seq<u8>) -> Option<(u64, Seq<u8>)> {
    if s.len() >= 8 {
        Some((u64_from_le_bytes(s[0], s[1], s[2], s[3], s[4], s[5], s[6], s[7]), s.skip(8)))
    } else {
        None
    }
}

/// Reassembling the bytes of an integer gives the integer back.
pub proof fn lemma_u64_le_roundtrip(n: u64)
    ensures
        u64_from_le_bytes(
            (n & 0xff) as u8,
            ((n >> 8) & 0xff) as u8,
            ((n >> 16) & 0xff) as u8,
            ((n >> 24) & 0xff) as u8,
            ((n >> 32) & 0xff) as u8,
            ((n >> 40) & 0xff) as u8,
            ((n >> 48) & 0xff) as u8,
            ((n >> 56) & 0xff) as u8,
        ) == n,
{
    assert((((n & 0xff) as u8) as u64) | ((((n >> 8) & 0xff) as u8) as u64) << 8 | ((((n >> 16)
        & 0xff) as u8) as u64) << 16 | ((((n >> 24) & 0xff) as u8) as u64) << 24 | ((((n >> 32)
        & 0xff) as u8) as u64) << 32 | ((((n >> 40) & 0xff) as u8) as u64) << 40 | ((((n >> 48)
        & 0xff) as u8) as u64) << 48 | ((((n >> 56) & 0xff) as u8) as u64) << 56 == n)
        by (bit_vector);
}

/// Decoding inverts encoding for integers, whatever follows.
pub proof fn lemma_dec_enc_u64(n: u64, rest: Seq<u8>)
    ensures
        dec_u64(enc_u64(n) + rest) == Some((n, rest)),
{
    let s = enc_u64(n) + rest;
    assert(s.len() >= 8);
    lemma_u64_le_roundtrip(n);
    assert(s.skip(8) =~= rest);
}

// ---------------------------------------------------------------------------
// Byte strings: length, then the bytes themselves.
// ---------------------------------------------------------------------------

/// Canonical encoding of a byte string.
pub open spec fn enc_bytes(b: Seq<u8>) -> Seq<u8> {
    enc_u64(b.len() as u64) + b
}

/// Decodes a byte string from the front of `s`.
pub open spec fn dec_bytes(s: Seq<u8>) -> Option<(Seq<u8>, Seq<u8>)> {
    match dec_u64(s) {
        Some((n, r)) => if r.len() >= n {
            Some((r.take(n as int), r.skip(n as int)))
        } else {
            None
        },
        None => None,
    }
}

/// Decoding inverts encoding for byte strings, whatever follows.
pub proof fn lemma_dec_enc_bytes(b: Seq<u8>, rest: Seq<u8>)
    requires
        fits_u64(b.len()),
    ensures
        dec_bytes(enc_bytes(b) + rest) == Some((b, rest)),
{
    let s = enc_bytes(b) + rest;
    assert(s =~= enc_u64(b.len() as u64) + (b + rest));
    lemma_dec_enc_u64(b.len() as u64, b + rest);
    assert((b + rest).take(b.len() as int) =~= b);
    assert((b + rest).skip(b.len() as int) =~= rest);
}

// ---------------------------------------------------------------------------
// Lists of byte strings: a count, then each entry length-prefixed.
// ---------------------------------------------------------------------------

/// Concatenated encodings of the entries of a list of byte strings.
pub open spec fn concat_enc_bytes(items: Seq<Seq<u8>>) -> Seq<u8>
    decreases items.len(),
{
    if items.len() == 0 {
        Seq::empty()
    } else {
        enc_bytes(items[0]) + concat_enc_bytes(items.skip(1))
    }
}

/// Canonical encoding of a list of byte strings.
pub open spec fn enc_bytes_list(items: Seq<Seq<u8>>) -> Seq<u8> {
    enc_u64(items.len() as u64) + concat_enc_bytes(items)
}

/// Decodes `n` byte strings from the front of `s`.
pub open spec fn dec_bytes_items(s: Seq<u8>, n: nat) -> Option<(Seq<Seq<u8>>, Seq<u8>)>
    decreases n,
{
    if n == 0 {
        Some((Seq::empty(), s))
    } else {
        match dec_bytes(s) {
            Some((b, r)) => match dec_bytes_items(r, (n - 1) as nat) {
                Some((items, r2)) => Some((seq![b] + items, r2)),
                None => None,
            },
            None => None,
        }
    }
}

/// Decodes a list of byte strings from the front of `s`.
pub open spec fn dec_bytes_list(s: Seq<u8>) -> Option<(Seq<Seq<u8>>, Seq<u8>)> {
    match dec_u64(s) {
        Some((n, r)) => dec_bytes_items(r, n as nat),
        None => None,
    }
}

/// The list and each of its entries fit an eight-byte length field.
pub open spec fn wf_bytes_list(items: Seq<Seq<u8>>) -> bool {
    &&& fits_u64(items.len())
    &&& forall|i: int| 0 <= i < items.len() ==> fits_u64(#[trigger] items[i].len())
}

proof fn lemma_dec_enc_bytes_items(items: Seq<Seq<u8>>, rest: Seq<u8>)
    requires
        forall|i: int| 0 <= i < items.len() ==> fits_u64(#[trigger] items[i].len()),
    ensures
        dec_bytes_items(concat_enc_bytes(items) + rest, items.len()) == Some((items, rest)),
    decreases items.len(),
{
    if items.len() == 0 {
        assert(concat_enc_bytes(items) + rest =~= rest);
        assert(items =~= Seq::<Seq<u8>>::empty());
    } else {
        let tail = items.skip(1);
        assert(concat_enc_bytes(items) + rest =~= enc_bytes(items[0]) + (concat_enc_bytes(tail)
            + rest));
        lemma_dec_enc_bytes(items[0], concat_enc_bytes(tail) + rest);
        lemma_dec_enc_bytes_items(tail, rest);
        assert(seq![items[0]] + tail =~= items);
    }
}

/// Decoding inverts encoding for lists of byte strings, whatever follows.
pub proof fn lemma_dec_enc_bytes_list(items: Seq<Seq<u8>>, rest: Seq<u8>)
    requires
        wf_bytes_list(items),
    ensures
        dec_bytes_list(enc_bytes_list(items) + rest) == Some((items, rest)),
{
    assert(enc_bytes_list(items) + rest =~= enc_u64(items.len() as u64) + (concat_enc_bytes(items)
        + rest));
    lemma_dec_enc_u64(items.len() as u64, concat_enc_bytes(items) + rest);
    lemma_dec_enc_bytes_items(items, rest);
}

// ---------------------------------------------------------------------------
// Tags: a tag is its list of byte strings.
// ---------------------------------------------------------------------------

/// Canonical encoding of one event tag.
pub open spec fn enc_tag(t: TagView) -> Seq<u8> {
    enc_bytes_list(t.items)
}

/// Decodes one event tag from the front of `s`.
pub open spec fn dec_tag(s: Seq<u8>) -> Option<(TagView, Seq<u8>)> {
    match dec_bytes_list(s) {
        Some((items, r)) => Some((TagView { items }, r)),
        None => None,
    }
}

/// Concatenated encodings of a list of tags.
pub open spec fn concat_enc_tags(tags: Seq<TagView>) -> Seq<u8>
    decreases tags.len(),
{
    if tags.len() == 0 {
        Seq::empty()
    } else {
        enc_tag(tags[0]) + concat_enc_tags(tags.skip(1))
    }
}

/// Canonical encoding of a list of tags.
pub open spec fn enc_tag_list(tags: Seq<TagView>) -> Seq<u8> {
    enc_u64(tags.len() as u64) + concat_enc_tags(tags)
}

/// Decodes `n` tags from the front of `s`.
pub open spec fn dec_tag_items(s: Seq<u8>, n: nat) -> Option<(Seq<TagView>, Seq<u8>)>
    decreases n,
{
    if n == 0 {
        Some((Seq::empty(), s))
    } else {
        match dec_tag(s) {
            Some((t, r)) => match dec_tag_items(r, (n - 1) as nat) {
                Some((tags, r2)) => Some((seq![t] + tags, r2)),
                None => None,
            },
            None => None,
        }
    }
}

/// Decodes a list of tags from the front of `s`.
pub open spec fn dec_tag_list(s: Seq<u8>) -> Option<(Seq<TagView>, Seq<u8>)> {
    match dec_u64(s) {
        Some((n, r)) => dec_tag_items(r, n as nat),
        None => None,
    }
}

/// The tag's value list fits the length fields.
pub open spec fn wf_tag(t: TagView) -> bool {
    wf_bytes_list(t.items)
}

/// Every tag of the list is well formed and the list fits a count field.
pub open spec fn wf_tag_list(tags: Seq<TagView>) -> bool {
    &&& fits_u64(tags.len())
    &&& forall|i: int| 0 <= i < tags.len() ==> wf_tag(#[trigger] tags[i])
}

/// Decoding inverts encoding for one tag, whatever follows.
pub proof fn lemma_dec_enc_tag(t: TagView, rest: Seq<u8>)
    requires
        wf_tag(t),
    ensures
        dec_tag(enc_tag(t) + rest) == Some((t, rest)),
{
    lemma_dec_enc_bytes_list(t.items, rest);
}

proof fn lemma_dec_enc_tag_items(tags: Seq<TagView>, rest: Seq<u8>)
    requires
        forall|i: int| 0 <= i < tags.len() ==> wf_tag(#[trigger] tags[i]),
    ensures
        dec_tag_items(concat_enc_tags(tags) + rest, tags.len()) == Some((tags, rest)),
    decreases tags.len(),
{
    if tags.len() == 0 {
        assert(concat_enc_tags(tags) + rest =~= rest);
        assert(tags =~= Seq::<TagView>::empty());
    } else {
        let tail = tags.skip(1);
        lemma_concat_assoc(enc_tag(tags[0]), concat_enc_tags(tail), rest);
        lemma_dec_enc_tag(tags[0], concat_enc_tags(tail) + rest);
        lemma_dec_enc_tag_items(tail, rest);
        assert(seq![tags[0]] + tail =~= tags);
    }
}

/// Decoding inverts encoding for lists of tags, whatever follows.
pub proof fn lemma_dec_enc_tag_list(tags: Seq<TagView>, rest: Seq<u8>)
    requires
        wf_tag_list(tags),
    ensures
        dec_tag_list(enc_tag_list(tags) + rest) == Some((tags, rest)),
{
    assert(enc_tag_list(tags) + rest =~= enc_u64(tags.len() as u64) + (concat_enc_tags(tags)
        + rest));
    lemma_dec_enc_u64(tags.len() as u64, concat_enc_tags(tags) + rest);
    lemma_dec_enc_tag_items(tags, rest);
}

// ---------------------------------------------------------------------------
// Events: the fields in a fixed order.
// ---------------------------------------------------------------------------

/// Canonical encoding of one event.
pub open spec fn enc_event(e: EventView) -> Seq<u8> {
    enc_bytes(e.id) + enc_bytes(e.pubkey) + enc_u64(e.created_at) + enc_u64(e.kind) + enc_tag_list(
        e.tags,
    ) + enc_bytes(e.content) + enc_bytes(e.sig)
}

/// Decodes one event from the front of `s`.
#[verifier::opaque]
pub open spec fn dec_event(s: Seq<u8>) -> Option<(EventView, Seq<u8>)> {
    match dec_bytes(s) {
        Some((id, s)) => match dec_bytes(s) {
            Some((pubkey, s)) => match dec_u64(s) {
                Some((created_at, s)) => match dec_u64(s) {
                    Some((kind, s)) => match dec_tag_list(s) {
                        Some((tags, s)) => match dec_bytes(s) {
                            Some((content, s)) => match dec_bytes(s) {
                                Some((sig, s)) => Some(
                                    (EventView { id, pubkey, created_at, kind, tags, content, sig },
                                    s),
                                ),
                                None => None,
                            },
                            None => None,
                        },
                        None => None,
                    },
                    None => None,
                },
                None => None,
            },
            None => None,
        },
        None => None,
    }
}

/// Every variable-length field of the event fits its length field.
pub open spec fn wf_event(e: EventView) -> bool {
    &&& fits_u64(e.id.len())
    &&& fits_u64(e.pubkey.len())
    &&& wf_tag_list(e.tags)
    &&& fits_u64(e.content.len())
    &&& fits_u64(e.sig.len())
}

/// Decoding inverts encoding for one event, whatever follows.
pub proof fn lemma_dec_enc_event(e: EventView, rest: Seq<u8>)
    requires
        wf_event(e),
    ensures
        dec_event(enc_event(e) + rest) == Some((e, rest)),
{
    reveal(dec_event);
    let r6 = enc_bytes(e.sig) + rest;
    let r5 = enc_bytes(e.content) + r6;
    let r4 = enc_tag_list(e.tags) + r5;
    let r3 = enc_u64(e.kind) + r4;
    let r2 = enc_u64(e.created_at) + r3;
    let r1 = enc_bytes(e.pubkey) + r2;
    assert(enc_event(e) + rest =~= enc_bytes(e.id) + r1);
    lemma_dec_enc_bytes(e.id, r1);
    lemma_dec_enc_bytes(e.pubkey, r2);
    lemma_dec_enc_u64(e.created_at, r3);
    lemma_dec_enc_u64(e.kind, r4);
    lemma_dec_enc_tag_list(e.tags, r5);
    lemma_dec_enc_bytes(e.content, r6);
    lemma_dec_enc_bytes(e.sig, rest);
}

// ---------------------------------------------------------------------------
// Result sets: a count of events, then each event, and nothing after.
// ---------------------------------------------------------------------------

/// Concatenated encodings of a list of events.
pub open spec fn concat_enc_events(es: Seq<EventView>) -> Seq<u8>
    decreases es.len(),
{
    if es.len() == 0 {
        Seq::empty()
    } else {
        enc_event(es[0]) + concat_enc_events(es.skip(1))
    }
}

/// Canonical encoding of a result set, as the cache stores it.
pub open spec fn enc_events(es: Seq<EventView>) -> Seq<u8> {
    enc_u64(es.len() as u64) + concat_enc_events(es)
}

/// Decodes `n` events from the front of `s`.
pub open spec fn dec_event_items(s: Seq<u8>, n: nat) -> Option<(Seq<EventView>, Seq<u8>)>
    decreases n,
{
    if n == 0 {
        Some((Seq::empty(), s))
    } else {
        match dec_event(s) {
            Some((e, r)) => match dec_event_items(r, (n - 1) as nat) {
                Some((es, r2)) => Some((seq![e] + es, r2)),
                None => None,
            },
            None => None,
        }
    }
}

/// Decodes a stored result set; the whole byte string must be consumed.
pub open spec fn dec_events(s: Seq<u8>) -> Option<Seq<EventView>> {
    match dec_u64(s) {
        Some((n, r)) => match dec_event_items(r, n as nat) {
            Some((es, r2)) => if r2.len() == 0 {
                Some(es)
            } else {
                None
            },
            None => None,
        },
        None => None,
    }
}

/// Every event of the list is well formed and the list fits a count field.
pub open spec fn wf_events(es: Seq<EventView>) -> bool {
    &&& fits_u64(es.len())
    &&& forall|i: int| 0 <= i < es.len() ==> wf_event(#[trigger] es[i])
}

#[verifier::rlimit(50)]
proof fn lemma_dec_enc_event_items(es: Seq<EventView>, rest: Seq<u8>)
    requires
        forall|i: int| 0 <= i < es.len() ==> wf_event(#[trigger] es[i]),
    ensures
        dec_event_items(concat_enc_events(es) + rest, es.len()) == Some((es, rest)),
    decreases es.len(),
{
    if es.len() == 0 {
        assert(concat_enc_events(es) + rest =~= rest);
        assert(es =~= Seq::<EventView>::empty());
    } else {
        let tail = es.skip(1);
        lemma_concat_assoc(enc_event(es[0]), concat_enc_events(tail), rest);
        lemma_dec_enc_event(es[0], concat_enc_events(tail) + rest);
        lemma_dec_enc_event_items(tail, rest);
        assert(seq![es[0]] + tail =~= es);
    }
}

/// The round-trip law of the result codec: decoding a stored result set
/// gives back exactly the events that were encoded, in their order.
pub proof fn lemma_round_trip(es: Seq<EventView>)
    requires
        wf_events(es),
    ensures
        dec_events(enc_events(es)) == Some(es),
{
    assert(enc_events(es) =~= enc_u64(es.len() as u64) + (concat_enc_events(es) + Seq::empty()));
    lemma_dec_enc_u64(es.len() as u64, concat_enc_events(es) + Seq::empty());
    lemma_dec_enc_event_items(es, Seq::empty());
}

/// The stored form is unambiguous: equal bytes can only come from equal
/// result sets, so a cache entry never decodes to someone else's events.
pub proof fn lemma_enc_events_injective(es1: Seq<EventView>, es2: Seq<EventView>)
    requires
        wf_events(es1),
        wf_events(es2),
        enc_events(es1) == enc_events(es2),
    ensures
        es1 == es2,
{
    lemma_round_trip(es1);
    lemma_round_trip(es2);
}

// ---------------------------------------------------------------------------
// Appending one encoded entry extends the concatenation by that entry.
// ---------------------------------------------------------------------------

pub proof fn lemma_concat_enc_bytes_snoc(s: Seq<Seq<u8>>, x: Seq<u8>)
    ensures
        concat_enc_bytes(s.push(x)) == concat_enc_bytes(s) + enc_bytes(x),
    decreases s.len(),
{
    let p = s.push(x);
    assert(p.len() == s.len() + 1);
    if s.len() == 0 {
        assert(p[0] == x);
        assert(p.skip(1) =~= Seq::<Seq<u8>>::empty());
        assert(concat_enc_bytes(Seq::<Seq<u8>>::empty()) == Seq::<u8>::empty());
        assert(concat_enc_bytes(p) == enc_bytes(x) + Seq::<u8>::empty());
        assert(enc_bytes(x) + Seq::<u8>::empty() =~= Seq::<u8>::empty() + enc_bytes(x));
        assert(concat_enc_bytes(s) == Seq::<u8>::empty());
    } else {
        assert(p[0] == s[0]);
        assert(p.skip(1) =~= s.skip(1).push(x));
        lemma_concat_enc_bytes_snoc(s.skip(1), x);
        assert(concat_enc_bytes(p) == enc_bytes(s[0]) + (concat_enc_bytes(s.skip(1)) + enc_bytes(
            x,
        )));
        lemma_concat_assoc(enc_bytes(s[0]), concat_enc_bytes(s.skip(1)), enc_bytes(x));
        assert(concat_enc_bytes(s) == enc_bytes(s[0]) + concat_enc_bytes(s.skip(1)));
    }
}

pub proof fn lemma_concat_enc_tags_snoc(s: Seq<TagView>, x: TagView)
    ensures
        concat_enc_tags(s.push(x)) == concat_enc_tags(s) + enc_tag(x),
    decreases s.len(),
{
    let p = s.push(x);
    assert(p.len() == s.len() + 1);
    if s.len() == 0 {
        assert(p[0] == x);
        assert(p.skip(1) =~= Seq::<TagView>::empty());
        assert(concat_enc_tags(Seq::<TagView>::empty()) == Seq::<u8>::empty());
        assert(concat_enc_tags(p) == enc_tag(x) + Seq::<u8>::empty());
        assert(enc_tag(x) + Seq::<u8>::empty() =~= Seq::<u8>::empty() + enc_tag(x));
        assert(concat_enc_tags(s) == Seq::<u8>::empty());
    } else {
        assert(p[0] == s[0]);
        assert(p.skip(1) =~= s.skip(1).push(x));
        lemma_concat_enc_tags_snoc(s.skip(1), x);
        assert(concat_enc_tags(p) == enc_tag(s[0]) + (concat_enc_tags(s.skip(1)) + enc_tag(x)));
        lemma_concat_assoc(enc_tag(s[0]), concat_enc_tags(s.skip(1)), enc_tag(x));
        assert(concat_enc_tags(s) == enc_tag(s[0]) + concat_enc_tags(s.skip(1)));
    }
}

pub proof fn lemma_concat_enc_events_snoc(s: Seq<EventView>, x: EventView)
    ensures
        concat_enc_events(s.push(x)) == concat_enc_events(s) + enc_event(x),
    decreases s.len(),
{
    let p = s.push(x);
    assert(p.len() == s.len() + 1);
    if s.len() == 0 {
        assert(p[0] == x);
        assert(p.skip(1) =~= Seq::<EventView>::empty());
        assert(concat_enc_events(Seq::<EventView>::empty()) == Seq::<u8>::empty());
        assert(concat_enc_events(p) == enc_event(x) + Seq::<u8>::empty());
        assert(enc_event(x) + Seq::<u8>::empty() =~= Seq::<u8>::empty() + enc_event(x));
        assert(concat_enc_events(s) == Seq::<u8>::empty());
    } else {
        assert(p[0] == s[0]);
        assert(p.skip(1) =~= s.skip(1).push(x));
        lemma_concat_enc_events_snoc(s.skip(1), x);
        assert(concat_enc_events(p) == enc_event(s[0]) + (concat_enc_events(s.skip(1)) + enc_event(
            x,
        )));
        lemma_concat_assoc(enc_event(s[0]), concat_enc_events(s.skip(1)), enc_event(x));
        assert(concat_enc_events(s) == enc_event(s[0]) + concat_enc_events(s.skip(1)));
    }
}

// ---------------------------------------------------------------------------
// Encoders.
// ---------------------------------------------------------------------------

/// Appends the encoding of an integer.
pub fn write_u64(out: &mut Vec<u8>, n: u64)
    ensures
        final(out)@ == old(out)@ + enc_u64(n),
{
    proof {
        assert(n & 0xff < 256 && (n >> 8) & 0xff < 256 && (n >> 16) & 0xff < 256 && (n >> 24)
            & 0xff < 256 && (n >> 32) & 0xff < 256 && (n >> 40) & 0xff < 256 && (n >> 48) & 0xff
            < 256 && (n >> 56) & 0xff < 256) by (bit_vector);
    }
    out.push((n & 0xff) as u8);
    out.push(((n >> 8) & 0xff) as u8);
    out.push(((n >> 16) & 0xff) as u8);
    out.push(((n >> 24) & 0xff) as u8);
    out.push(((n >> 32) & 0xff) as u8);
    out.push(((n >> 40) & 0xff) as u8);
    out.push(((n >> 48) & 0xff) as u8);
    out.push(((n >> 56) & 0xff) as u8);
    proof {
        assert(out@ =~= old(out)@ + enc_u64(n));
    }
}

/// Appends the encoding of a byte string.
pub fn write_bytes(out: &mut Vec<u8>, b: &Vec<u8>)
    ensures
        final(out)@ == old(out)@ + enc_bytes(b@),
{
    write_u64(out, b.len() as u64);
    let ghost mid = out@;
    let mut i: usize = 0;
    while i < b.len()
        invariant
            i <= b@.len(),
            out@ == mid + b@.take(i as int),
        decreases b@.len() - i,
    {
        out.push(b[i]);
        proof {
            assert(mid + b@.take(i as int) + seq![b@[i as int]] =~= mid + b@.take(i + 1));
        }
        i = i + 1;
    }
    proof {
        assert(b@.take(b@.len() as int) =~= b@);
        lemma_concat_assoc(old(out)@, enc_u64(b@.len() as u64), b@);
    }
}

/// Appends the encoding of a list of byte strings.
pub fn write_bytes_list(out: &mut Vec<u8>, items: &Vec<Vec<u8>>)
    ensures
        final(out)@ == old(out)@ + enc_bytes_list(items.deep_view()),
{
    write_u64(out, items.len() as u64);
    let ghost mid = out@;
    let ghost iv = items.deep_view();
    let mut i: usize = 0;
    while i < items.len()
        invariant
            i <= iv.len(),
            iv == items.deep_view(),
            iv.len() == items@.len(),
            out@ == mid + concat_enc_bytes(iv.take(i as int)),
        decreases iv.len() - i,
    {
        proof {
            assert(iv.take(i + 1) =~~= iv.take(i as int).push(items@[i as int]@));
            lemma_concat_enc_bytes_snoc(iv.take(i as int), items@[i as int]@);
            lemma_concat_assoc(mid, concat_enc_bytes(iv.take(i as int)), enc_bytes(
                items@[i as int]@,
            ));
        }
        write_bytes(out, &items[i]);
        i = i + 1;
    }
    proof {
        assert(iv.take(iv.len() as int) =~= iv);
        lemma_concat_assoc(old(out)@, enc_u64(iv.len() as u64), concat_enc_bytes(iv));
    }
}

/// Appends the encoding of one tag.
pub fn write_tag(out: &mut Vec<u8>, t: &Tag)
    ensures
        final(out)@ == old(out)@ + enc_tag(t.deep_view()),
{
    write_bytes_list(out, &t.items);
}

/// Appends the encoding of a list of tags.
pub fn write_tag_list(out: &mut Vec<u8>, tags: &Vec<Tag>)
    ensures
        final(out)@ == old(out)@ + enc_tag_list(tags.deep_view()),
{
    write_u64(out, tags.len() as u64);
    let ghost mid = out@;
    let ghost tv = tags.deep_view();
    let mut i: usize = 0;
    while i < tags.len()
        invariant
            i <= tv.len(),
            tv == tags.deep_view(),
            tv.len() == tags@.len(),
            out@ == mid + concat_enc_tags(tv.take(i as int)),
        decreases tv.len() - i,
    {
        proof {
            assert(tv.take(i + 1) =~= tv.take(i as int).push(tags@[i as int].deep_view()));
            lemma_concat_enc_tags_snoc(tv.take(i as int), tags@[i as int].deep_view());
            lemma_concat_assoc(mid, concat_enc_tags(tv.take(i as int)), enc_tag(
                tags@[i as int].deep_view(),
            ));
        }
        write_tag(out, &tags[i]);
        i = i + 1;
    }
    proof {
        assert(tv.take(tv.len() as int) =~= tv);
        lemma_concat_assoc(old(out)@, enc_u64(tv.len() as u64), concat_enc_tags(tv));
    }
}

/// Appends the encoding of one event.
pub fn write_event(out: &mut Vec<u8>, e: &Event)
    ensures
        final(out)@ == old(out)@ + enc_event(e.deep_view()),
{
    write_bytes(out, &e.id);
    write_bytes(out, &e.pubkey);
    write_u64(out, e.created_at);
    write_u64(out, e.kind);
    write_tag_list(out, &e.tags);
    write_bytes(out, &e.content);
    write_bytes(out, &e.sig);
    proof {
        assert(out@ =~= old(out)@ + enc_event(e.deep_view()));
    }
}

/// Encodes a result set for storage: the count of events, then each event
/// in order, in the canonical byte encoding.
pub fn encode(events: &Vec<Event>) -> (r: Vec<u8>)
    ensures
        r@ == enc_events(events.deep_view()),
{
    let mut out: Vec<u8> = Vec::new();
    write_u64(&mut out, events.len() as u64);
    let ghost mid = out@;
    let ghost ev = events.deep_view();
    let mut i: usize = 0;
    while i < events.len()
        invariant
            i <= ev.len(),
            ev == events.deep_view(),
            ev.len() == events@.len(),
            out@ == mid + concat_enc_events(ev.take(i as int)),
        decreases ev.len() - i,
    {
        proof {
            assert(ev.take(i + 1) =~= ev.take(i as int).push(events@[i as int].deep_view()));
            lemma_concat_enc_events_snoc(ev.take(i as int), events@[i as int].deep_view());
            lemma_concat_assoc(mid, concat_enc_events(ev.take(i as int)), enc_event(
                events@[i as int].deep_view(),
            ));
        }
        write_event(&mut out, &events[i]);
        i = i + 1;
    }
    proof {
        assert(ev.take(ev.len() as int) =~= ev);
        assert(mid =~= Seq::empty() + enc_u64(ev.len() as u64));
        assert(out@ =~= enc_events(ev));
    }
    out
}

// ---------------------------------------------------------------------------
// Decoders.
// ---------------------------------------------------------------------------

/// Error of the result codec: the bytes do not decode to a result set.
#[derive(Debug, Clone, Copy, PartialEq, Eq, Structural)]
pub enum CodecError {
    CorruptCacheEntry,
}

fn read_u64(bytes: &Vec<u8>, pos: usize) -> (r: Option<(u64, usize)>)
    requires
        pos <= bytes@.len(),
    ensures
        match r {
            Some(p) => {
                &&& pos <= p.1 <= bytes@.len()
                &&& dec_u64(bytes@.skip(pos as int)) == Some((p.0, bytes@.skip(p.1 as int)))
            },
            None => dec_u64(bytes@.skip(pos as int)) is None,
        },
{
    if bytes.len() - pos >= 8 {
        let b0 = bytes[pos];
        let b1 = bytes[pos + 1];
        let b2 = bytes[pos + 2];
        let b3 = bytes[pos + 3];
        let b4 = bytes[pos + 4];
        let b5 = bytes[pos + 5];
        let b6 = bytes[pos + 6];
        let b7 = bytes[pos + 7];
        let v = (b0 as u64) | (b1 as u64) << 8 | (b2 as u64) << 16 | (b3 as u64) << 24 | (
        b4 as u64) << 32 | (b5 as u64) << 40 | (b6 as u64) << 48 | (b7 as u64) << 56;
        proof {
            assert(bytes@.skip(pos as int).skip(8) =~= bytes@.skip(pos as int + 8));
        }
        Some((v, pos + 8))
    } else {
        None
    }
}

fn read_bytes(bytes: &Vec<u8>, pos: usize) -> (r: Option<(Vec<u8>, usize)>)
    requires
        pos <= bytes@.len(),
    ensures
        match r {
            Some(p) => {
                &&& pos <= p.1 <= bytes@.len()
                &&& dec_bytes(bytes@.skip(pos as int)) == Some((p.0@, bytes@.skip(p.1 as int)))
            },
            None => dec_bytes(bytes@.skip(pos as int)) is None,
        },
{
    match read_u64(bytes, pos) {
        Some((n, p)) => {
            if n <= (bytes.len() - p) as u64 {
                let len = n as usize;
                let mut v: Vec<u8> = Vec::new();
                let mut i: usize = 0;
                while i < len
                    invariant
                        p + len <= bytes@.len(),
                        bytes@.len() <= usize::MAX,
                        i <= len,
                        v@ == bytes@.subrange(p as int, p as int + i as int),
                    decreases len - i,
                {
                    v.push(bytes[p + i]);
                    proof {
                        assert(v@ =~= bytes@.subrange(p as int, p as int + i as int + 1));
                    }
                    i = i + 1;
                }
                proof {
                    let rr = bytes@.skip(p as int);
                    assert(rr.take(n as int) =~= bytes@.subrange(p as int, p as int + n as int));
                    assert(rr.skip(n as int) =~= bytes@.skip(p as int + n as int));
                }
                Some((v, p + len))
            } else {
                None
            }
        },
        None => None,
    }
}

fn read_bytes_list(bytes: &Vec<u8>, pos: usize) -> (r: Option<(Vec<Vec<u8>>, usize)>)
    requires
        pos <= bytes@.len(),
    ensures
        match r {
            Some(p) => {
                &&& pos <= p.1 <= bytes@.len()
                &&& dec_bytes_list(bytes@.skip(pos as int)) == Some(
                    (p.0.deep_view(), bytes@.skip(p.1 as int)),
                )
            },
            None => dec_bytes_list(bytes@.skip(pos as int)) is None,
        },
{
    match read_u64(bytes, pos) {
        Some((n, p0)) => {
            let mut acc: Vec<Vec<u8>> = Vec::new();
            let mut cur: usize = p0;
            let mut i: u64 = 0;
            proof {
                assert(acc.deep_view() =~= Seq::<Seq<u8>>::empty());
            }
            while i < n
                invariant
                    pos <= p0 <= cur <= bytes@.len(),
                    i <= n,
                    dec_u64(bytes@.skip(pos as int)) == Some((n, bytes@.skip(p0 as int))),
                    ({
                        let full = dec_bytes_items(bytes@.skip(p0 as int), n as nat);
                        let part = dec_bytes_items(bytes@.skip(cur as int), (n - i) as nat);
                        match part {
                            Some(q) => full == Some((acc.deep_view() + q.0, q.1)),
                            None => full is None,
                        }
                    }),
                decreases n - i,
            {
                match read_bytes(bytes, cur) {
                    Some((item, end)) => {
                        let ghost prev = acc.deep_view();
                        let ghost curseq = bytes@.skip(cur as int);
                        let ghost endseq = bytes@.skip(end as int);
                        let ghost m = (n - i) as nat;
                        acc.push(item);
                        proof {
                            assert(acc.deep_view() =~~= prev.push(item@));
                        }
                        cur = end;
                        i = i + 1;
                        proof {
                            let part2 = dec_bytes_items(endseq, (m - 1) as nat);
                            if part2 is Some {
                                let q2 = part2.unwrap();
                                assert(dec_bytes_items(curseq, m) == Some(
                                    (seq![item@] + q2.0, q2.1),
                                ));
                                assert(prev + (seq![item@] + q2.0) =~= acc.deep_view() + q2.0);
                            } else {
                                assert(dec_bytes_items(curseq, m) is None);
                            }
                        }
                    },
                    None => {
                        proof {
                            assert(dec_bytes_items(bytes@.skip(cur as int), (n - i) as nat)
                                is None);
                        }
                        return None;
                    },
                }
            }
            proof {
                assert(acc.deep_view() + Seq::<Seq<u8>>::empty() =~= acc.deep_view());
            }
            Some((acc, cur))
        },
        None => None,
    }
}

fn read_tag(bytes: &Vec<u8>, pos: usize) -> (r: Option<(Tag, usize)>)
    requires
        pos <= bytes@.len(),
    ensures
        match r {
            Some(p) => {
                &&& pos <= p.1 <= bytes@.len()
                &&& dec_tag(bytes@.skip(pos as int)) == Some(
                    (p.0.deep_view(), bytes@.skip(p.1 as int)),
                )
            },
            None => dec_tag(bytes@.skip(pos as int)) is None,
        },
{
    match read_bytes_list(bytes, pos) {
        Some((items, end)) => Some((Tag { items }, end)),
        None => None,
    }
}

fn read_tag_list(bytes: &Vec<u8>, pos: usize) -> (r: Option<(Vec<Tag>, usize)>)
    requires
        pos <= bytes@.len(),
    ensures
        match r {
            Some(p) => {
                &&& pos <= p.1 <= bytes@.len()
                &&& dec_tag_list(bytes@.skip(pos as int)) == Some(
                    (p.0.deep_view(), bytes@.skip(p.1 as int)),
                )
            },
            None => dec_tag_list(bytes@.skip(pos as int)) is None,
        },
{
    match read_u64(bytes, pos) {
        Some((n, p0)) => {
            let mut acc: Vec<Tag> = Vec::new();
            let mut cur: usize = p0;
            let mut i: u64 = 0;
            proof {
                assert(acc.deep_view() =~= Seq::<TagView>::empty());
            }
            while i < n
                invariant
                    pos <= p0 <= cur <= bytes@.len(),
                    i <= n,
                    dec_u64(bytes@.skip(pos as int)) == Some((n, bytes@.skip(p0 as int))),
                    ({
                        let full = dec_tag_items(bytes@.skip(p0 as int), n as nat);
                        let part = dec_tag_items(bytes@.skip(cur as int), (n - i) as nat);
                        match part {
                            Some(q) => full == Some((acc.deep_view() + q.0, q.1)),
                            None => full is None,
                        }
                    }),
                decreases n - i,
            {
                match read_tag(bytes, cur) {
                    Some((item, end)) => {
                        let ghost prev = acc.deep_view();
                        let ghost curseq = bytes@.skip(cur as int);
                        let ghost endseq = bytes@.skip(end as int);
                        let ghost m = (n - i) as nat;
                        let ghost itemv = item.deep_view();
                        acc.push(item);
                        proof {
                            assert(acc.deep_view() =~~= prev.push(itemv));
                        }
                        cur = end;
                        i = i + 1;
                        proof {
                            let part2 = dec_tag_items(endseq, (m - 1) as nat);
                            if part2 is Some {
                                let q2 = part2.unwrap();
                                assert(dec_tag_items(curseq, m) == Some(
                                    (seq![itemv] + q2.0, q2.1),
                                ));
                                assert(prev + (seq![itemv] + q2.0) =~= acc.deep_view() + q2.0);
                            } else {
                                assert(dec_tag_items(curseq, m) is None);
                            }
                        }
                    },
                    None => {
                        proof {
                            assert(dec_tag_items(bytes@.skip(cur as int), (n - i) as nat) is None);
                        }
                        return None;
                    },
                }
            }
            proof {
                assert(acc.deep_view() + Seq::<TagView>::empty() =~= acc.deep_view());
            }
            Some((acc, cur))
        },
        None => None,
    }
}

#[verifier::rlimit(100)]
fn read_event(bytes: &Vec<u8>, pos: usize) -> (r: Option<(Event, usize)>)
    requires
        pos <= bytes@.len(),
    ensures
        match r {
            Some(p) => {
                &&& pos <= p.1 <= bytes@.len()
                &&& dec_event(bytes@.skip(pos as int)) == Some(
                    (p.0.deep_view(), bytes@.skip(p.1 as int)),
                )
            },
            None => dec_event(bytes@.skip(pos as int)) is None,
        },
{
    proof {
        reveal(dec_event);
    }
    let (id, p1) = match read_bytes(bytes, pos) {
        Some(v) => v,
        None => {
            return None;
        },
    };
    let (pubkey, p2) = match read_bytes(bytes, p1) {
        Some(v) => v,
        None => {
            return None;
        },
    };
    let (created_at, p3) = match read_u64(bytes, p2) {
        Some(v) => v,
        None => {
            return None;
        },
    };
    let (kind, p4) = match read_u64(bytes, p3) {
        Some(v) => v,
        None => {
            return None;
        },
    };
    let (tags, p5) = match read_tag_list(bytes, p4) {
        Some(v) => v,
        None => {
            return None;
        },
    };
    let (content, p6) = match read_bytes(bytes, p5) {
        Some(v) => v,
        None => {
            return None;
        },
    };
    let (sig, p7) = match read_bytes(bytes, p6) {
        Some(v) => v,
        None => {
            return None;
        },
    };
    let ev = Event { id, pubkey, created_at, kind, tags, content, sig };
    proof {
        assert(dec_event(bytes@.skip(pos as int)) =~~= Some(
            (ev.deep_view(), bytes@.skip(p7 as int)),
        ));
    }
    Some((ev, p7))
}

/// Decodes a stored result set. Bytes that are not exactly the canonical
/// encoding of a result set are reported as a corrupt cache entry; the
/// function never panics and never returns a partial result.
pub fn decode(bytes: &Vec<u8>) -> (r: Result<Vec<Event>, CodecError>)
    ensures
        match r {
            Ok(es) => dec_events(bytes@) == Some(es.deep_view()),
            Err(e) => dec_events(bytes@) is None && e == CodecError::CorruptCacheEntry,
        },
{
    proof {
        assert(bytes@.skip(0) =~= bytes@);
    }
    match read_u64(bytes, 0) {
        Some((n, p0)) => {
            let mut acc: Vec<Event> = Vec::new();
            let mut cur: usize = p0;
            let mut i: u64 = 0;
            proof {
                assert(acc.deep_view() =~= Seq::<EventView>::empty());
            }
            while i < n
                invariant
                    p0 <= cur <= bytes@.len(),
                    i <= n,
                    dec_u64(bytes@) == Some((n, bytes@.skip(p0 as int))),
                    ({
                        let full = dec_event_items(bytes@.skip(p0 as int), n as nat);
                        let part = dec_event_items(bytes@.skip(cur as int), (n - i) as nat);
                        match part {
                            Some(q) => full == Some((acc.deep_view() + q.0, q.1)),
                            None => full is None,
                        }
                    }),
                decreases n - i,
            {
                match read_event(bytes, cur) {
                    Some((item, end)) => {
                        let ghost prev = acc.deep_view();
                        let ghost curseq = bytes@.skip(cur as int);
                        let ghost endseq = bytes@.skip(end as int);
                        let ghost m = (n - i) as nat;
                        let ghost itemv = item.deep_view();
                        acc.push(item);
                        proof {
                            assert(acc.deep_view() =~~= prev.push(itemv));
                        }
                        cur = end;
                        i = i + 1;
                        proof {
                            let part2 = dec_event_items(endseq, (m - 1) as nat);
                            if part2 is Some {
                                let q2 = part2.unwrap();
                                assert(dec_event_items(curseq, m) == Some(
                                    (seq![itemv] + q2.0, q2.1),
                                ));
                                assert(prev + (seq![itemv] + q2.0) =~= acc.deep_view() + q2.0);
                            } else {
                                assert(dec_event_items(curseq, m) is None);
                            }
                        }
                    },
                    None => {
                        proof {
                            assert(dec_event_items(bytes@.skip(cur as int), (n - i) as nat)
                                is None);
                        }
                        return Err(CodecError::CorruptCacheEntry);
                    },
                }
            }
            if cur == bytes.len() {
                proof {
                    assert(acc.deep_view() + Seq::<EventView>::empty() =~= acc.deep_view());
                    assert(bytes@.skip(cur as int).len() == 0);
                }
                Ok(acc)
            } else {
                proof {
                    assert(bytes@.skip(cur as int).len() > 0);
                }
                Err(CodecError::CorruptCacheEntry)
            }
        },
        None => Err(CodecError::CorruptCacheEntry),
    }
}

} // verus!
