//! The codec: a canonical byte encoding of a record collection and its
//! decoder, with a proved lossless round trip.
//!
//! Layout: one format marker byte, then the record count as a fixed-width
//! little-endian integer, then each record in declared field order: the five
//! numeric fields at fixed width, then each string as a length-prefixed
//! UTF-8 byte sequence, optionals as a one-byte presence flag followed by
//! the string when present.

use vstd::prelude::*;
use vstd::bytes::*;
use vstd::slice::*;
use vstd::string::*;
use vstd::utf8::*;
use crate::card::{Card, CardCollection, CardV, card_views, opt_view};

verus! {

/// The framing/version marker that every encoded collection starts with.
pub const FORMAT_MARKER: u8 = 1;

/// Why a byte stream failed to decode.
#[derive(Debug, Clone, Copy, PartialEq, Eq, Structural)]
pub enum DecodeError {
    /// The stream ended before the announced data did.
    Truncated,
    /// The format marker or a presence flag holds an unexpected byte.
    BadMarker,
    /// A string field holds bytes that are not valid UTF-8.
    BadText,
    /// Bytes remain after the announced records.
    TrailingBytes,
}

// ---------------------------------------------------------------------------
// Encoding, as a mathematical function on models.
// ---------------------------------------------------------------------------

/// The encoding of one string field: its UTF-8 byte length, little-endian,
/// then its UTF-8 bytes.
pub open spec fn spec_encode_str(s: Seq<char>) -> Seq<u8> {
    spec_u64_to_le_bytes(encode_utf8(s).len() as u64) + encode_utf8(s)
}

/// The encoding of one optional string field: a presence flag byte, then the
/// string when present.
pub open spec fn spec_encode_opt_str(o: Option<Seq<char>>) -> Seq<u8> {
    match o {
        None => seq![0u8],
        Some(s) => seq![1u8] + spec_encode_str(s),
    }
}

/// The encoding of one record, fields in declared order.
pub open spec fn spec_encode_card(c: CardV) -> Seq<u8> {
    spec_u32_to_le_bytes(c.id) + seq![c.version] + spec_u32_to_le_bytes(c.cost)
        + spec_u32_to_le_bytes(c.attack) + spec_u32_to_le_bytes(c.health)
        + spec_encode_str(c.cardid) + spec_encode_str(c.name) + spec_encode_opt_str(c.hand_text)
        + spec_encode_opt_str(c.flavor_text)
}

/// The concatenated encodings of a sequence of records.
pub open spec fn spec_encode_cards(cs: Seq<CardV>) -> Seq<u8>
    decreases cs.len(),
{
    if cs.len() == 0 {
        Seq::empty()
    } else {
        spec_encode_card(cs[0]) + spec_encode_cards(cs.drop_first())
    }
}

/// The encoding of a whole collection: marker, count, records.
pub open spec fn spec_encode(cs: Seq<CardV>) -> Seq<u8> {
    seq![FORMAT_MARKER] + spec_u64_to_le_bytes(cs.len() as u64) + spec_encode_cards(cs)
}

/// A string whose UTF-8 byte length fits the length prefix. Every string
/// held in memory satisfies this.
pub open spec fn str_fits(s: Seq<char>) -> bool {
    encode_utf8(s).len() <= u64::MAX
}

/// All string fields of the record fit their length prefixes.
pub open spec fn card_fits(c: CardV) -> bool {
    &&& str_fits(c.cardid)
    &&& str_fits(c.name)
    &&& match c.hand_text {
        Some(s) => str_fits(s),
        None => true,
    }
    &&& match c.flavor_text {
        Some(s) => str_fits(s),
        None => true,
    }
}

/// The collection's count and every string fit their fixed-width prefixes.
/// Every collection held in memory satisfies this.
pub open spec fn collection_fits(cs: Seq<CardV>) -> bool {
    &&& cs.len() <= u64::MAX
    &&& forall|i: int| 0 <= i < cs.len() ==> card_fits(#[trigger] cs[i])
}

// ---------------------------------------------------------------------------
// Decoding, as a mathematical function on byte sequences. Each step reads at
// a position and yields the value with the next position, or the error.
// ---------------------------------------------------------------------------

pub open spec fn spec_take_u8(b: Seq<u8>, i: int) -> Result<(u8, int), DecodeError> {
    if 0 <= i && i + 1 <= b.len() {
        Ok((b[i], i + 1))
    } else {
        Err(DecodeError::Truncated)
    }
}

pub open spec fn spec_take_u32(b: Seq<u8>, i: int) -> Result<(u32, int), DecodeError> {
    if 0 <= i && i + 4 <= b.len() {
        Ok((spec_u32_from_le_bytes(b.subrange(i, i + 4)), i + 4))
    } else {
        Err(DecodeError::Truncated)
    }
}

pub open spec fn spec_take_u64(b: Seq<u8>, i: int) -> Result<(u64, int), DecodeError> {
    if 0 <= i && i + 8 <= b.len() {
        Ok((spec_u64_from_le_bytes(b.subrange(i, i + 8)), i + 8))
    } else {
        Err(DecodeError::Truncated)
    }
}

pub open spec fn spec_take_str(b: Seq<u8>, i: int) -> Result<(Seq<char>, int), DecodeError> {
    match spec_take_u64(b, i) {
        Err(e) => Err(e),
        Ok((n, j)) => {
            if j + n <= b.len() {
                let bytes = b.subrange(j, j + n);
                if valid_utf8(bytes) {
                    Ok((decode_utf8(bytes), j + n))
                } else {
                    Err(DecodeError::BadText)
                }
            } else {
                Err(DecodeError::Truncated)
            }
        },
    }
}

pub open spec fn spec_take_opt_str(b: Seq<u8>, i: int) -> Result<
    (Option<Seq<char>>, int),
    DecodeError,
> {
    match spec_take_u8(b, i) {
        Err(e) => Err(e),
        Ok((flag, j)) => {
            if flag == 0 {
                Ok((None, j))
            } else if flag == 1 {
                match spec_take_str(b, j) {
                    Err(e) => Err(e),
                    Ok((s, k)) => Ok((Some(s), k)),
                }
            } else {
                Err(DecodeError::BadMarker)
            }
        },
    }
}

pub open spec fn spec_take_card(b: Seq<u8>, i: int) -> Result<(CardV, int), DecodeError> {
    match spec_take_u32(b, i) {
        Err(e) => Err(e),
        Ok((id, i1)) => match spec_take_u8(b, i1) {
            Err(e) => Err(e),
            Ok((version, i2)) => match spec_take_u32(b, i2) {
                Err(e) => Err(e),
                Ok((cost, i3)) => match spec_take_u32(b, i3) {
                    Err(e) => Err(e),
                    Ok((attack, i4)) => match spec_take_u32(b, i4) {
                        Err(e) => Err(e),
                        Ok((health, i5)) => match spec_take_str(b, i5) {
                            Err(e) => Err(e),
                            Ok((cardid, i6)) => match spec_take_str(b, i6) {
                                Err(e) => Err(e),
                                Ok((name, i7)) => match spec_take_opt_str(b, i7) {
                                    Err(e) => Err(e),
                                    Ok((hand_text, i8)) => match spec_take_opt_str(b, i8) {
                                        Err(e) => Err(e),
                                        Ok((flavor_text, i9)) => Ok(
                                            (
                                                CardV {
                                                    id,
                                                    version,
                                                    cost,
                                                    attack,
                                                    health,
                                                    cardid,
                                                    name,
                                                    hand_text,
                                                    flavor_text,
                                                },
                                                i9,
                                            ),
                                        ),
                                    },
                                },
                            },
                        },
                    },
                },
            },
        },
    }
}

pub open spec fn spec_take_cards(b: Seq<u8>, i: int, n: int) -> Result<
    (Seq<CardV>, int),
    DecodeError,
>
    decreases n,
{
    if n <= 0 {
        Ok((Seq::empty(), i))
    } else {
        match spec_take_card(b, i) {
            Err(e) => Err(e),
            Ok((c, j)) => match spec_take_cards(b, j, n - 1) {
                Err(e) => Err(e),
                Ok((cs, k)) => Ok((seq![c] + cs, k)),
            },
        }
    }
}

/// What decoding a byte stream yields: the records it encodes, or the first
/// error met reading it front to back.
pub open spec fn spec_decode(b: Seq<u8>) -> Result<Seq<CardV>, DecodeError> {
    if b.len() < 1 {
        Err(DecodeError::Truncated)
    } else if b[0] != FORMAT_MARKER {
        Err(DecodeError::BadMarker)
    } else {
        match spec_take_u64(b, 1) {
            Err(e) => Err(e),
            Ok((n, i)) => match spec_take_cards(b, i, n as int) {
                Err(e) => Err(e),
                Ok((cs, j)) => {
                    if j == b.len() {
                        Ok(cs)
                    } else {
                        Err(DecodeError::TrailingBytes)
                    }
                },
            },
        }
    }
}

// ---------------------------------------------------------------------------
// The round-trip law: decoding an encoding yields the records unchanged.
// ---------------------------------------------------------------------------

/// Splitting a subrange known to be a concatenation into its two parts.
proof fn lemma_chop(b: Seq<u8>, i: int, x: Seq<u8>, y: Seq<u8>)
    requires
        0 <= i,
        i + x.len() + y.len() <= b.len(),
        b.subrange(i, i + x.len() + y.len()) == x + y,
    ensures
        b.subrange(i, i + x.len()) == x,
        b.subrange(i + x.len(), i + x.len() + y.len()) == y,
{
    let whole = b.subrange(i, i + x.len() + y.len());
    assert forall|k: int| 0 <= k < x.len() implies b.subrange(i, i + x.len())[k] == x[k] by {
        assert(whole[k] == (x + y)[k]);
    }
    assert(b.subrange(i, i + x.len()) =~= x);
    assert forall|k: int| 0 <= k < y.len() implies b.subrange(
        i + x.len(),
        i + x.len() + y.len(),
    )[k] == y[k] by {
        assert(whole[x.len() + k] == (x + y)[x.len() + k]);
    }
    assert(b.subrange(i + x.len(), i + x.len() + y.len()) =~= y);
}

proof fn lemma_take_u8_of(b: Seq<u8>, i: int, x: u8)
    requires
        0 <= i,
        i + 1 <= b.len(),
        b.subrange(i, i + 1) == seq![x],
    ensures
        spec_take_u8(b, i) == Ok::<(u8, int), DecodeError>((x, i + 1)),
{
    assert(b[i] == b.subrange(i, i + 1)[0]);
}

proof fn lemma_take_u32_of(b: Seq<u8>, i: int, x: u32)
    requires
        0 <= i,
        i + 4 <= b.len(),
        b.subrange(i, i + 4) == spec_u32_to_le_bytes(x),
    ensures
        spec_take_u32(b, i) == Ok::<(u32, int), DecodeError>((x, i + 4)),
{
    lemma_auto_spec_u32_to_from_le_bytes();
    assert(spec_u32_to_le_bytes(x).len() == 4);
    assert(spec_u32_from_le_bytes(spec_u32_to_le_bytes(x)) == x);
}

proof fn lemma_take_u64_of(b: Seq<u8>, i: int, x: u64)
    requires
        0 <= i,
        i + 8 <= b.len(),
        b.subrange(i, i + 8) == spec_u64_to_le_bytes(x),
    ensures
        spec_take_u64(b, i) == Ok::<(u64, int), DecodeError>((x, i + 8)),
{
    lemma_auto_spec_u64_to_from_le_bytes();
    assert(spec_u64_to_le_bytes(x).len() == 8);
    assert(spec_u64_from_le_bytes(spec_u64_to_le_bytes(x)) == x);
}

proof fn lemma_take_str_of(b: Seq<u8>, i: int, s: Seq<char>)
    requires
        0 <= i,
        str_fits(s),
        i + spec_encode_str(s).len() <= b.len(),
        b.subrange(i, i + spec_encode_str(s).len()) == spec_encode_str(s),
    ensures
        spec_take_str(b, i) == Ok::<(Seq<char>, int), DecodeError>(
            (s, i + spec_encode_str(s).len()),
        ),
{
    broadcast use group_utf8_lib;

    let u = encode_utf8(s);
    let pre = spec_u64_to_le_bytes(u.len() as u64);
    lemma_auto_spec_u64_to_from_le_bytes();
    lemma_chop(b, i, pre, u);
    lemma_take_u64_of(b, i, u.len() as u64);
    assert(b.subrange(i + 8, i + 8 + u.len()) == u);
    assert(valid_utf8(u));
    assert(decode_utf8(u) == s);
}

proof fn lemma_take_opt_str_of(b: Seq<u8>, i: int, o: Option<Seq<char>>)
    requires
        0 <= i,
        match o {
            Some(s) => str_fits(s),
            None => true,
        },
        i + spec_encode_opt_str(o).len() <= b.len(),
        b.subrange(i, i + spec_encode_opt_str(o).len()) == spec_encode_opt_str(o),
    ensures
        spec_take_opt_str(b, i) == Ok::<(Option<Seq<char>>, int), DecodeError>(
            (o, i + spec_encode_opt_str(o).len()),
        ),
{
    match o {
        None => {
            lemma_take_u8_of(b, i, 0u8);
        },
        Some(s) => {
            lemma_chop(b, i, seq![1u8], spec_encode_str(s));
            lemma_take_u8_of(b, i, 1u8);
            lemma_take_str_of(b, i + 1, s);
        },
    }
}

proof fn lemma_take_card_of(b: Seq<u8>, i: int, c: CardV)
    requires
        0 <= i,
        card_fits(c),
        i + spec_encode_card(c).len() <= b.len(),
        b.subrange(i, i + spec_encode_card(c).len()) == spec_encode_card(c),
    ensures
        spec_take_card(b, i) == Ok::<(CardV, int), DecodeError>((c, i + spec_encode_card(c).len())),
{
    let p1 = spec_u32_to_le_bytes(c.id);
    let p2 = seq![c.version];
    let p3 = spec_u32_to_le_bytes(c.cost);
    let p4 = spec_u32_to_le_bytes(c.attack);
    let p5 = spec_u32_to_le_bytes(c.health);
    let p6 = spec_encode_str(c.cardid);
    let p7 = spec_encode_str(c.name);
    let p8 = spec_encode_opt_str(c.hand_text);
    let p9 = spec_encode_opt_str(c.flavor_text);
    lemma_auto_spec_u32_to_from_le_bytes();
    lemma_chop(b, i, p1 + p2 + p3 + p4 + p5 + p6 + p7 + p8, p9);
    lemma_chop(b, i, p1 + p2 + p3 + p4 + p5 + p6 + p7, p8);
    lemma_chop(b, i, p1 + p2 + p3 + p4 + p5 + p6, p7);
    lemma_chop(b, i, p1 + p2 + p3 + p4 + p5, p6);
    lemma_chop(b, i, p1 + p2 + p3 + p4, p5);
    lemma_chop(b, i, p1 + p2 + p3, p4);
    lemma_chop(b, i, p1 + p2, p3);
    lemma_chop(b, i, p1, p2);
    lemma_take_u32_of(b, i, c.id);
    lemma_take_u8_of(b, i + 4, c.version);
    lemma_take_u32_of(b, i + 5, c.cost);
    lemma_take_u32_of(b, i + 9, c.attack);
    lemma_take_u32_of(b, i + 13, c.health);
    lemma_take_str_of(b, i + 17, c.cardid);
    lemma_take_str_of(b, i + 17 + p6.len(), c.name);
    lemma_take_opt_str_of(b, i + 17 + p6.len() + p7.len(), c.hand_text);
    lemma_take_opt_str_of(b, i + 17 + p6.len() + p7.len() + p8.len(), c.flavor_text);
}

proof fn lemma_take_cards_of(b: Seq<u8>, i: int, cs: Seq<CardV>)
    requires
        0 <= i,
        forall|k: int| 0 <= k < cs.len() ==> card_fits(#[trigger] cs[k]),
        i + spec_encode_cards(cs).len() <= b.len(),
        b.subrange(i, i + spec_encode_cards(cs).len()) == spec_encode_cards(cs),
    ensures
        spec_take_cards(b, i, cs.len() as int) == Ok::<(Seq<CardV>, int), DecodeError>(
            (cs, i + spec_encode_cards(cs).len()),
        ),
    decreases cs.len(),
{
    if cs.len() == 0 {
        assert(cs =~= Seq::<CardV>::empty());
    } else {
        let head = spec_encode_card(cs[0]);
        let tail = spec_encode_cards(cs.drop_first());
        lemma_chop(b, i, head, tail);
        lemma_take_card_of(b, i, cs[0]);
        lemma_take_cards_of(b, i + head.len(), cs.drop_first());
        assert(seq![cs[0]] + cs.drop_first() =~= cs);
    }
}

/// Round-trip law: decoding the encoding of any record collection yields
/// exactly that collection, field for field, including the empty collection
/// and records with every optional field absent and every string empty.
pub proof fn lemma_round_trip(cs: Seq<CardV>)
    requires
        collection_fits(cs),
    ensures
        spec_decode(spec_encode(cs)) == Ok::<Seq<CardV>, DecodeError>(cs),
{
    let b = spec_encode(cs);
    let hdr = seq![FORMAT_MARKER];
    let cnt = spec_u64_to_le_bytes(cs.len() as u64);
    let body = spec_encode_cards(cs);
    lemma_auto_spec_u64_to_from_le_bytes();
    assert(b.subrange(0, b.len() as int) =~= b);
    lemma_chop(b, 0, hdr + cnt, body);
    lemma_chop(b, 0, hdr, cnt);
    assert(b[0] == (hdr + cnt + body)[0]);
    lemma_take_u64_of(b, 1, cs.len() as u64);
    lemma_take_cards_of(b, 9, cs);
}

/// A corollary of the round trip: the encoding is canonical — two
/// collections with the same bytes are the same collection.
pub proof fn lemma_encode_injective(a: Seq<CardV>, b: Seq<CardV>)
    requires
        collection_fits(a),
        collection_fits(b),
        spec_encode(a) == spec_encode(b),
    ensures
        a == b,
{
    lemma_round_trip(a);
    lemma_round_trip(b);
}

// ---------------------------------------------------------------------------
// Executable encoder.
// ---------------------------------------------------------------------------

proof fn lemma_encode_cards_push(cs: Seq<CardV>, i: int)
    requires
        0 <= i < cs.len(),
    ensures
        spec_encode_cards(cs.take(i + 1)) == spec_encode_cards(cs.take(i)) + spec_encode_card(
            cs[i],
        ),
    decreases i,
{
    if i == 0 {
        assert(cs.take(1) =~= seq![cs[0]]);
        assert(cs.take(0) =~= Seq::<CardV>::empty());
        assert(seq![cs[0]].drop_first() =~= Seq::<CardV>::empty());
        assert(spec_encode_card(cs[0]) + Seq::<u8>::empty() =~= spec_encode_card(cs[0]));
        assert(Seq::<u8>::empty() + spec_encode_card(cs[0]) =~= spec_encode_card(cs[0]));
    } else {
        let a = cs.take(i + 1);
        assert(a[0] == cs[0]);
        assert(a.drop_first() =~= cs.drop_first().take(i));
        assert(cs.take(i)[0] == cs[0]);
        assert(cs.take(i).drop_first() =~= cs.drop_first().take(i - 1));
        lemma_encode_cards_push(cs.drop_first(), i - 1);
        assert(cs.drop_first()[i - 1] == cs[i]);
        let x = spec_encode_card(cs[0]);
        let y = spec_encode_cards(cs.drop_first().take(i - 1));
        let z = spec_encode_card(cs[i]);
        assert(x + (y + z) =~= (x + y) + z);
    }
}

/// Encode one string field: length prefix, then UTF-8 bytes.
fn encode_str(s: &str) -> (r: Vec<u8>)
    ensures
        r@ == spec_encode_str(s@),
        str_fits(s@),
{
    let bytes = s.as_bytes_vec();
    let n = bytes.len();
    let mut r = u64_to_le_bytes(n as u64);
    let mut tail = bytes;
    r.append(&mut tail);
    r
}

/// Encode one optional string field: presence flag, then the string if any.
fn encode_opt_str(o: &Option<String>) -> (r: Vec<u8>)
    ensures
        r@ == spec_encode_opt_str(opt_view(*o)),
        match *o {
            Some(s) => str_fits(s@),
            None => true,
        },
{
    match o {
        None => {
            let mut r: Vec<u8> = Vec::new();
            r.push(0u8);
            proof {
                assert(r@ =~= seq![0u8]);
            }
            r
        },
        Some(s) => {
            let mut r: Vec<u8> = Vec::new();
            r.push(1u8);
            let mut tail = encode_str(s.as_str());
            proof {
                assert(r@ =~= seq![1u8]);
            }
            r.append(&mut tail);
            r
        },
    }
}

/// Encode one record, fields in declared order.
fn encode_card(c: &Card) -> (r: Vec<u8>)
    ensures
        r@ == spec_encode_card(c@),
        card_fits(c@),
{
    let mut r = u32_to_le_bytes(c.id);
    r.push(c.version);
    proof {
        assert(r@ =~= spec_u32_to_le_bytes(c.id) + seq![c.version]);
    }
    let mut t = u32_to_le_bytes(c.cost);
    r.append(&mut t);
    let mut t = u32_to_le_bytes(c.attack);
    r.append(&mut t);
    let mut t = u32_to_le_bytes(c.health);
    r.append(&mut t);
    let mut t = encode_str(c.cardid.as_str());
    r.append(&mut t);
    let mut t = encode_str(c.name.as_str());
    r.append(&mut t);
    let mut t = encode_opt_str(&c.hand_text);
    r.append(&mut t);
    let mut t = encode_opt_str(&c.flavor_text);
    r.append(&mut t);
    r
}

/// Serialize a collection to its canonical byte encoding. Deterministic and
/// total: it succeeds for every in-memory collection.
pub fn encode_cards(cards: &CardCollection) -> (r: Vec<u8>)
    ensures
        r@ == spec_encode(cards@),
        collection_fits(cards@),
{
    let n = cards.cards.len();
    let mut r: Vec<u8> = Vec::new();
    r.push(FORMAT_MARKER);
    proof {
        assert(r@ =~= seq![FORMAT_MARKER]);
    }
    let mut cnt = u64_to_le_bytes(n as u64);
    r.append(&mut cnt);
    proof {
        assert(cards@.take(0) =~= Seq::<CardV>::empty());
        assert((seq![FORMAT_MARKER] + spec_u64_to_le_bytes(n as u64)) + Seq::<u8>::empty() =~= seq![
            FORMAT_MARKER,
        ] + spec_u64_to_le_bytes(n as u64));
    }
    let mut i: usize = 0;
    while i < n
        invariant
            n == cards.cards@.len(),
            i <= n,
            r@ == seq![FORMAT_MARKER] + spec_u64_to_le_bytes(n as u64) + spec_encode_cards(
                cards@.take(i as int),
            ),
            forall|k: int| 0 <= k < i ==> card_fits(#[trigger] cards@[k]),
        decreases n - i,
    {
        let mut cb = encode_card(&cards.cards[i]);
        proof {
            lemma_encode_cards_push(cards@, i as int);
            let hdr = seq![FORMAT_MARKER] + spec_u64_to_le_bytes(n as u64);
            let body = spec_encode_cards(cards@.take(i as int));
            let piece = spec_encode_card(cards@[i as int]);
            assert((hdr + body) + piece =~= hdr + (body + piece));
        }
        r.append(&mut cb);
        i += 1;
    }
    proof {
        assert(cards@.take(n as int) =~= cards@);
    }
    r
}

// ---------------------------------------------------------------------------
// Executable decoder.
// ---------------------------------------------------------------------------

/// Relies on `String::from_utf8`: it succeeds exactly on valid UTF-8 input
/// and returns the string those bytes encode.
#[verifier::external_body]
fn string_from_utf8(v: Vec<u8>) -> (r: Option<String>)
    ensures
        r is Some <==> valid_utf8(v@),
        r matches Some(s) ==> s@ == decode_utf8(v@),
{
    match String::from_utf8(v) {
        Ok(s) => Some(s),
        Err(_) => None,
    }
}

fn take_u8(b: &[u8], i: usize) -> (r: Result<(u8, usize), DecodeError>)
    requires
        i <= b@.len(),
    ensures
        match r {
            Ok((x, j)) => spec_take_u8(b@, i as int) == Ok::<(u8, int), DecodeError>((x, j as int))
                && i < j <= b@.len(),
            Err(e) => spec_take_u8(b@, i as int) == Err::<(u8, int), DecodeError>(e),
        },
{
    if b.len() - i >= 1 {
        Ok((b[i], i + 1))
    } else {
        Err(DecodeError::Truncated)
    }
}

fn take_u32(b: &[u8], i: usize) -> (r: Result<(u32, usize), DecodeError>)
    requires
        i <= b@.len(),
    ensures
        match r {
            Ok((x, j)) => spec_take_u32(b@, i as int) == Ok::<(u32, int), DecodeError>(
                (x, j as int),
            ) && i < j <= b@.len(),
            Err(e) => spec_take_u32(b@, i as int) == Err::<(u32, int), DecodeError>(e),
        },
{
    if b.len() - i >= 4 {
        let s = slice_subrange(b, i, i + 4);
        Ok((u32_from_le_bytes(s), i + 4))
    } else {
        Err(DecodeError::Truncated)
    }
}

fn take_u64(b: &[u8], i: usize) -> (r: Result<(u64, usize), DecodeError>)
    requires
        i <= b@.len(),
    ensures
        match r {
            Ok((x, j)) => spec_take_u64(b@, i as int) == Ok::<(u64, int), DecodeError>(
                (x, j as int),
            ) && i < j <= b@.len(),
            Err(e) => spec_take_u64(b@, i as int) == Err::<(u64, int), DecodeError>(e),
        },
{
    if b.len() - i >= 8 {
        let s = slice_subrange(b, i, i + 8);
        Ok((u64_from_le_bytes(s), i + 8))
    } else {
        Err(DecodeError::Truncated)
    }
}

fn take_str(b: &[u8], i: usize) -> (r: Result<(String, usize), DecodeError>)
    requires
        i <= b@.len(),
    ensures
        match r {
            Ok((s, j)) => spec_take_str(b@, i as int) == Ok::<(Seq<char>, int), DecodeError>(
                (s@, j as int),
            ) && i < j <= b@.len(),
            Err(e) => spec_take_str(b@, i as int) == Err::<(Seq<char>, int), DecodeError>(e),
        },
{
    let (n, j) = match take_u64(b, i) {
        Ok(p) => p,
        Err(e) => {
            return Err(e);
        },
    };
    if n > (b.len() - j) as u64 {
        return Err(DecodeError::Truncated);
    }
    let nn = n as usize;
    let sl = slice_subrange(b, j, j + nn);
    let v = slice_to_vec(sl);
    match string_from_utf8(v) {
        Some(s) => Ok((s, j + nn)),
        None => Err(DecodeError::BadText),
    }
}

fn take_opt_str(b: &[u8], i: usize) -> (r: Result<(Option<String>, usize), DecodeError>)
    requires
        i <= b@.len(),
    ensures
        match r {
            Ok((o, j)) => spec_take_opt_str(b@, i as int) == Ok::<
                (Option<Seq<char>>, int),
                DecodeError,
            >((opt_view(o), j as int)) && i < j <= b@.len(),
            Err(e) => spec_take_opt_str(b@, i as int) == Err::<
                (Option<Seq<char>>, int),
                DecodeError,
            >(e),
        },
{
    let (flag, j) = match take_u8(b, i) {
        Ok(p) => p,
        Err(e) => {
            return Err(e);
        },
    };
    if flag == 0 {
        Ok((None, j))
    } else if flag == 1 {
        match take_str(b, j) {
            Ok((s, k)) => Ok((Some(s), k)),
            Err(e) => Err(e),
        }
    } else {
        Err(DecodeError::BadMarker)
    }
}

fn take_card(b: &[u8], i: usize) -> (r: Result<(Card, usize), DecodeError>)
    requires
        i <= b@.len(),
    ensures
        match r {
            Ok((c, j)) => spec_take_card(b@, i as int) == Ok::<(CardV, int), DecodeError>(
                (c@, j as int),
            ) && i < j <= b@.len(),
            Err(e) => spec_take_card(b@, i as int) == Err::<(CardV, int), DecodeError>(e),
        },
{
    let (id, i1) = match take_u32(b, i) {
        Ok(p) => p,
        Err(e) => {
            return Err(e);
        },
    };
    let (version, i2) = match take_u8(b, i1) {
        Ok(p) => p,
        Err(e) => {
            return Err(e);
        },
    };
    let (cost, i3) = match take_u32(b, i2) {
        Ok(p) => p,
        Err(e) => {
            return Err(e);
        },
    };
    let (attack, i4) = match take_u32(b, i3) {
        Ok(p) => p,
        Err(e) => {
            return Err(e);
        },
    };
    let (health, i5) = match take_u32(b, i4) {
        Ok(p) => p,
        Err(e) => {
            return Err(e);
        },
    };
    let (cardid, i6) = match take_str(b, i5) {
        Ok(p) => p,
        Err(e) => {
            return Err(e);
        },
    };
    let (name, i7) = match take_str(b, i6) {
        Ok(p) => p,
        Err(e) => {
            return Err(e);
        },
    };
    let (hand_text, i8) = match take_opt_str(b, i7) {
        Ok(p) => p,
        Err(e) => {
            return Err(e);
        },
    };
    let (flavor_text, i9) = match take_opt_str(b, i8) {
        Ok(p) => p,
        Err(e) => {
            return Err(e);
        },
    };
    Ok((Card { id, version, cost, attack, health, cardid, name, hand_text, flavor_text }, i9))
}

/// Deserialize a byte stream back into a collection. Fails exactly where
/// [`spec_decode`] does: on a truncated stream, a mismatched marker or
/// presence flag, a string that is not valid UTF-8, or trailing bytes.
pub fn decode_cards(bytes: &[u8]) -> (r: Result<CardCollection, DecodeError>)
    ensures
        match r {
            Ok(c) => spec_decode(bytes@) == Ok::<Seq<CardV>, DecodeError>(c@),
            Err(e) => spec_decode(bytes@) == Err::<Seq<CardV>, DecodeError>(e),
        },
{
    if bytes.len() < 1 {
        return Err(DecodeError::Truncated);
    }
    if bytes[0] != FORMAT_MARKER {
        return Err(DecodeError::BadMarker);
    }
    let (n, start) = match take_u64(bytes, 1) {
        Ok(p) => p,
        Err(e) => {
            return Err(e);
        },
    };
    let mut cards: Vec<Card> = Vec::new();
    let mut i = start;
    let mut k: u64 = 0;
    proof {
        let r0 = spec_take_cards(bytes@, start as int, n as int);
        match r0 {
            Ok((cs, j)) => {
                assert(card_views(cards@) + cs =~= cs);
            },
            Err(e) => {},
        }
    }
    while k < n
        invariant
            k <= n,
            i <= bytes@.len(),
            bytes@.len() >= 1,
            bytes@[0] == FORMAT_MARKER,
            spec_take_u64(bytes@, 1) == Ok::<(u64, int), DecodeError>((n, start as int)),
            match spec_take_cards(bytes@, i as int, n - k) {
                Ok((cs, j)) => spec_take_cards(bytes@, start as int, n as int) == Ok::<
                    (Seq<CardV>, int),
                    DecodeError,
                >((card_views(cards@) + cs, j)),
                Err(e) => spec_take_cards(bytes@, start as int, n as int) == Err::<
                    (Seq<CardV>, int),
                    DecodeError,
                >(e),
            },
        decreases n - k,
    {
        let (card, i2) = match take_card(bytes, i) {
            Ok(p) => p,
            Err(e) => {
                return Err(e);
            },
        };
        proof {
            let ghost prev = cards@;
            match spec_take_cards(bytes@, i2 as int, n - k - 1) {
                Ok((cs2, j)) => {
                    assert((card_views(prev) + seq![card@]) + cs2 =~= card_views(prev) + (seq![
                        card@,
                    ] + cs2));
                },
                Err(e) => {},
            }
        }
        let ghost prev = cards@;
        cards.push(card);
        proof {
            assert(card_views(cards@) =~= card_views(prev) + seq![card@]);
        }
        i = i2;
        k = k + 1;
    }
    proof {
        let r_end = spec_take_cards(bytes@, i as int, 0);
        match r_end {
            Ok((cs, j)) => {
                assert(card_views(cards@) + cs =~= card_views(cards@));
            },
            Err(e) => {},
        }
    }
    if i != bytes.len() {
        return Err(DecodeError::TrailingBytes);
    }
    Ok(CardCollection { cards })
}

} // verus!
