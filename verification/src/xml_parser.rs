//! The document parser: a streaming XML tokenizer behind a trusted wrapper,
//! and a verified two-state machine that flattens each entity element into
//! one [`Card`], resolving localized text for a single requested locale.
//!
//! The tokenizer yields plain [`XmlEvent`] values; everything from the first
//! event to the finished collection is verified against [`spec_parse`].

use vstd::prelude::*;
use vstd::utf8::{decode_utf8, encode_utf8, valid_utf8};
use crate::card::{Card, CardCollection, CardV, card_views, zero_card};
use quick_xml::Reader;
use quick_xml::events::{BytesStart, Event};
use std::io::Cursor;

verus! {

/// One attribute of an element: its raw key bytes and its raw (still
/// escaped) value bytes, as the document holds them.
#[derive(Debug)]
pub struct XmlAttr {
    pub key: Vec<u8>,
    pub value: Vec<u8>,
}

/// One tokenizer event, reduced to plain values.
#[derive(Debug)]
pub enum XmlEvent {
    /// An opening element tag with its attributes.
    Open { name: Vec<u8>, attrs: Vec<XmlAttr> },
    /// A self-closing element tag with its attributes.
    SelfClosed { name: Vec<u8>, attrs: Vec<XmlAttr> },
    /// A closing element tag.
    Close { name: Vec<u8> },
    /// Character data, whitespace-trimmed and un-escaped of XML entities.
    Text { content: String },
    /// Any other markup (comments, declarations, processing instructions).
    Skip,
    /// End of the stream, or a reader error that ends the scan.
    Terminal,
}

/// Holds the streaming tokenizer of the `quick_xml` crate over an in-memory
/// buffer, together with a latch that keeps the stream ended once the first
/// end-of-input or reader error was seen.
#[verifier::external_body]
pub struct EventReader {
    inner: Reader<Cursor<Vec<u8>>>,
    done: bool,
}

/// The events that tokenizing the given document bytes yields, in order, up
/// to (excluding) the first end-of-input or reader error. A function of the
/// bytes alone.
pub uninterp spec fn events_of(xml: Seq<u8>) -> Seq<XmlEvent>;

/// The events a reader has not yet handed out.
pub uninterp spec fn remaining_events(r: EventReader) -> Seq<XmlEvent>;

/// Relies on `quick_xml::Reader::from_reader` with whitespace trimming on:
/// the fresh reader will yield exactly the events of the document bytes.
#[verifier::external_body]
fn event_reader_new(xml: Vec<u8>) -> (r: EventReader)
    ensures
        remaining_events(r) == events_of(xml@),
        forall|i: int|
            0 <= i < remaining_events(r).len() ==> !(#[trigger] remaining_events(r)[i]
                is Terminal),
{
    let mut inner = Reader::from_reader(Cursor::new(xml));
    inner.config_mut().trim_text(true);
    EventReader { inner, done: false }
}

#[verifier::external_type_specification]
#[verifier::external_body]
pub struct ExBytesStart<'a>(BytesStart<'a>);

/// Conversion helper for the reader wrapper: relies on
/// `BytesStart::name` and `BytesStart::attributes` to yield the element's
/// name and its attributes in document order, skipping malformed ones.
#[verifier::external_body]
fn conv_elem(e: &BytesStart, self_closed: bool) -> (r: XmlEvent)
{
    let name = e.name().as_ref().to_vec();
    let attrs = e.attributes().flatten().map(
        |a| XmlAttr { key: a.key.as_ref().to_vec(), value: a.value.into_owned() },
    ).collect();
    if self_closed {
        XmlEvent::SelfClosed { name, attrs }
    } else {
        XmlEvent::Open { name, attrs }
    }
}

/// Relies on `quick_xml::Reader::read_event_into`: successive reads walk the
/// event sequence of the document bytes; at its end, and after any reader
/// error, every further read reports the end of the stream.
#[verifier::external_body]
fn reader_next(r: &mut EventReader) -> (ev: XmlEvent)
    ensures
        remaining_events(*old(r)).len() > 0 ==> {
            &&& ev == remaining_events(*old(r))[0]
            &&& remaining_events(*final(r)) == remaining_events(*old(r)).drop_first()
        },
        remaining_events(*old(r)).len() == 0 ==> {
            &&& ev == (XmlEvent::Terminal {})
            &&& remaining_events(*final(r)).len() == 0
        },
{
    if r.done {
        return XmlEvent::Terminal;
    }
    let mut buf = Vec::new();
    match r.inner.read_event_into(&mut buf) {
        Ok(Event::Start(e)) => conv_elem(&e, false),
        Ok(Event::Empty(e)) => conv_elem(&e, true),
        Ok(Event::End(e)) => XmlEvent::Close { name: e.name().as_ref().to_vec() },
        Ok(Event::Text(t)) => XmlEvent::Text { content: t.unescape().unwrap_or_default().into_owned() },
        Ok(Event::Eof) | Err(_) => {
            r.done = true;
            XmlEvent::Terminal
        },
        Ok(_) => XmlEvent::Skip,
    }
}

/// Drain a fresh reader of the whole event sequence of the document.
fn read_all_events(xml: Vec<u8>) -> (evs: Vec<XmlEvent>)
    ensures
        evs@ == events_of(xml@),
{
    let ghost all = events_of(xml@);
    let mut r = event_reader_new(xml);
    let mut evs: Vec<XmlEvent> = Vec::new();
    let mut stop = false;
    while !stop
        invariant
            evs@ + remaining_events(r) == all,
            forall|i: int| 0 <= i < all.len() ==> !(#[trigger] all[i] is Terminal),
            stop ==> remaining_events(r).len() == 0,
        decreases remaining_events(r).len() + (if stop { 0int } else { 1 }),
    {
        let ghost before = remaining_events(r);
        let ev = reader_next(&mut r);
        match ev {
            XmlEvent::Terminal => {
                proof {
                    if before.len() > 0 {
                        assert(all[evs@.len() as int] == (evs@ + before)[evs@.len() as int]);
                        assert(false);
                    }
                }
                stop = true;
            },
            _ => {
                proof {
                    if before.len() == 0 {
                        assert(false);
                    }
                    assert(evs@.push(before[0]) + before.drop_first() =~= evs@ + before);
                }
                evs.push(ev);
            },
        }
    }
    proof {
        assert(evs@ + remaining_events(r) =~= evs@);
    }
    evs
}

// ---------------------------------------------------------------------------
// Small verified helpers: byte comparison and attribute lookup.
// ---------------------------------------------------------------------------

/// Exact byte-sequence comparison.
fn bytes_eq(a: &[u8], b: &[u8]) -> (r: bool)
    ensures
        r == (a@ == b@),
{
    if a.len() != b.len() {
        proof {
            assert(a@ != b@);
        }
        return false;
    }
    let n = a.len();
    let mut i: usize = 0;
    while i < n
        invariant
            i <= n,
            n == a@.len() == b@.len(),
            forall|k: int| 0 <= k < i ==> a@[k] == b@[k],
        decreases n - i,
    {
        if a[i] != b[i] {
            return false;
        }
        i += 1;
    }
    proof {
        assert(a@ =~= b@);
    }
    true
}

/// The value of the first attribute with the given key, if any.
pub open spec fn first_attr(attrs: Seq<XmlAttr>, key: Seq<u8>) -> Option<Seq<u8>>
    decreases attrs.len(),
{
    if attrs.len() == 0 {
        None
    } else if attrs[0].key@ == key {
        Some(attrs[0].value@)
    } else {
        first_attr(attrs.drop_first(), key)
    }
}

/// The value of the last attribute with the given key, if any.
pub open spec fn last_attr(attrs: Seq<XmlAttr>, key: Seq<u8>) -> Option<Seq<u8>>
    decreases attrs.len(),
{
    if attrs.len() == 0 {
        None
    } else if attrs.last().key@ == key {
        Some(attrs.last().value@)
    } else {
        last_attr(attrs.drop_last(), key)
    }
}

/// Index of the first attribute with the given key.
fn find_first_attr(attrs: &Vec<XmlAttr>, key: &[u8]) -> (r: Option<usize>)
    ensures
        match r {
            Some(idx) => idx < attrs@.len() && first_attr(attrs@, key@) == Some(
                attrs@[idx as int].value@,
            ),
            None => first_attr(attrs@, key@) is None,
        },
{
    let n = attrs.len();
    let mut i: usize = 0;
    proof {
        assert(attrs@.skip(0) =~= attrs@);
    }
    while i < n
        invariant
            i <= n,
            n == attrs@.len(),
            first_attr(attrs@, key@) == first_attr(attrs@.skip(i as int), key@),
        decreases n - i,
    {
        proof {
            assert(attrs@.skip(i as int)[0] == attrs@[i as int]);
            assert(attrs@.skip(i as int).drop_first() =~= attrs@.skip(i as int + 1));
        }
        if bytes_eq(attrs[i].key.as_slice(), key) {
            return Some(i);
        }
        i += 1;
    }
    None
}

/// Index of the last attribute with the given key.
fn find_last_attr(attrs: &Vec<XmlAttr>, key: &[u8]) -> (r: Option<usize>)
    ensures
        match r {
            Some(idx) => idx < attrs@.len() && last_attr(attrs@, key@) == Some(
                attrs@[idx as int].value@,
            ),
            None => last_attr(attrs@, key@) is None,
        },
{
    let n = attrs.len();
    let mut found: Option<usize> = None;
    let mut i: usize = 0;
    while i < n
        invariant
            i <= n,
            n == attrs@.len(),
            match found {
                Some(idx) => idx < i && last_attr(attrs@.take(i as int), key@) == Some(
                    attrs@[idx as int].value@,
                ),
                None => last_attr(attrs@.take(i as int), key@) is None,
            },
        decreases n - i,
    {
        proof {
            assert(attrs@.take(i as int + 1).last() == attrs@[i as int]);
            assert(attrs@.take(i as int + 1).drop_last() =~= attrs@.take(i as int));
        }
        if bytes_eq(attrs[i].key.as_slice(), key) {
            found = Some(i);
        }
        i += 1;
    }
    proof {
        assert(attrs@.take(n as int) =~= attrs@);
    }
    found
}

// ---------------------------------------------------------------------------
// Text conversion and lenient numeric parsing.
// ---------------------------------------------------------------------------

/// What `String::from_utf8_lossy` makes of the given bytes: a function of
/// the bytes alone.
pub uninterp spec fn lossy_of(b: Seq<u8>) -> Seq<char>;

/// Relies on `String::from_utf8_lossy`: the result depends on the bytes
/// alone, and valid UTF-8 is kept unchanged.
#[verifier::external_body]
fn lossy_string(b: &[u8]) -> (r: String)
    ensures
        r@ == lossy_of(b@),
        valid_utf8(b@) ==> r@ == decode_utf8(b@),
{
    String::from_utf8_lossy(b).into_owned()
}

/// An ASCII decimal digit.
pub open spec fn is_digit_char(c: char) -> bool {
    48 <= c as u32 <= 57
}

/// A leading plus sign, the one sign accepted by unsigned decimal parsing.
pub open spec fn is_plus_char(c: char) -> bool {
    c as u32 == 43
}

/// A non-empty run of ASCII decimal digits.
pub open spec fn dig_seq(s: Seq<char>) -> bool {
    s.len() > 0 && forall|i: int| 0 <= i < s.len() ==> is_digit_char(#[trigger] s[i])
}

/// The decimal value of a digit run.
pub open spec fn dig_val(s: Seq<char>) -> int
    decreases s.len(),
{
    if s.len() == 0 {
        0
    } else {
        dig_val(s.drop_last()) * 10 + (s.last() as u32 - 48)
    }
}

/// The lenient numeric policy: an optional plus sign and digits that fit
/// yield the value; anything else (empty, stray characters, overflow)
/// yields 0.
pub open spec fn spec_parse_u32_or_zero(s: Seq<char>) -> u32 {
    let t = if s.len() > 0 && is_plus_char(s[0]) {
        s.drop_first()
    } else {
        s
    };
    if dig_seq(t) && 0 <= dig_val(t) <= u32::MAX {
        dig_val(t) as u32
    } else {
        0
    }
}

/// The same policy for the one-byte revision field.
pub open spec fn spec_parse_u8_or_zero(s: Seq<char>) -> u8 {
    let t = if s.len() > 0 && is_plus_char(s[0]) {
        s.drop_first()
    } else {
        s
    };
    if dig_seq(t) && 0 <= dig_val(t) <= u8::MAX {
        dig_val(t) as u8
    } else {
        0
    }
}

proof fn lemma_dig_val_nonneg(s: Seq<char>)
    requires
        forall|i: int| 0 <= i < s.len() ==> is_digit_char(#[trigger] s[i]),
    ensures
        dig_val(s) >= 0,
    decreases s.len(),
{
    if s.len() > 0 {
        lemma_dig_val_nonneg(s.drop_last());
    }
}

proof fn lemma_dig_val_mono(s: Seq<char>, i: int)
    requires
        0 <= i <= s.len(),
        forall|k: int| 0 <= k < s.len() ==> is_digit_char(#[trigger] s[k]),
    ensures
        dig_val(s) >= dig_val(s.take(i)),
    decreases s.len() - i,
{
    if i == s.len() {
        assert(s.take(i) =~= s);
    } else {
        assert(s.take(i + 1).drop_last() =~= s.take(i));
        assert(s.take(i + 1).last() == s[i]);
        assert(forall|k: int| 0 <= k < s.take(i).len() ==> is_digit_char(#[trigger] s.take(i)[k]));
        lemma_dig_val_nonneg(s.take(i));
        assert(dig_val(s.take(i + 1)) == dig_val(s.take(i)) * 10 + (s[i] as u32 - 48));
        lemma_dig_val_mono(s, i + 1);
    }
}

/// Parse an unsigned 32-bit decimal with the lenient fallback-to-zero
/// policy.
pub fn numeric_u32_or_zero(s: &str) -> (r: u32)
    ensures
        r == spec_parse_u32_or_zero(s@),
{
    let ghost t = if s@.len() > 0 && is_plus_char(s@[0]) {
        s@.drop_first()
    } else {
        s@
    };
    let n = s.unicode_len();
    let mut start: usize = 0;
    if n > 0 && (s.get_char(0) as u32) == 43 {
        start = 1;
    }
    proof {
        assert(t =~= s@.skip(start as int));
    }
    if start >= n {
        return 0;
    }
    let mut v: u64 = 0;
    let mut i: usize = start;
    while i < n
        invariant
            start <= i <= n,
            n == s@.len(),
            start < n,
            t == (if s@.len() > 0 && is_plus_char(s@[0]) {
                s@.drop_first()
            } else {
                s@
            }),
            t == s@.skip(start as int),
            t.len() == n - start,
            v <= u32::MAX,
            v as int == dig_val(t.take(i - start)),
            forall|k: int| 0 <= k < i - start ==> is_digit_char(#[trigger] t[k]),
        decreases n - i,
    {
        let c = s.get_char(i);
        let u = c as u32;
        proof {
            assert(t[i - start] == s@[i as int]);
        }
        if u < 48 || u > 57 {
            proof {
                assert(!is_digit_char(t[i - start]));
                assert(!dig_seq(t));
            }
            return 0;
        }
        proof {
            assert(t.take(i - start + 1).drop_last() =~= t.take(i - start));
            assert(t.take(i - start + 1).last() == t[i - start]);
        }
        v = v * 10 + (u - 48) as u64;
        if v > 0xFFFF_FFFFu64 {
            proof {
                if dig_seq(t) {
                    lemma_dig_val_mono(t, i - start + 1);
                }
            }
            return 0;
        }
        i += 1;
    }
    proof {
        assert(t.take((n - start) as int) =~= t);
        assert(dig_seq(t));
    }
    v as u32
}

/// Parse an unsigned 8-bit decimal with the lenient fallback-to-zero policy.
pub fn numeric_u8_or_zero(s: &str) -> (r: u8)
    ensures
        r == spec_parse_u8_or_zero(s@),
{
    let v = numeric_u32_or_zero(s);
    if v <= 255 {
        v as u8
    } else {
        0
    }
}

/// Exact string comparison, stated over character sequences.
fn str_eq(a: &str, b: &str) -> (r: bool)
    ensures
        r == (a@ == b@),
{
    let r = bytes_eq(a.as_bytes(), b.as_bytes());
    proof {
        vstd::utf8::encode_utf8_decode_utf8(a@);
        vstd::utf8::encode_utf8_decode_utf8(b@);
    }
    r
}

// ---------------------------------------------------------------------------
// The entity state machine, as a mathematical function on event sequences.
// ---------------------------------------------------------------------------

/// An opening tag of an entity element.
pub open spec fn is_entity_open(ev: XmlEvent) -> bool {
    ev matches XmlEvent::Open { name, .. } && name@ == encode_utf8("Entity"@)
}

/// A closing tag of an entity element.
pub open spec fn is_entity_close(ev: XmlEvent) -> bool {
    ev matches XmlEvent::Close { name } && name@ == encode_utf8("Entity"@)
}

/// A child tag marker inside an entity: an opening or self-closing element
/// named `Tag`.
pub open spec fn is_tag_marker(ev: XmlEvent) -> bool {
    ||| (ev matches XmlEvent::Open { name, .. } && name@ == encode_utf8("Tag"@))
    ||| (ev matches XmlEvent::SelfClosed { name, .. } && name@ == encode_utf8("Tag"@))
}

/// An opening element whose name equals the requested locale code, byte for
/// byte.
pub open spec fn is_locale_open(ev: XmlEvent, locale: Seq<char>) -> bool {
    ev matches XmlEvent::Open { name, .. } && name@ == encode_utf8(locale)
}

/// The attributes an element event carries.
pub open spec fn attrs_of_ev(ev: XmlEvent) -> Seq<XmlAttr> {
    match ev {
        XmlEvent::Open { attrs, .. } => attrs@,
        XmlEvent::SelfClosed { attrs, .. } => attrs@,
        _ => Seq::empty(),
    }
}

/// The fresh record an entity-open marker yields: zero-valued except for the
/// entity's own attributes, whose numeric ones fall back to 0 when they do
/// not parse.
pub open spec fn init_card(attrs: Seq<XmlAttr>) -> CardV {
    CardV {
        cardid: match last_attr(attrs, encode_utf8("CardID"@)) {
            Some(v) => lossy_of(v),
            None => Seq::empty(),
        },
        id: match last_attr(attrs, encode_utf8("ID"@)) {
            Some(v) => spec_parse_u32_or_zero(lossy_of(v)),
            None => 0,
        },
        version: match last_attr(attrs, encode_utf8("version"@)) {
            Some(v) => spec_parse_u8_or_zero(lossy_of(v)),
            None => 0,
        },
        ..zero_card()
    }
}

/// An inline-valued tag's effect on the record: `COST`, `ATK` and `HEALTH`
/// set their field from the `value` attribute with the lenient numeric
/// policy; any other name leaves the record unchanged.
pub open spec fn apply_numeric_tag(cur: CardV, attrs: Seq<XmlAttr>) -> CardV {
    let tn = match last_attr(attrs, encode_utf8("name"@)) {
        Some(v) => lossy_of(v),
        None => Seq::empty(),
    };
    let tv = match last_attr(attrs, encode_utf8("value"@)) {
        Some(v) => lossy_of(v),
        None => Seq::empty(),
    };
    if tn == "COST"@ {
        CardV { cost: spec_parse_u32_or_zero(tv), ..cur }
    } else if tn == "ATK"@ {
        CardV { attack: spec_parse_u32_or_zero(tv), ..cur }
    } else if tn == "HEALTH"@ {
        CardV { health: spec_parse_u32_or_zero(tv), ..cur }
    } else {
        cur
    }
}

/// The locale-text resolver: scan forward from `i` for an opening element
/// named like the locale whose next event is text; stop without a result at
/// the enclosing tag's close marker or the end of the stream. Yields the
/// found text and the position after the last event the scan consumed.
pub open spec fn loc_scan(events: Seq<XmlEvent>, locale: Seq<char>, i: int) -> (
    Option<Seq<char>>,
    int,
)
    decreases events.len() - i,
{
    if i < 0 || i >= events.len() {
        (None::<Seq<char>>, events.len() as int)
    } else if events[i] matches XmlEvent::Close { name } && name@ == encode_utf8("Tag"@) {
        (None::<Seq<char>>, i + 1)
    } else if is_locale_open(events[i], locale) {
        if i + 1 < events.len() {
            match events[i + 1] {
                XmlEvent::Text { content } => (Some(content@), i + 2),
                _ => loc_scan(events, locale, i + 2),
            }
        } else {
            (None::<Seq<char>>, events.len() as int)
        }
    } else {
        loc_scan(events, locale, i + 1)
    }
}

/// The scan stops at or after the next event, never before, and never past
/// the end.
pub proof fn lemma_loc_scan_bounds(events: Seq<XmlEvent>, locale: Seq<char>, i: int)
    requires
        0 <= i <= events.len(),
    ensures
        i <= loc_scan(events, locale, i).1 <= events.len(),
        i < events.len() ==> i < loc_scan(events, locale, i).1,
    decreases events.len() - i,
{
    if i < events.len() {
        if events[i] matches XmlEvent::Close { name } && name@ == encode_utf8("Tag"@) {
        } else if is_locale_open(events[i], locale) {
            if i + 1 < events.len() {
                match events[i + 1] {
                    XmlEvent::Text { content } => {},
                    _ => {
                        lemma_loc_scan_bounds(events, locale, i + 2);
                    },
                }
            }
        } else {
            lemma_loc_scan_bounds(events, locale, i + 1);
        }
    }
}

/// One child tag's whole effect while inside an entity: dispatch on the
/// first `name` attribute; the three localized tags run the resolver, every
/// other name is treated as inline-valued. Yields the updated record and
/// the position the parse resumes at.
pub open spec fn tag_step(
    events: Seq<XmlEvent>,
    locale: Seq<char>,
    i: int,
    cur: CardV,
    attrs: Seq<XmlAttr>,
) -> (CardV, int) {
    match first_attr(attrs, encode_utf8("name"@)) {
        None => (cur, i + 1),
        Some(tnb) => {
            let tn = lossy_of(tnb);
            if tn == "CARDNAME"@ {
                let r = loc_scan(events, locale, i + 1);
                (
                    match r.0 {
                        Some(txt) => CardV { name: txt, ..cur },
                        None => cur,
                    },
                    r.1,
                )
            } else if tn == "CARDTEXT"@ {
                let r = loc_scan(events, locale, i + 1);
                (
                    match r.0 {
                        Some(txt) => CardV { hand_text: Some(txt), ..cur },
                        None => cur,
                    },
                    r.1,
                )
            } else if tn == "FLAVORTEXT"@ {
                let r = loc_scan(events, locale, i + 1);
                (
                    match r.0 {
                        Some(txt) => CardV { flavor_text: Some(txt), ..cur },
                        None => cur,
                    },
                    r.1,
                )
            } else {
                (apply_numeric_tag(cur, attrs), i + 1)
            }
        },
    }
}

/// The two-state machine over the event stream. `None` is the outside-entity
/// state, scanning for an entity-open marker; `Some` carries the record
/// under construction. An entity-open marker always starts a fresh record;
/// the matching close marker finalizes it; an unterminated record at the end
/// of the stream is dropped.
pub open spec fn parse_at(
    events: Seq<XmlEvent>,
    locale: Seq<char>,
    i: int,
    st: Option<CardV>,
) -> Seq<CardV>
    decreases events.len() - i,
    via parse_at_dec
{
    if i < 0 || i >= events.len() {
        Seq::empty()
    } else {
        let ev = events[i];
        if is_entity_open(ev) {
            parse_at(events, locale, i + 1, Some(init_card(attrs_of_ev(ev))))
        } else {
            match st {
                None => parse_at(events, locale, i + 1, None),
                Some(cur) => {
                    if is_entity_close(ev) {
                        seq![cur] + parse_at(events, locale, i + 1, None)
                    } else if is_tag_marker(ev) {
                        let r = tag_step(events, locale, i, cur, attrs_of_ev(ev));
                        parse_at(events, locale, r.1, Some(r.0))
                    } else {
                        parse_at(events, locale, i + 1, Some(cur))
                    }
                },
            }
        }
    }
}

#[via_fn]
proof fn parse_at_dec(events: Seq<XmlEvent>, locale: Seq<char>, i: int, st: Option<CardV>) {
    if 0 <= i < events.len() {
        lemma_loc_scan_bounds(events, locale, i + 1);
    }
}

/// What parsing a whole event stream yields, starting outside any entity.
pub open spec fn spec_parse(events: Seq<XmlEvent>, locale: Seq<char>) -> Seq<CardV> {
    parse_at(events, locale, 0, None)
}

/// The model of the parser's state variable.
pub open spec fn st_view(cur: Option<Card>) -> Option<CardV> {
    match cur {
        Some(c) => Some(c@),
        None => None,
    }
}

// ---------------------------------------------------------------------------
// Laws of the state machine.
// ---------------------------------------------------------------------------

/// A child tag whose effective (last) `name` attribute reads `COST`: the
/// only kind of event that can set a record's `cost`.
pub open spec fn is_cost_tag(ev: XmlEvent) -> bool {
    is_tag_marker(ev) && match last_attr(attrs_of_ev(ev), encode_utf8("name"@)) {
        Some(v) => lossy_of(v) == "COST"@,
        None => false,
    }
}

proof fn lemma_no_cost(events: Seq<XmlEvent>, locale: Seq<char>, i: int, st: Option<CardV>)
    requires
        forall|k: int| i <= k < events.len() ==> !is_cost_tag(#[trigger] events[k]),
        st matches Some(cur) ==> cur.cost == 0,
    ensures
        forall|t: int|
            0 <= t < parse_at(events, locale, i, st).len() ==> #[trigger] parse_at(
                events,
                locale,
                i,
                st,
            )[t].cost == 0,
    decreases events.len() - i,
{
    reveal_strlit("COST");
    if i < 0 || i >= events.len() {
    } else {
        let ev = events[i];
        if is_entity_open(ev) {
            lemma_no_cost(events, locale, i + 1, Some(init_card(attrs_of_ev(ev))));
        } else {
            match st {
                None => {
                    lemma_no_cost(events, locale, i + 1, None);
                },
                Some(cur) => {
                    if is_entity_close(ev) {
                        lemma_no_cost(events, locale, i + 1, None);
                        let rest = parse_at(events, locale, i + 1, None);
                        assert forall|t: int| 0 <= t < (seq![cur] + rest).len() implies (seq![cur]
                            + rest)[t].cost == 0 by {
                            if t > 0 {
                                assert((seq![cur] + rest)[t] == rest[t - 1]);
                            }
                        }
                    } else if is_tag_marker(ev) {
                        lemma_loc_scan_bounds(events, locale, i + 1);
                        let r = tag_step(events, locale, i, cur, attrs_of_ev(ev));
                        assert(!is_cost_tag(ev));
                        assert(r.0.cost == 0);
                        lemma_no_cost(events, locale, r.1, Some(r.0));
                    } else {
                        lemma_no_cost(events, locale, i + 1, Some(cur));
                    }
                },
            }
        }
    }
}

/// Parser default policy: an event stream that holds no `COST` tag parses
/// to records whose `cost` is 0 throughout — the field's default is 0 and
/// only a `COST` tag can change it. (The companion policy, that a
/// non-numeric attribute or value yields 0, is [`lemma_non_numeric_is_zero`].)
pub proof fn lemma_missing_cost_defaults(events: Seq<XmlEvent>, locale: Seq<char>)
    requires
        forall|k: int| 0 <= k < events.len() ==> !is_cost_tag(#[trigger] events[k]),
    ensures
        forall|t: int|
            0 <= t < spec_parse(events, locale).len() ==> #[trigger] spec_parse(
                events,
                locale,
            )[t].cost == 0,
{
    lemma_no_cost(events, locale, 0, None);
}

/// Parser default policy: a numeric attribute or tag value that is not a
/// plain unsigned decimal in range yields 0, never an error.
pub proof fn lemma_non_numeric_is_zero(s: Seq<char>)
    requires
        !dig_seq(
            if s.len() > 0 && is_plus_char(s[0]) {
                s.drop_first()
            } else {
                s
            },
        ),
    ensures
        spec_parse_u32_or_zero(s) == 0,
        spec_parse_u8_or_zero(s) == 0,
{
}

proof fn lemma_loc_scan_no_locale(events: Seq<XmlEvent>, locale: Seq<char>, i: int)
    requires
        0 <= i,
        forall|k: int| i <= k < events.len() ==> !is_locale_open(#[trigger] events[k], locale),
    ensures
        loc_scan(events, locale, i).0 is None,
    decreases events.len() - i,
{
    if i < events.len() {
        if events[i] matches XmlEvent::Close { name } && name@ == encode_utf8("Tag"@) {
        } else {
            assert(!is_locale_open(events[i], locale));
            lemma_loc_scan_no_locale(events, locale, i + 1);
        }
    }
}

/// Locale miss policy: when no element named like the requested locale code
/// opens anywhere ahead of a localized tag, the resolver finds nothing and
/// the tag leaves the record entirely unchanged — no error, no reset.
pub proof fn lemma_locale_miss_keeps_record(
    events: Seq<XmlEvent>,
    locale: Seq<char>,
    i: int,
    cur: CardV,
)
    requires
        0 <= i < events.len(),
        match first_attr(attrs_of_ev(events[i]), encode_utf8("name"@)) {
            Some(tnb) => lossy_of(tnb) == "CARDNAME"@ || lossy_of(tnb) == "CARDTEXT"@ || lossy_of(
                tnb,
            ) == "FLAVORTEXT"@,
            None => false,
        },
        forall|k: int| i < k < events.len() ==> !is_locale_open(#[trigger] events[k], locale),
    ensures
        tag_step(events, locale, i, cur, attrs_of_ev(events[i])).0 == cur,
{
    lemma_loc_scan_no_locale(events, locale, i + 1);
}

/// Unknown-tag tolerance: a child tag whose `name` value is none of the
/// recognized ones parses successfully and changes nothing: the machine
/// steps past it with the record as it was.
pub proof fn lemma_unknown_tag_ignored(events: Seq<XmlEvent>, locale: Seq<char>, i: int, cur: CardV)
    requires
        0 <= i < events.len(),
        is_tag_marker(events[i]),
        match first_attr(attrs_of_ev(events[i]), encode_utf8("name"@)) {
            Some(tnb) => lossy_of(tnb) != "CARDNAME"@ && lossy_of(tnb) != "CARDTEXT"@ && lossy_of(
                tnb,
            ) != "FLAVORTEXT"@,
            None => true,
        },
        match last_attr(attrs_of_ev(events[i]), encode_utf8("name"@)) {
            Some(tnb) => lossy_of(tnb) != "COST"@ && lossy_of(tnb) != "ATK"@ && lossy_of(tnb)
                != "HEALTH"@,
            None => true,
        },
    ensures
        parse_at(events, locale, i, Some(cur)) == parse_at(events, locale, i + 1, Some(cur)),
{
    reveal_strlit("Tag");
    reveal_strlit("Entity");
    reveal_strlit("COST");
    reveal_strlit("ATK");
    reveal_strlit("HEALTH");
    let ev = events[i];
    assert(!is_entity_open(ev)) by {
        if ev matches XmlEvent::Open { name, .. } {
            vstd::utf8::encode_utf8_decode_utf8("Tag"@);
            vstd::utf8::encode_utf8_decode_utf8("Entity"@);
            assert("Tag"@.len() != "Entity"@.len());
        }
    }
    assert(tag_step(events, locale, i, cur, attrs_of_ev(ev)).0 == cur);
    assert(tag_step(events, locale, i, cur, attrs_of_ev(ev)).1 == i + 1);
}

// ---------------------------------------------------------------------------
// The executable parser.
// ---------------------------------------------------------------------------

/// Build the fresh record for an entity-open marker from its attributes.
fn make_entity_card(attrs: &Vec<XmlAttr>) -> (c: Card)
    ensures
        c@ == init_card(attrs@),
{
    let mut c = Card {
        id: 0,
        version: 0,
        cost: 0,
        attack: 0,
        health: 0,
        cardid: String::new(),
        name: String::new(),
        hand_text: None,
        flavor_text: None,
    };
    match find_last_attr(attrs, "CardID".as_bytes()) {
        Some(ix) => {
            c.cardid = lossy_string(attrs[ix].value.as_slice());
        },
        None => {},
    }
    match find_last_attr(attrs, "ID".as_bytes()) {
        Some(ix) => {
            let v = lossy_string(attrs[ix].value.as_slice());
            c.id = numeric_u32_or_zero(v.as_str());
        },
        None => {},
    }
    match find_last_attr(attrs, "version".as_bytes()) {
        Some(ix) => {
            let v = lossy_string(attrs[ix].value.as_slice());
            c.version = numeric_u8_or_zero(v.as_str());
        },
        None => {},
    }
    c
}

/// The locale-text resolver over the event stream, from position `i`.
pub fn parse_localization(events: &Vec<XmlEvent>, i: usize, locale: &str) -> (res: (
    Option<String>,
    usize,
))
    requires
        i <= events@.len(),
    ensures
        ({
            let r = loc_scan(events@, locale@, i as int);
            &&& match res.0 {
                Some(s) => r.0 == Some(s@),
                None => r.0 is None,
            }
            &&& res.1 as int == r.1
            &&& i <= res.1 <= events@.len()
        }),
{
    let n = events.len();
    let mut k: usize = i;
    while k < n
        invariant
            i <= k <= n,
            n == events@.len(),
            loc_scan(events@, locale@, i as int) == loc_scan(events@, locale@, k as int),
        decreases n - k,
    {
        match &events[k] {
            XmlEvent::Close { name } => {
                if bytes_eq(name.as_slice(), "Tag".as_bytes()) {
                    return (None, k + 1);
                } else {
                    k += 1;
                }
            },
            XmlEvent::Open { name, .. } => {
                if bytes_eq(name.as_slice(), locale.as_bytes()) {
                    if k + 1 < n {
                        match &events[k + 1] {
                            XmlEvent::Text { content } => {
                                return (Some(content.clone()), k + 2);
                            },
                            _ => {
                                k += 2;
                            },
                        }
                    } else {
                        return (None, n);
                    }
                } else {
                    k += 1;
                }
            },
            _ => {
                k += 1;
            },
        }
    }
    (None, n)
}

/// One child tag's whole effect, executably: takes the record, returns the
/// updated record and the position to resume at.
fn handle_tag(
    events: &Vec<XmlEvent>,
    i: usize,
    locale: &str,
    cur: Card,
    attrs: &Vec<XmlAttr>,
) -> (res: (Card, usize))
    requires
        i < events@.len(),
    ensures
        ({
            let s = tag_step(events@, locale@, i as int, cur@, attrs@);
            &&& res.0@ == s.0
            &&& res.1 as int == s.1
            &&& i < res.1 <= events@.len()
        }),
{
    let n = events.len();
    proof {
        lemma_loc_scan_bounds(events@, locale@, i as int + 1);
    }
    match find_first_attr(attrs, "name".as_bytes()) {
        None => (cur, i + 1),
        Some(idx) => {
            let tn = lossy_string(attrs[idx].value.as_slice());
            if str_eq(tn.as_str(), "CARDNAME") {
                let (txt, j) = parse_localization(events, i + 1, locale);
                let mut c = cur;
                match txt {
                    Some(t) => {
                        c.name = t;
                    },
                    None => {},
                }
                (c, j)
            } else if str_eq(tn.as_str(), "CARDTEXT") {
                let (txt, j) = parse_localization(events, i + 1, locale);
                let mut c = cur;
                match txt {
                    Some(t) => {
                        c.hand_text = Some(t);
                    },
                    None => {},
                }
                (c, j)
            } else if str_eq(tn.as_str(), "FLAVORTEXT") {
                let (txt, j) = parse_localization(events, i + 1, locale);
                let mut c = cur;
                match txt {
                    Some(t) => {
                        c.flavor_text = Some(t);
                    },
                    None => {},
                }
                (c, j)
            } else {
                let mut c = cur;
                let tn2 = match find_last_attr(attrs, "name".as_bytes()) {
                    Some(ix) => lossy_string(attrs[ix].value.as_slice()),
                    None => String::new(),
                };
                let tv = match find_last_attr(attrs, "value".as_bytes()) {
                    Some(ix) => lossy_string(attrs[ix].value.as_slice()),
                    None => String::new(),
                };
                if str_eq(tn2.as_str(), "COST") {
                    c.cost = numeric_u32_or_zero(tv.as_str());
                } else if str_eq(tn2.as_str(), "ATK") {
                    c.attack = numeric_u32_or_zero(tv.as_str());
                } else if str_eq(tn2.as_str(), "HEALTH") {
                    c.health = numeric_u32_or_zero(tv.as_str());
                }
                (c, i + 1)
            }
        },
    }
}

/// Run the entity state machine over a finished event sequence.
pub fn parse_events(events: &Vec<XmlEvent>, locale: &str) -> (r: CardCollection)
    ensures
        r@ == spec_parse(events@, locale@),
{
    let n = events.len();
    let mut acc: Vec<Card> = Vec::new();
    let mut cur: Option<Card> = None;
    let mut i: usize = 0;
    proof {
        assert(card_views(acc@) =~= Seq::<CardV>::empty());
        assert(Seq::<CardV>::empty() + parse_at(events@, locale@, 0, None) =~= parse_at(
            events@,
            locale@,
            0,
            None,
        ));
    }
    while i < n
        invariant
            i <= n,
            n == events@.len(),
            spec_parse(events@, locale@) == card_views(acc@) + parse_at(
                events@,
                locale@,
                i as int,
                st_view(cur),
            ),
        decreases n - i,
    {
        let ghost old_acc = acc@;
        match &events[i] {
            XmlEvent::Open { name, attrs } => {
                if bytes_eq(name.as_slice(), "Entity".as_bytes()) {
                    let c = make_entity_card(attrs);
                    cur = Some(c);
                    i += 1;
                } else if cur.is_some() && bytes_eq(name.as_slice(), "Tag".as_bytes()) {
                    let cc = match cur {
                        Some(c) => c,
                        None => {
                            proof {
                                assert(false);
                            }
                            unreached()
                        },
                    };
                    let (c2, j) = handle_tag(events, i, locale, cc, attrs);
                    cur = Some(c2);
                    i = j;
                } else {
                    i += 1;
                }
            },
            XmlEvent::SelfClosed { name, attrs } => {
                if cur.is_some() && bytes_eq(name.as_slice(), "Tag".as_bytes()) {
                    let cc = match cur {
                        Some(c) => c,
                        None => {
                            proof {
                                assert(false);
                            }
                            unreached()
                        },
                    };
                    let (c2, j) = handle_tag(events, i, locale, cc, attrs);
                    cur = Some(c2);
                    i = j;
                } else {
                    i += 1;
                }
            },
            XmlEvent::Close { name } => {
                if cur.is_some() && bytes_eq(name.as_slice(), "Entity".as_bytes()) {
                    let cc = match cur {
                        Some(c) => c,
                        None => {
                            proof {
                                assert(false);
                            }
                            unreached()
                        },
                    };
                    proof {
                        let rest = parse_at(events@, locale@, i as int + 1, None);
                        assert((card_views(old_acc) + seq![cc@]) + rest =~= card_views(old_acc) + (
                        seq![cc@] + rest));
                    }
                    acc.push(cc);
                    proof {
                        assert(card_views(acc@) =~= card_views(old_acc) + seq![cc@]);
                    }
                    cur = None;
                    i += 1;
                } else {
                    i += 1;
                }
            },
            _ => {
                i += 1;
            },
        }
    }
    proof {
        assert(card_views(acc@) + Seq::<CardV>::empty() =~= card_views(acc@));
    }
    CardCollection { cards: acc }
}

/// Parse a whole source document: tokenize the bytes, then run the entity
/// state machine, resolving localized text for the one requested locale.
/// A structurally broken token stream ends the scan where it breaks; an
/// entity left open there is dropped.
pub fn parse_carddefs_xml(xml: Vec<u8>, locale: &str) -> (r: CardCollection)
    ensures
        r@ == spec_parse(events_of(xml@), locale@),
{
    let evs = read_all_events(xml);
    parse_events(&evs, locale)
}

} // verus!
