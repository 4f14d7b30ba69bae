//! A verified pipeline that turns an XML catalog of card entities into a
//! compact compressed binary artifact and reloads it without re-parsing XML.
//!
//! The pipeline has three verified stages:
//! - `xml_parser` extracts one flat [`card::Card`] per entity from a stream
//!   of XML events, resolving localized text for a single requested locale;
//! - `codec` serializes a [`card::CardCollection`] to a canonical byte
//!   encoding and back, with a proved lossless round trip;
//! - `archive` wraps the codec in a general-purpose streaming compressor to
//!   produce and consume the on-disk artifact bytes.
//!
//! File input and output stay with the caller: every function here works on
//! in-memory bytes and values.

pub mod archive;
pub mod card;
pub mod codec;
pub mod xml_parser;
