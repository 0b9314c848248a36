//! Entries: the in-memory records of the store.
//!
//! An entry is a triple of location, header value and free-form content.
//! Its text form is produced by `to_str` and read back by `from_str`;
//! `verify` checks the header invariant (`imag.version` is a semantic
//! version string).

use vstd::prelude::*;

use crate::error::{StoreError, StoreErrorKind};
use crate::storeid::{StoreId, IdView};
use crate::value::{Value, ValueModel, header_verifies, default_header_model};
use crate::text::{entry_text_of, parse_entry_text, ParseOutcome};

verus! {

/// An entry of the store: its identifier, header and content.
#[derive(Debug)]
pub struct Entry {
    location: StoreId,
    header: Value,
    content: String,
}

/// The model of an entry.
#[verifier::ext_equal]
pub struct EntryView {
    pub location: IdView,
    pub header: ValueModel,
    pub content: Seq<char>,
}

impl View for Entry {
    type V = EntryView;

    closed spec fn view(&self) -> EntryView {
        EntryView { location: self.location@, header: self.header@, content: self.content@ }
    }
}

impl Entry {
    /// A fresh entry at `loc`: the default header and empty content.
    pub fn new(loc: StoreId) -> (r: Entry)
        ensures
            r@.location == loc@,
            r@.header == default_header_model(),
            r@.content == Seq::<char>::empty(),
    {
        Entry { location: loc, header: crate::value::default_header(), content: String::new() }
    }

    /// The default header for new entries.
    pub fn default_header() -> (r: Value)
        ensures
            r@ == default_header_model(),
    {
        crate::value::default_header()
    }

    /// Reads an entry from its full text form. The location is taken
    /// from `loc`; malformed fences are a `MalformedEntry`, a bad
    /// header document a `HeaderError`.
    pub fn from_str(loc: StoreId, s: &str) -> (r: Result<Entry, StoreError>)
        ensures
            match parse_entry_text(s@) {
                ParseOutcome::Parsed(ps, c) => r matches Ok(e) && e@.location == loc@ && e@.header
                    == ValueModel::Table(ps) && e@.content == c,
                ParseOutcome::BadFrame => r matches Err(e) && e.chain() == seq![
                    StoreErrorKind::MalformedEntry,
                ],
                ParseOutcome::BadHeader => r matches Err(e) && e.chain() == seq![
                    StoreErrorKind::HeaderError,
                ],
            },
    {
        match crate::text::parse_entry(s) {
            Ok((header, content)) => Ok(Entry { location: loc, header, content }),
            Err(e) => Err(e),
        }
    }

    /// The full text form of this entry.
    pub fn to_str(&self) -> (r: String)
        ensures
            r@ == entry_text_of(self@.header, self@.content),
    {
        crate::text::entry_to_text(&self.header, self.content.as_str())
    }

    /// The location of the entry.
    pub fn get_location(&self) -> (r: &StoreId)
        ensures
            r@ == self@.location,
    {
        &self.location
    }

    /// The header of the entry.
    pub fn get_header(&self) -> (r: &Value)
        ensures
            r@ == self@.header,
    {
        &self.header
    }

    /// Replaces the header.
    pub fn set_header(&mut self, header: Value)
        ensures
            final(self)@.header == header@,
            final(self)@.location == old(self)@.location,
            final(self)@.content == old(self)@.content,
    {
        self.header = header;
    }

    /// Reads a header value at a dotted path.
    pub fn read_header<'a>(&'a self, path: &str) -> (r: Result<Option<&'a Value>, StoreError>)
        ensures
            crate::value::path_ok(path@) ==> match r {
                Ok(Some(x)) => crate::value::read_path_model(
                    self@.header,
                    crate::value::split_from(path@, 0),
                    0,
                ) == Some(x@),
                Ok(None) => crate::value::read_path_model(
                    self@.header,
                    crate::value::split_from(path@, 0),
                    0,
                ) is None,
                Err(_) => false,
            },
            !crate::value::path_ok(path@) ==> (r matches Err(e) && e.chain() == seq![
                StoreErrorKind::HeaderError,
            ]),
    {
        self.header.read(path)
    }

    /// Writes a header value at a dotted path, returning the replaced
    /// value if one was there.
    pub fn set_header_at(&mut self, path: &str, nv: Value) -> (r: Result<
        Option<Value>,
        StoreError,
    >)
        ensures
            final(self)@.location == old(self)@.location,
            final(self)@.content == old(self)@.content,
            crate::value::path_ok(path@) ==> match crate::value::set_path_model(
                old(self)@.header,
                crate::value::split_from(path@, 0),
                0,
                nv@,
            ) {
                Some((m2, oldv)) => final(self)@.header == m2 && (match (r, oldv) {
                    (Ok(Some(x)), Some(y)) => x@ == y,
                    (Ok(None), None) => true,
                    _ => false,
                }),
                None => final(self)@.header == old(self)@.header && (r matches Err(e) && e.chain()
                    == seq![StoreErrorKind::HeaderError]),
            },
            !crate::value::path_ok(path@) ==> final(self)@.header == old(self)@.header && (r
                matches Err(e) && e.chain() == seq![StoreErrorKind::HeaderError]),
    {
        self.header.set(path, nv)
    }

    /// The content of the entry.
    pub fn get_content(&self) -> (r: &String)
        ensures
            r@ == self@.content,
    {
        &self.content
    }

    /// Replaces the content.
    pub fn set_content(&mut self, content: String)
        ensures
            final(self)@.content == content@,
            final(self)@.location == old(self)@.location,
            final(self)@.header == old(self)@.header,
    {
        self.content = content;
    }

    /// Checks the header invariant; any failure is a
    /// `HeaderInconsistency`.
    pub fn verify(&self) -> (r: Result<(), StoreError>)
        ensures
            r is Ok <==> header_verifies(self@.header),
            r matches Err(e) ==> e.chain() == seq![StoreErrorKind::HeaderInconsistency],
    {
        crate::value::verify_header_consistency(&self.header)
    }

    /// A deep copy of this entry.
    pub fn duplicate(&self) -> (r: Entry)
        ensures
            r@ == self@,
    {
        Entry {
            location: self.location.duplicate(),
            header: crate::value::duplicate(&self.header),
            content: self.content.clone(),
        }
    }
}

/// The round-trip law: an entry whose header is a well-formed table —
/// bare keys, well-formed lexemes, no tables inside arrays, scalar
/// pairs before table pairs — serializes with `to_str` to a text that
/// `from_str` reads back as the same header and content. Together with
/// the contracts of `to_str` and `from_str`, parsing the serialized
/// form of such an entry yields a structurally equal entry.
pub proof fn lemma_entry_round_trip(e: EntryView)
    requires
        e.header is Table,
        crate::value::wf_value(e.header),
    ensures
        parse_entry_text(entry_text_of(e.header, e.content)) == ParseOutcome::Parsed(
            e.header->Table_0,
            e.content,
        ),
{
    crate::text::lemma_entry_round_trip(e.header->Table_0, e.content);
}

impl PartialEq for Entry {
    fn eq(&self, other: &Entry) -> (r: bool) {
        self.location.same_path(&other.location) && crate::value::value_eq(
            &self.header,
            &other.header,
        ) && crate::chars::str_eq(self.content.as_str(), other.content.as_str())
    }
}

impl vstd::std_specs::cmp::PartialEqSpecImpl for Entry {
    open spec fn obeys_eq_spec() -> bool {
        true
    }

    open spec fn eq_spec(&self, other: &Entry) -> bool {
        self@.location.path == other@.location.path && self@.header == other@.header
            && self@.content == other@.content
    }
}

} // verus!
