//! Tags: the `imag.tags` convention on entry headers.
//!
//! A tag is a lower-case word (digits, `-` and `_` allowed); the tags of
//! an entry live under `imag.tags` as an array of text values, without
//! duplicates. These operations read and rewrite that array on a header
//! value, an entry, or a held handle.

use vstd::prelude::*;

use crate::chars::{is_lower, is_digit};
use crate::value::{Value, ValueModel, read_path_model, set_path_model, split_from, path_ok};
use crate::entry::Entry;
use crate::store::FileLockEntry;

verus! {

broadcast use vstd::std_specs::vec::axiom_vec_decreases_to_view, vstd::seq::axiom_seq_index_decreases, vstd::seq::axiom_seq_subrange_decreases;

/// What can go wrong with a tag operation.
#[derive(Debug, Clone, Copy, PartialEq, Eq, Structural)]
pub enum TagErrorKind {
    /// `imag.tags` is not an array of text values.
    TagTypeError,
    /// A given word is not a valid tag.
    NotATag,
    /// The header could not be read.
    HeaderReadError,
    /// The header could not be written.
    HeaderWriteError,
}

/// An error of a tag operation.
#[derive(Debug)]
pub struct TagError {
    pub kind: TagErrorKind,
}

/// A valid tag: non-empty, lower-case letters, digits, `-` and `_`.
pub open spec fn is_tag_chars(s: Seq<char>) -> bool {
    s.len() > 0 && forall|i: int|
        0 <= i < s.len() ==> is_lower(#[trigger] s[i]) || is_digit(s[i]) || s[i] == '-' || s[i]
            == '_'
}

/// Decides tag validity.
pub fn is_tag(s: &str) -> (r: bool)
    ensures
        r == is_tag_chars(s@),
{
    let n = s.unicode_len();
    if n == 0 {
        return false;
    }
    let mut i: usize = 0;
    while i < n
        invariant
            n == s@.len(),
            i <= n,
            forall|j: int|
                0 <= j < i ==> is_lower(#[trigger] s@[j]) || is_digit(s@[j]) || s@[j] == '-'
                    || s@[j] == '_',
        decreases n - i,
    {
        let c = s.get_char(i);
        let u = c as u32;
        if !((97 <= u && u <= 122) || (48 <= u && u <= 57) || c == '-' || c == '_') {
            return false;
        }
        i = i + 1;
    }
    true
}

/// The dotted path of the tags array.
pub open spec fn tags_path() -> Seq<Seq<char>> {
    split_from("imag.tags"@, 0)
}

/// The literal path `imag.tags` splits into its two keys.
pub proof fn lemma_tags_path()
    ensures
        tags_path() == seq![seq!['i', 'm', 'a', 'g'], seq!['t', 'a', 'g', 's']],
        path_ok("imag.tags"@),
{
    reveal_strlit("imag.tags");
    let s = "imag.tags"@;
    assert(s.len() == 9);
    assert(split_from(s, 9) =~= seq![Seq::<char>::empty()]);
    assert(split_from(s, 8) =~= seq![seq!['s']]) by {
        assert(split_from(s, 9)[0] =~= Seq::<char>::empty());
        assert(seq![s[8]] + split_from(s, 9)[0] =~= seq!['s']);
        assert(split_from(s, 9).skip(1) =~= Seq::<Seq<char>>::empty());
    }
    assert(split_from(s, 7) =~= seq![seq!['g', 's']]) by {
        assert(seq![s[7]] + split_from(s, 8)[0] =~= seq!['g', 's']);
        assert(split_from(s, 8).skip(1) =~= Seq::<Seq<char>>::empty());
    }
    assert(split_from(s, 6) =~= seq![seq!['a', 'g', 's']]) by {
        assert(seq![s[6]] + split_from(s, 7)[0] =~= seq!['a', 'g', 's']);
        assert(split_from(s, 7).skip(1) =~= Seq::<Seq<char>>::empty());
    }
    assert(split_from(s, 5) =~= seq![seq!['t', 'a', 'g', 's']]) by {
        assert(seq![s[5]] + split_from(s, 6)[0] =~= seq!['t', 'a', 'g', 's']);
        assert(split_from(s, 6).skip(1) =~= Seq::<Seq<char>>::empty());
    }
    assert(split_from(s, 4) =~= seq![Seq::<char>::empty(), seq!['t', 'a', 'g', 's']]) by {
        assert(s[4] == '.');
    }
    assert(split_from(s, 3) =~= seq![seq!['g'], seq!['t', 'a', 'g', 's']]) by {
        assert(seq![s[3]] + split_from(s, 4)[0] =~= seq!['g']);
        assert(split_from(s, 4).skip(1) =~= seq![seq!['t', 'a', 'g', 's']]);
    }
    assert(split_from(s, 2) =~= seq![seq!['a', 'g'], seq!['t', 'a', 'g', 's']]) by {
        assert(seq![s[2]] + split_from(s, 3)[0] =~= seq!['a', 'g']);
        assert(split_from(s, 3).skip(1) =~= seq![seq!['t', 'a', 'g', 's']]);
    }
    assert(split_from(s, 1) =~= seq![seq!['m', 'a', 'g'], seq!['t', 'a', 'g', 's']]) by {
        assert(seq![s[1]] + split_from(s, 2)[0] =~= seq!['m', 'a', 'g']);
        assert(split_from(s, 2).skip(1) =~= seq![seq!['t', 'a', 'g', 's']]);
    }
    assert(split_from(s, 0) =~= seq![seq!['i', 'm', 'a', 'g'], seq!['t', 'a', 'g', 's']]) by {
        assert(seq![s[0]] + split_from(s, 1)[0] =~= seq!['i', 'm', 'a', 'g']);
        assert(split_from(s, 1).skip(1) =~= seq![seq!['t', 'a', 'g', 's']]);
    }
}

/// The tag list a header denotes: absent means none; anything but an
/// array of valid tag texts is an error.
pub open spec fn spec_get_tags(m: ValueModel) -> Result<Seq<Seq<char>>, TagErrorKind> {
    match read_path_model(m, tags_path(), 0) {
        None => Ok(Seq::empty()),
        Some(ValueModel::Array(es)) => {
            if !(forall|i: int| 0 <= i < es.len() ==> (#[trigger] es[i]) is Text) {
                Err(TagErrorKind::TagTypeError)
            } else if !(forall|i: int|
                0 <= i < es.len() ==> is_tag_chars((#[trigger] es[i])->Text_0)) {
                Err(TagErrorKind::NotATag)
            } else {
                Ok(crate::configuration::text_items(es))
            }
        },
        Some(_) => Err(TagErrorKind::TagTypeError),
    }
}

/// The first occurrences of a word list, in order.
pub open spec fn dedup_first(ts: Seq<Seq<char>>) -> Seq<Seq<char>>
    decreases ts.len(),
{
    if ts.len() == 0 {
        Seq::empty()
    } else {
        let front = dedup_first(ts.drop_last());
        if ts.drop_last().contains(ts.last()) {
            front
        } else {
            front.push(ts.last())
        }
    }
}

/// The array value holding the given tags.
pub open spec fn tags_array(ts: Seq<Seq<char>>) -> ValueModel {
    ValueModel::Array(Seq::new(ts.len(), |i: int| ValueModel::Text(ts[i])))
}

/// The header after setting a tag list: every word must be a valid tag;
/// duplicates are dropped (first occurrence kept); the array is written
/// at `imag.tags`.
pub open spec fn spec_set_tags(m: ValueModel, ts: Seq<Seq<char>>) -> Result<
    ValueModel,
    TagErrorKind,
> {
    if !(forall|i: int| 0 <= i < ts.len() ==> is_tag_chars(#[trigger] ts[i])) {
        Err(TagErrorKind::NotATag)
    } else {
        match set_path_model(m, tags_path(), 0, tags_array(dedup_first(ts))) {
            Some((m2, _)) => Ok(m2),
            None => Err(TagErrorKind::HeaderWriteError),
        }
    }
}

/// The models of a word vector.
pub open spec fn words_model(v: Seq<String>) -> Seq<Seq<char>> {
    v.map_values(|s: String| s@)
}

/// Whether `w` occurs among the first `upto` words.
fn word_in_prefix(ts: &Vec<String>, upto: usize, w: &str) -> (r: bool)
    requires
        upto <= ts@.len(),
    ensures
        r == words_model(ts@).take(upto as int).contains(w@),
{
    let mut j: usize = 0;
    while j < upto
        invariant
            j <= upto <= ts@.len(),
            forall|k: int| 0 <= k < j ==> words_model(ts@)[k] != w@,
        decreases upto - j,
    {
        if crate::chars::str_eq(ts[j].as_str(), w) {
            proof {
                assert(words_model(ts@).take(upto as int)[j as int] == w@);
                assert(words_model(ts@).take(upto as int).contains(w@));
            }
            return true;
        }
        j = j + 1;
    }
    proof {
        if words_model(ts@).take(upto as int).contains(w@) {
            let k = choose|k: int|
                0 <= k < words_model(ts@).take(upto as int).len() && #[trigger] words_model(
                    ts@,
                ).take(upto as int)[k] == w@;
            assert(words_model(ts@)[k] == w@);
            assert(false);
        }
    }
    false
}

/// Keeps the first occurrence of every word.
fn unique_words(ts: &Vec<String>) -> (r: Vec<String>)
    ensures
        words_model(r@) == dedup_first(words_model(ts@)),
{
    let mut r: Vec<String> = Vec::new();
    let mut i: usize = 0;
    while i < ts.len()
        invariant
            i <= ts@.len(),
            words_model(r@) == dedup_first(words_model(ts@).take(i as int)),
        decreases ts@.len() - i,
    {
        let seen = word_in_prefix(ts, i, ts[i].as_str());
        proof {
            let w = words_model(ts@);
            assert(w.take(i as int + 1).drop_last() =~= w.take(i as int));
            assert(w.take(i as int + 1).last() == w[i as int]);
        }
        if !seen {
            r.push(ts[i].clone());
            proof {
                assert(words_model(r@) =~= dedup_first(
                    words_model(ts@).take(i as int + 1),
                ));
            }
        } else {
            proof {
                assert(words_model(r@) =~= dedup_first(
                    words_model(ts@).take(i as int + 1),
                ));
            }
        }
        i = i + 1;
    }
    proof {
        assert(words_model(ts@).take(ts@.len() as int) =~= words_model(ts@));
    }
    r
}

/// Reads the tags out of a header value.
pub fn header_get_tags(header: &Value) -> (r: Result<Vec<String>, TagError>)
    ensures
        match (r, spec_get_tags(header@)) {
            (Ok(v), Ok(ts)) => words_model(v@) == ts,
            (Err(e), Err(k)) => e.kind == k,
            _ => false,
        },
{
    proof {
        lemma_tags_path();
    }
    match header.read("imag.tags") {
        Err(_) => {
            proof {
                assert(false);
            }
            Err(TagError { kind: TagErrorKind::HeaderReadError })
        },
        Ok(None) => Ok(Vec::new()),
        Ok(Some(v)) => match v {
            Value::Array(es) => {
                proof {
                    crate::value::lemma_seq_models(es@);
                }
                let mut out: Vec<String> = Vec::new();
                let ghost esm = crate::value::seq_models(es@);
                let mut i: usize = 0;
                while i < es.len()
                    invariant
                        i <= es@.len(),
                        esm == crate::value::seq_models(es@),
                        esm.len() == es@.len(),
                        read_path_model(header@, tags_path(), 0) == Some(ValueModel::Array(esm)),
                        forall|j: int|
                            0 <= j < es@.len() ==> esm[j] == crate::value::value_model(es@[j]),
                        out@.len() == i,
                        forall|j: int| 0 <= j < i ==> (#[trigger] esm[j]) is Text,
                        forall|j: int| 0 <= j < i ==> is_tag_chars((#[trigger] esm[j])->Text_0),
                        forall|j: int|
                            0 <= j < i ==> out@[j]@ == crate::configuration::text_items(esm)[j],
                    decreases es@.len() - i,
                {
                    match &es[i] {
                        Value::Text(s) => {
                            if !is_tag(s.as_str()) {
                                proof {
                                    assert(esm[i as int] is Text && !is_tag_chars(
                                        esm[i as int]->Text_0,
                                    ));
                                    assert(spec_tags_err(esm) matches Some(
                                        k,
                                    ) ==> (spec_get_tags(header@) matches Err(k2) && k2 == k));
                                }
                                return check_rest_texts(es, i + 1);
                            }
                            out.push(s.clone());
                        },
                        _ => {
                            proof {
                                assert(!(esm[i as int] is Text));
                            }
                            return Err(TagError { kind: TagErrorKind::TagTypeError });
                        },
                    }
                    i = i + 1;
                }
                proof {
                    assert(words_model(out@) =~= crate::configuration::text_items(esm));
                }
                Ok(out)
            },
            _ => Err(TagError { kind: TagErrorKind::TagTypeError }),
        },
    }
}

/// After a non-tag text was found: the array is still type-checked, so
/// a later non-text element reports `TagTypeError`, as type errors take
/// precedence.
fn check_rest_texts(es: &Vec<Value>, from: usize) -> (r: Result<Vec<String>, TagError>)
    requires
        from <= es@.len(),
        exists|j: int|
            0 <= j < from && (#[trigger] crate::value::seq_models(es@)[j]) is Text && !is_tag_chars(
                crate::value::seq_models(es@)[j]->Text_0,
            ),
        forall|j: int| 0 <= j < from ==> (#[trigger] crate::value::seq_models(es@)[j]) is Text,
    ensures
        r matches Err(e) && (match spec_tags_err(crate::value::seq_models(es@)) {
            Some(k) => e.kind == k,
            None => false,
        }),
{
    proof {
        crate::value::lemma_seq_models(es@);
    }
    let ghost esm = crate::value::seq_models(es@);
    let mut i = from;
    while i < es.len()
        invariant
            from <= i <= es@.len(),
            esm == crate::value::seq_models(es@),
            esm.len() == es@.len(),
            forall|j: int| 0 <= j < es@.len() ==> esm[j] == crate::value::value_model(es@[j]),
            exists|j: int|
                0 <= j < from && (#[trigger] esm[j]) is Text && !is_tag_chars(esm[j]->Text_0),
            forall|j: int| 0 <= j < i ==> (#[trigger] esm[j]) is Text,
        decreases es@.len() - i,
    {
        match &es[i] {
            Value::Text(_) => {},
            _ => {
                proof {
                    assert(!(esm[i as int] is Text));
                }
                return Err(TagError { kind: TagErrorKind::TagTypeError });
            },
        }
        i = i + 1;
    }
    Err(TagError { kind: TagErrorKind::NotATag })
}

/// The error an ill-formed tags array denotes, if any.
pub open spec fn spec_tags_err(es: Seq<ValueModel>) -> Option<TagErrorKind> {
    if !(forall|i: int| 0 <= i < es.len() ==> (#[trigger] es[i]) is Text) {
        Some(TagErrorKind::TagTypeError)
    } else if !(forall|i: int| 0 <= i < es.len() ==> is_tag_chars((#[trigger] es[i])->Text_0)) {
        Some(TagErrorKind::NotATag)
    } else {
        None
    }
}

/// Writes a tag list into a header value.
pub fn header_set_tags(header: &mut Value, ts: &Vec<String>) -> (r: Result<(), TagError>)
    ensures
        match (r, spec_set_tags(old(header)@, words_model(ts@))) {
            (Ok(_), Ok(m2)) => final(header)@ == m2,
            (Err(e), Err(k)) => e.kind == k && final(header)@ == old(header)@,
            _ => false,
        },
{
    proof {
        lemma_tags_path();
    }
    let mut i: usize = 0;
    while i < ts.len()
        invariant
            i <= ts@.len(),
            forall|j: int| 0 <= j < i ==> is_tag_chars(#[trigger] words_model(ts@)[j]),
        decreases ts@.len() - i,
    {
        if !is_tag(ts[i].as_str()) {
            proof {
                assert(!is_tag_chars(words_model(ts@)[i as int]));
            }
            return Err(TagError { kind: TagErrorKind::NotATag });
        }
        i = i + 1;
    }
    let uts = unique_words(ts);
    let mut arr: Vec<Value> = Vec::new();
    let mut i: usize = 0;
    while i < uts.len()
        invariant
            i <= uts@.len(),
            arr@.len() == i,
            forall|j: int|
                0 <= j < i ==> crate::value::value_model(arr@[j]) == ValueModel::Text(
                    words_model(uts@)[j],
                ),
        decreases uts@.len() - i,
    {
        arr.push(Value::Text(uts[i].clone()));
        i = i + 1;
    }
    proof {
        crate::value::lemma_seq_models(arr@);
        assert(crate::value::seq_models(arr@) =~= Seq::new(
            words_model(uts@).len(),
            |i: int| ValueModel::Text(words_model(uts@)[i]),
        ));
        assert(crate::value::value_model(Value::Array(arr)) =~~= tags_array(
            dedup_first(words_model(ts@)),
        ));
    }
    match header.set("imag.tags", Value::Array(arr)) {
        Ok(_) => Ok(()),
        Err(_) => Err(TagError { kind: TagErrorKind::HeaderWriteError }),
    }
}

impl Entry {
    /// The tags of this entry.
    pub fn get_tags(&self) -> (r: Result<Vec<String>, TagError>)
        ensures
            match (r, spec_get_tags(self@.header)) {
                (Ok(v), Ok(ts)) => words_model(v@) == ts,
                (Err(e), Err(k)) => e.kind == k,
                _ => false,
            },
    {
        header_get_tags(self.get_header())
    }

    /// Replaces the tags of this entry.
    pub fn set_tags(&mut self, ts: &Vec<String>) -> (r: Result<(), TagError>)
        ensures
            final(self)@.location == old(self)@.location,
            final(self)@.content == old(self)@.content,
            match (r, spec_set_tags(old(self)@.header, words_model(ts@))) {
                (Ok(_), Ok(m2)) => final(self)@.header == m2,
                (Err(e), Err(k)) => e.kind == k && final(self)@.header == old(self)@.header,
                _ => false,
            },
    {
        let mut header = crate::value::duplicate(self.get_header());
        let r = header_set_tags(&mut header, ts);
        match r {
            Ok(_) => {
                self.set_header(header);
                Ok(())
            },
            Err(e) => Err(e),
        }
    }

    /// Adds one tag, keeping the list free of duplicates.
    pub fn add_tag(&mut self, t: &str) -> (r: Result<(), TagError>)
        ensures
            final(self)@.location == old(self)@.location,
            final(self)@.content == old(self)@.content,
            match (r, spec_add_tag(old(self)@.header, t@)) {
                (Ok(_), Ok(m2)) => final(self)@.header == m2,
                (Err(e), Err(k)) => e.kind == k && final(self)@.header == old(self)@.header,
                _ => false,
            },
    {
        if !is_tag(t) {
            return Err(TagError { kind: TagErrorKind::NotATag });
        }
        match self.get_tags() {
            Err(e) => Err(e),
            Ok(mut tags) => {
                tags.push(String::from_str(t));
                proof {
                    assert(words_model(tags@) =~= spec_get_tags(self@.header)->Ok_0.push(t@));
                }
                self.set_tags(&tags)
            },
        }
    }

    /// Removes one tag wherever it occurs.
    pub fn remove_tag(&mut self, t: &str) -> (r: Result<(), TagError>)
        ensures
            final(self)@.location == old(self)@.location,
            final(self)@.content == old(self)@.content,
            match (r, spec_remove_tag(old(self)@.header, t@)) {
                (Ok(_), Ok(m2)) => final(self)@.header == m2,
                (Err(e), Err(k)) => e.kind == k && final(self)@.header == old(self)@.header,
                _ => false,
            },
    {
        if !is_tag(t) {
            return Err(TagError { kind: TagErrorKind::NotATag });
        }
        match self.get_tags() {
            Err(e) => Err(e),
            Ok(tags) => {
                let mut kept: Vec<String> = Vec::new();
                let mut i: usize = 0;
                while i < tags.len()
                    invariant
                        i <= tags@.len(),
                        words_model(kept@) == words_model(tags@).take(i as int).filter(
                            |x: Seq<char>| x != t@,
                        ),
                    decreases tags@.len() - i,
                {
                    if !crate::chars::str_eq(tags[i].as_str(), t) {
                        kept.push(tags[i].clone());
                        proof {
                            Seq::lemma_filter_push(
                                words_model(tags@).take(i as int),
                                words_model(tags@)[i as int],
                                |x: Seq<char>| x != t@,
                            );
                            assert(words_model(tags@).take(i as int).push(
                                words_model(tags@)[i as int],
                            ) =~= words_model(tags@).take(i as int + 1));
                            assert(words_model(kept@) =~= words_model(tags@).take(
                                i as int + 1,
                            ).filter(|x: Seq<char>| x != t@));
                        }
                    } else {
                        proof {
                            Seq::lemma_filter_push(
                                words_model(tags@).take(i as int),
                                words_model(tags@)[i as int],
                                |x: Seq<char>| x != t@,
                            );
                            assert(words_model(tags@).take(i as int).push(
                                words_model(tags@)[i as int],
                            ) =~= words_model(tags@).take(i as int + 1));
                            assert(words_model(kept@) =~= words_model(tags@).take(
                                i as int + 1,
                            ).filter(|x: Seq<char>| x != t@));
                        }
                    }
                    i = i + 1;
                }
                proof {
                    assert(words_model(tags@).take(tags@.len() as int) =~= words_model(tags@));
                }
                self.set_tags(&kept)
            },
        }
    }

    /// Whether the entry carries the tag.
    pub fn has_tag(&self, t: &str) -> (r: Result<bool, TagError>)
        ensures
            match (r, spec_get_tags(self@.header)) {
                (Ok(b), Ok(ts)) => b == ts.contains(t@),
                (Err(e), Err(k)) => e.kind == k,
                _ => false,
            },
    {
        match self.get_tags() {
            Err(e) => Err(e),
            Ok(tags) => {
                let n = tags.len();
                let b = word_in_prefix(&tags, n, t);
                proof {
                    assert(words_model(tags@).take(n as int) =~= words_model(tags@));
                }
                Ok(b)
            },
        }
    }

    /// Whether the entry carries every one of the tags; an empty list is
    /// trivially carried.
    pub fn has_tags(&self, ts: &Vec<String>) -> (r: Result<bool, TagError>)
        ensures
            ts@.len() == 0 ==> (r matches Ok(b) && b),
            ts@.len() > 0 ==> match (r, spec_get_tags(self@.header)) {
                (Ok(b), Ok(have)) => b == (forall|i: int|
                    0 <= i < ts@.len() ==> have.contains(#[trigger] words_model(ts@)[i])),
                (Err(e), Err(k)) => e.kind == k,
                _ => false,
            },
    {
        let mut i: usize = 0;
        while i < ts.len()
            invariant
                i <= ts@.len(),
                forall|j: int|
                    0 <= j < i ==> (spec_get_tags(self@.header) matches Ok(have) && have.contains(
                        #[trigger] words_model(ts@)[j],
                    )),
            decreases ts@.len() - i,
        {
            match self.has_tag(ts[i].as_str()) {
                Err(e) => {
                    return Err(e);
                },
                Ok(b) => {
                    if !b {
                        proof {
                            let w = words_model(ts@)[i as int];
                            assert(!spec_get_tags(self@.header)->Ok_0.contains(w));
                        }
                        return Ok(false);
                    }
                },
            }
            i = i + 1;
        }
        proof {
            if ts@.len() > 0 {
                let w0 = words_model(ts@)[0];
                assert(spec_get_tags(self@.header) matches Ok(have) && have.contains(w0));
            }
        }
        Ok(true)
    }
}

/// Adding a tag: the word must be a valid tag; it joins the list unless
/// already present.
pub open spec fn spec_add_tag(m: ValueModel, t: Seq<char>) -> Result<ValueModel, TagErrorKind> {
    if !is_tag_chars(t) {
        Err(TagErrorKind::NotATag)
    } else {
        match spec_get_tags(m) {
            Err(k) => Err(k),
            Ok(ts) => spec_set_tags(m, ts.push(t)),
        }
    }
}

/// Removing a tag: the word must be a valid tag; every occurrence
/// leaves the list.
pub open spec fn spec_remove_tag(m: ValueModel, t: Seq<char>) -> Result<ValueModel, TagErrorKind> {
    if !is_tag_chars(t) {
        Err(TagErrorKind::NotATag)
    } else {
        match spec_get_tags(m) {
            Err(k) => Err(k),
            Ok(ts) => spec_set_tags(m, ts.filter(|x: Seq<char>| x != t)),
        }
    }
}

impl FileLockEntry {
    /// The tags of the held entry.
    pub fn get_tags(&self) -> (r: Result<Vec<String>, TagError>)
        ensures
            match (r, spec_get_tags(self@.header)) {
                (Ok(v), Ok(ts)) => words_model(v@) == ts,
                (Err(e), Err(k)) => e.kind == k,
                _ => false,
            },
    {
        header_get_tags(self.get_header())
    }

    /// Replaces the tags of the held entry.
    pub fn set_tags(&mut self, ts: &Vec<String>) -> (r: Result<(), TagError>)
        ensures
            final(self)@.location == old(self)@.location,
            final(self)@.content == old(self)@.content,
            match (r, spec_set_tags(old(self)@.header, words_model(ts@))) {
                (Ok(_), Ok(m2)) => final(self)@.header == m2,
                (Err(e), Err(k)) => e.kind == k && final(self)@.header == old(self)@.header,
                _ => false,
            },
    {
        let mut header = crate::value::duplicate(self.get_header());
        let r = header_set_tags(&mut header, ts);
        match r {
            Ok(_) => {
                self.set_header(header);
                Ok(())
            },
            Err(e) => Err(e),
        }
    }
}

} // verus!
