//! Mail messages over raw buffers, and the linker that connects them.
//!
//! A mail is a raw message buffer; its header fields are read through
//! the `mailparse` crate behind a trusted wrapper. The linker takes the
//! message identifiers and `In-Reply-To` references of a batch of mails
//! and computes which pairs should be linked.

use vstd::prelude::*;

use crate::file_abstraction::files_model;

verus! {

broadcast use vstd::std_specs::vec::axiom_vec_decreases_to_view, vstd::seq::axiom_seq_index_decreases, vstd::seq::axiom_seq_subrange_decreases;

/// What can go wrong with a mail operation.
#[derive(Debug, Clone, Copy, PartialEq, Eq, Structural)]
pub enum MailErrorKind {
    MailParsingError,
    RefCreationError,
    RefHandlingError,
    IOError,
    FetchByHashError,
    FetchError,
}

/// An error of a mail operation.
#[derive(Debug)]
pub struct MailError {
    pub kind: MailErrorKind,
}

/// The header fields `mailparse` reads out of a raw message, in order,
/// if the message parses; the result depends on the characters alone.
pub uninterp spec fn mail_headers_of(raw: Seq<char>) -> Option<Seq<(Seq<char>, Seq<char>)>>;

/// Relies on `mailparse::parse_mail`: a pure parser over the raw bytes,
/// whose headers are listed by `MailHeader::get_key` / `get_value`.
#[verifier::external_body]
fn parse_headers(raw: &str) -> (r: Result<Vec<(String, String)>, MailError>)
    ensures
        match r {
            Ok(v) => mail_headers_of(raw@) == Some(files_model(v@)),
            Err(e) => mail_headers_of(raw@) is None && e.kind == MailErrorKind::MailParsingError,
        },
{
    match mailparse::parse_mail(raw.as_bytes()) {
        Ok(m) => Ok(m.headers.iter().map(|h| (h.get_key(), h.get_value())).collect()),
        Err(_) => Err(MailError { kind: MailErrorKind::MailParsingError }),
    }
}

/// The first header field with the given name, if any.
pub open spec fn first_field(hs: Seq<(Seq<char>, Seq<char>)>, name: Seq<char>) -> Option<Seq<char>>
    decreases hs.len(),
{
    if hs.len() == 0 {
        None
    } else if hs[0].0 == name {
        Some(hs[0].1)
    } else {
        first_field(hs.skip(1), name)
    }
}

/// The value of a named field of a raw message: an error if the
/// message does not parse, else the first field with that name.
pub open spec fn spec_get_field(raw: Seq<char>, name: Seq<char>) -> Result<
    Option<Seq<char>>,
    MailErrorKind,
> {
    match mail_headers_of(raw) {
        None => Err(MailErrorKind::MailParsingError),
        Some(hs) => Ok(first_field(hs, name)),
    }
}

proof fn lemma_first_field_index(hs: Seq<(Seq<char>, Seq<char>)>, name: Seq<char>, i: int)
    requires
        0 <= i < hs.len(),
        forall|j: int| 0 <= j < i ==> hs[j].0 != name,
        hs[i].0 == name,
    ensures
        first_field(hs, name) == Some(hs[i].1),
    decreases hs.len(),
{
    if i > 0 {
        lemma_first_field_index(hs.skip(1), name, i - 1);
    }
}

proof fn lemma_first_field_none(hs: Seq<(Seq<char>, Seq<char>)>, name: Seq<char>)
    requires
        forall|j: int| 0 <= j < hs.len() ==> hs[j].0 != name,
    ensures
        first_field(hs, name) is None,
    decreases hs.len(),
{
    if hs.len() > 0 {
        lemma_first_field_none(hs.skip(1), name);
    }
}

/// A mail message held as its raw buffer.
#[derive(Debug)]
pub struct Mail {
    buffer: String,
}

impl View for Mail {
    type V = Seq<char>;

    closed spec fn view(&self) -> Seq<char> {
        self.buffer@
    }
}

impl Mail {
    /// A mail over an already-read raw message buffer.
    pub fn from_buffer(raw: String) -> (r: Mail)
        ensures
            r@ == raw@,
    {
        Mail { buffer: raw }
    }

    /// The first header field with the given name.
    pub fn get_field(&self, field: &str) -> (r: Result<Option<String>, MailError>)
        ensures
            match (r, spec_get_field(self@, field@)) {
                (Ok(Some(v)), Ok(Some(w))) => v@ == w,
                (Ok(None), Ok(None)) => true,
                (Err(e), Err(k)) => e.kind == k,
                _ => false,
            },
    {
        match parse_headers(self.buffer.as_str()) {
            Err(e) => Err(e),
            Ok(hs) => {
                let ghost hsm = files_model(hs@);
                let mut i: usize = 0;
                while i < hs.len()
                    invariant
                        i <= hs@.len(),
                        hsm == files_model(hs@),
                        mail_headers_of(self@) == Some(hsm),
                        hsm.len() == hs@.len(),
                        forall|j: int| 0 <= j < hs@.len() ==> hsm[j] == (hs@[j].0@, hs@[j].1@),
                        forall|j: int| 0 <= j < i ==> hsm[j].0 != field@,
                    decreases hs@.len() - i,
                {
                    if crate::chars::str_eq(hs[i].0.as_str(), field) {
                        proof {
                            lemma_first_field_index(hsm, field@, i as int);
                        }
                        return Ok(Some(hs[i].1.clone()));
                    }
                    i = i + 1;
                }
                proof {
                    lemma_first_field_none(hsm, field@);
                }
                Ok(None)
            },
        }
    }

    /// The `From` field.
    pub fn get_from(&self) -> (r: Result<Option<String>, MailError>)
        ensures
            match (r, spec_get_field(self@, "From"@)) {
                (Ok(Some(v)), Ok(Some(w))) => v@ == w,
                (Ok(None), Ok(None)) => true,
                (Err(e), Err(k)) => e.kind == k,
                _ => false,
            },
    {
        self.get_field("From")
    }

    /// The `To` field.
    pub fn get_to(&self) -> (r: Result<Option<String>, MailError>)
        ensures
            match (r, spec_get_field(self@, "To"@)) {
                (Ok(Some(v)), Ok(Some(w))) => v@ == w,
                (Ok(None), Ok(None)) => true,
                (Err(e), Err(k)) => e.kind == k,
                _ => false,
            },
    {
        self.get_field("To")
    }

    /// The `Subject` field.
    pub fn get_subject(&self) -> (r: Result<Option<String>, MailError>)
        ensures
            match (r, spec_get_field(self@, "Subject"@)) {
                (Ok(Some(v)), Ok(Some(w))) => v@ == w,
                (Ok(None), Ok(None)) => true,
                (Err(e), Err(k)) => e.kind == k,
                _ => false,
            },
    {
        self.get_field("Subject")
    }

    /// The `Message-ID` field.
    pub fn get_message_id(&self) -> (r: Result<Option<String>, MailError>)
        ensures
            match (r, spec_get_field(self@, "Message-ID"@)) {
                (Ok(Some(v)), Ok(Some(w))) => v@ == w,
                (Ok(None), Ok(None)) => true,
                (Err(e), Err(k)) => e.kind == k,
                _ => false,
            },
    {
        self.get_field("Message-ID")
    }

    /// The `In-Reply-To` field.
    pub fn get_in_reply_to(&self) -> (r: Result<Option<String>, MailError>)
        ensures
            match (r, spec_get_field(self@, "In-Reply-To"@)) {
                (Ok(Some(v)), Ok(Some(w))) => v@ == w,
                (Ok(None), Ok(None)) => true,
                (Err(e), Err(k)) => e.kind == k,
                _ => false,
            },
    {
        self.get_field("In-Reply-To")
    }
}

// ------------------------------------------------------------------
// The linker
// ------------------------------------------------------------------
pub const IGNORE_IMPORT_NOMSGID: u32 = 1;

pub const IGNORE_IMPORT_REPTOERR: u32 = 2;

pub const RETURN_SOON: u32 = 4;

pub const PRINT_INFO: u32 = 8;

/// Option flags of the linker.
#[derive(Debug, Clone, Copy, PartialEq, Eq, Structural)]
pub struct LinkerOpts(pub u32);

/// A short description of a single linker option flag.
pub fn flags_to_str(flgs: &LinkerOpts) -> (r: &'static str)
    ensures
        flgs.0 == 1 ==> r@ == "Ignore if there was an error while fetching the Message-Id field"@,
        flgs.0 == 2 ==> r@
            == "Ignore if there was an error while fetching the In-Reply-To header field"@,
        flgs.0 == 4 ==> r@ == "Return as soon as an error occurs"@,
        flgs.0 == 8 ==> r@ == "Print information if linking succeeded"@,
        (flgs.0 != 1 && flgs.0 != 2 && flgs.0 != 4 && flgs.0 != 8) ==> r@
            == "Unknown Linker option"@,
{
    if flgs.0 == 1 {
        "Ignore if there was an error while fetching the Message-Id field"
    } else if flgs.0 == 2 {
        "Ignore if there was an error while fetching the In-Reply-To header field"
    } else if flgs.0 == 4 {
        "Return as soon as an error occurs"
    } else if flgs.0 == 8 {
        "Print information if linking succeeded"
    } else {
        "Unknown Linker option"
    }
}

/// What can go wrong while linking.
#[derive(Debug, Clone, Copy, PartialEq, Eq, Structural)]
pub enum LinkerErrorKind {
    LinkerConstructionError,
    NoMessageIdFoundError,
    LinkerError,
}

/// An error of the linker.
#[derive(Debug)]
pub struct LinkerError {
    pub kind: LinkerErrorKind,
}

/// What the linker reads of one mail: its message identifier and the
/// message it replies to, if any.
#[derive(Debug)]
pub struct MailInfo {
    pub message_id: Option<String>,
    pub in_reply_to: Option<String>,
}

/// The model of one mail's linking data.
#[verifier::ext_equal]
pub struct MailInfoView {
    pub message_id: Option<Seq<char>>,
    pub in_reply_to: Option<Seq<char>>,
}

impl View for MailInfo {
    type V = MailInfoView;

    open spec fn view(&self) -> MailInfoView {
        MailInfoView {
            message_id: match self.message_id {
                Some(s) => Some(s@),
                None => None,
            },
            in_reply_to: match self.in_reply_to {
                Some(s) => Some(s@),
                None => None,
            },
        }
    }
}

pub open spec fn infos_model(v: Seq<MailInfo>) -> Seq<MailInfoView> {
    Seq::new(v.len(), |i: int| v[i]@)
}

/// The reply map: message identifier to the identifiers of the
/// messages it replies to.
pub type ReplyMap = Seq<(Seq<char>, Seq<Seq<char>>)>;

/// Appends `v` to the first entry keyed `k`, or opens a new entry.
pub open spec fn map_append(hm: ReplyMap, k: Seq<char>, v: Option<Seq<char>>) -> ReplyMap
    decreases hm.len(),
{
    if hm.len() == 0 {
        match v {
            Some(x) => seq![(k, seq![x])],
            None => seq![(k, Seq::empty())],
        }
    } else if hm[0].0 == k {
        match v {
            Some(x) => seq![(k, hm[0].1.push(x))] + hm.skip(1),
            None => hm,
        }
    } else {
        seq![hm[0]] + map_append(hm.skip(1), k, v)
    }
}

/// The reply map of the first `i` mails, each required to carry a
/// message identifier.
pub open spec fn build_map(s: Seq<MailInfoView>, i: int) -> ReplyMap
    decreases i,
{
    if i <= 0 || i > s.len() {
        Seq::empty()
    } else {
        match s[i - 1].message_id {
            Some(k) => map_append(build_map(s, i - 1), k, s[i - 1].in_reply_to),
            None => build_map(s, i - 1),
        }
    }
}

/// Some mail lacks a message identifier.
pub open spec fn any_missing_id(s: Seq<MailInfoView>) -> bool {
    exists|i: int| 0 <= i < s.len() && (#[trigger] s[i]).message_id is None
}

/// The linker: the mails, their reply map, and the option flags.
#[derive(Debug)]
pub struct Linker {
    v: Vec<MailInfo>,
    hm: Vec<(String, Vec<String>)>,
    flags: LinkerOpts,
}

/// The model of a reply-map vector.
pub open spec fn hm_model(v: Seq<(String, Vec<String>)>) -> ReplyMap {
    Seq::new(v.len(), |i: int| (v[i].0@, crate::storeid::comps_model(v[i].1@)))
}

impl View for Linker {
    type V = (Seq<MailInfoView>, ReplyMap, u32);

    closed spec fn view(&self) -> (Seq<MailInfoView>, ReplyMap, u32) {
        (infos_model(self.v@), hm_model(self.hm@), self.flags.0)
    }
}

impl Linker {
    /// Builds the linker over the given mails: every mail must carry a
    /// message identifier; the reply map collects, per identifier, the
    /// identifiers it replies to.
    pub fn build(infos: Vec<MailInfo>, flags: LinkerOpts) -> (r: Result<Linker, LinkerError>)
        ensures
            match r {
                Ok(l) => !any_missing_id(infos_model(infos@)) && l@.0 == infos_model(infos@)
                    && l@.1 == build_map(infos_model(infos@), infos@.len() as int) && l@.2
                    == flags.0,
                Err(e) => any_missing_id(infos_model(infos@)) && e.kind
                    == LinkerErrorKind::NoMessageIdFoundError,
            },
    {
        let ghost sm = infos_model(infos@);
        let mut hm: Vec<(String, Vec<String>)> = Vec::new();
        let mut i: usize = 0;
        while i < infos.len()
            invariant
                i <= infos@.len(),
                sm == infos_model(infos@),
                sm.len() == infos@.len(),
                forall|j: int| 0 <= j < i ==> (#[trigger] sm[j]).message_id is Some,
                hm_model(hm@) == build_map(sm, i as int),
            decreases infos@.len() - i,
        {
            let info = &infos[i];
            match &info.message_id {
                None => {
                    proof {
                        assert(sm[i as int].message_id is None);
                    }
                    return Err(LinkerError { kind: LinkerErrorKind::NoMessageIdFoundError });
                },
                Some(mid) => {
                    let irt = match &info.in_reply_to {
                        Some(x) => Some(x.clone()),
                        None => None,
                    };
                    hm_append_exec(&mut hm, mid, irt);
                    proof {
                        assert(hm_model(hm@) == build_map(sm, i as int + 1));
                    }
                },
            }
            i = i + 1;
        }
        proof {
            if any_missing_id(sm) {
                let j = choose|j: int| 0 <= j < sm.len() && (#[trigger] sm[j]).message_id is None;
                assert(false);
            }
        }
        Ok(Linker { v: infos, hm, flags })
    }

    /// Computes the links to create: for every identifier in the reply
    /// map, each referenced identifier that names a known mail yields a
    /// link from the one to the other.
    pub fn run(&self) -> (r: Result<Vec<(String, String)>, LinkerError>)
        ensures
            r matches Ok(links) && files_model(links@) == links_all(
                self@.0,
                self@.1,
                self@.1.len() as int,
            ),
    {
        let mut out: Vec<(String, String)> = Vec::new();
        let mut i: usize = 0;
        while i < self.hm.len()
            invariant
                i <= self.hm@.len(),
                self@.1.len() == self.hm@.len(),
                files_model(out@) == links_all(self@.0, self@.1, i as int),
            decreases self.hm@.len() - i,
        {
            let pair = &self.hm[i];
            let ghost k = self@.1[i as int].0;
            let ghost vs = self@.1[i as int].1;
            proof {
                assert(pair.0@ == k);
                assert(crate::storeid::comps_model(pair.1@) == vs);
            }
            let mut j: usize = 0;
            while j < pair.1.len()
                invariant
                    j <= pair.1@.len(),
                    pair.0@ == k,
                    crate::storeid::comps_model(pair.1@) == vs,
                    vs.len() == pair.1@.len(),
                    self@.1.len() == self.hm@.len(),
                    i < self.hm@.len(),
                    files_model(out@) == links_all(self@.0, self@.1, i as int) + links_for(
                        self@.0,
                        k,
                        vs.take(j as int),
                    ),
                decreases pair.1@.len() - j,
            {
                proof {
                    lemma_links_for_step(self@.0, k, vs, j as int);
                }
                if self.has_mail(pair.1[j].as_str()) {
                    proof {
                        assert(pair.1@[j as int]@ == vs[j as int]);
                        assert(has_id(self@.0, vs[j as int]));
                    }
                    let ghost pre_out = files_model(out@);
                    out.push((pair.0.clone(), pair.1[j].clone()));
                    proof {
                        assert(files_model(out@) =~= pre_out.push((k, vs[j as int])));
                        assert(files_model(out@) =~= links_all(self@.0, self@.1, i as int)
                            + links_for(self@.0, k, vs.take(j as int + 1)));
                    }
                } else {
                    proof {
                        assert(files_model(out@) =~= links_all(self@.0, self@.1, i as int)
                            + links_for(self@.0, k, vs.take(j as int + 1)));
                    }
                }
                j = j + 1;
            }
            proof {
                assert(vs.take(vs.len() as int) =~= vs);
                assert(files_model(out@) =~= links_all(self@.0, self@.1, i as int + 1));
            }
            i = i + 1;
        }
        Ok(out)
    }

    /// Whether some mail carries the given message identifier.
    fn has_mail(&self, k: &str) -> (r: bool)
        ensures
            r == has_id(self@.0, k@),
    {
        let mut i: usize = 0;
        while i < self.v.len()
            invariant
                i <= self.v@.len(),
                self@.0.len() == self.v@.len(),
                forall|j: int| 0 <= j < i ==> (#[trigger] self@.0[j]).message_id != Some(k@),
            decreases self.v@.len() - i,
        {
            match &self.v[i].message_id {
                Some(mid) => {
                    if crate::chars::str_eq(mid.as_str(), k) {
                        proof {
                            assert(self@.0[i as int].message_id == Some(k@));
                        }
                        return true;
                    }
                },
                None => {},
            }
            i = i + 1;
        }
        proof {
            if has_id(self@.0, k@) {
                let j = choose|j: int|
                    0 <= j < self@.0.len() && (#[trigger] self@.0[j]).message_id == Some(k@);
                assert(false);
            }
        }
        false
    }

    /// The option flags.
    pub fn flags(&self) -> (r: LinkerOpts)
        ensures
            r.0 == self@.2,
    {
        self.flags
    }
}

/// Some mail carries the identifier.
pub open spec fn has_id(v: Seq<MailInfoView>, k: Seq<char>) -> bool {
    exists|i: int| 0 <= i < v.len() && (#[trigger] v[i]).message_id == Some(k)
}

/// The links one reply-map entry contributes, in order.
pub open spec fn links_for(v: Seq<MailInfoView>, k: Seq<char>, vs: Seq<Seq<char>>) -> Seq<
    (Seq<char>, Seq<char>),
>
    decreases vs.len(),
{
    if vs.len() == 0 {
        Seq::empty()
    } else {
        links_for(v, k, vs.drop_last()) + (if has_id(v, vs.last()) {
            seq![(k, vs.last())]
        } else {
            Seq::empty()
        })
    }
}

proof fn lemma_links_for_step(v: Seq<MailInfoView>, k: Seq<char>, vs: Seq<Seq<char>>, j: int)
    requires
        0 <= j < vs.len(),
    ensures
        links_for(v, k, vs.take(j + 1)) == links_for(v, k, vs.take(j)) + (if has_id(v, vs[j]) {
            seq![(k, vs[j])]
        } else {
            Seq::<(Seq<char>, Seq<char>)>::empty()
        }),
{
    assert(vs.take(j + 1).drop_last() =~= vs.take(j));
    assert(vs.take(j + 1).last() == vs[j]);
    if !has_id(v, vs[j]) {
        assert(links_for(v, k, vs.take(j + 1)) =~= links_for(v, k, vs.take(j)));
    }
}

/// The links of the first `i` reply-map entries.
pub open spec fn links_all(v: Seq<MailInfoView>, hm: ReplyMap, i: int) -> Seq<
    (Seq<char>, Seq<char>),
>
    decreases i,
{
    if i <= 0 || i > hm.len() {
        Seq::empty()
    } else {
        links_all(v, hm, i - 1) + links_for(v, hm[i - 1].0, hm[i - 1].1)
    }
}

/// Appends a reference under a message identifier in the reply map.
fn hm_append_exec(hm: &mut Vec<(String, Vec<String>)>, k: &String, v: Option<String>)
    ensures
        hm_model(final(hm)@) == map_append(hm_model(old(hm)@), k@, (match v {
            Some(x) => Some(x@),
            None => None,
        }),
        ),
{
    let ghost pre = hm_model(hm@);
    let ghost vm: Option<Seq<char>> = match &v {
        Some(x) => Some(x@),
        None => None,
    };
    let mut i: usize = 0;
    while i < hm.len()
        invariant
            i <= hm@.len(),
            pre == hm_model(hm@),
            pre == hm_model(old(hm)@),
            pre.len() == hm@.len(),
            vm == (match v {
                Some(x) => Some(x@),
                None => None,
            }),
            forall|j: int|
                0 <= j < hm@.len() ==> pre[j] == (hm@[j].0@, crate::storeid::comps_model(
                    hm@[j].1@,
                )),
            forall|j: int| 0 <= j < i ==> pre[j].0 != k@,
        decreases hm@.len() - i,
    {
        if crate::chars::str_eq(hm[i].0.as_str(), k.as_str()) {
            match v {
                Some(x) => {
                    let ghost xm = x@;
                    let ghost hmv = hm@;
                    let mut entry = hm.remove(i);
                    entry.1.push(x);
                    proof {
                        assert(entry.0@ == k@);
                        assert(crate::storeid::comps_model(entry.1@) =~= pre[i as int].1.push(xm));
                    }
                    hm.insert(i, entry);
                    proof {
                        assert(vm == Some(xm));
                        assert(hm@ =~= hmv.update(i as int, entry));
                        assert(hm@.len() == pre.len());
                        lemma_map_append_index(pre, k@, vm, i as int);
                        assert forall|j: int| 0 <= j < hm@.len() && j != i implies hm_model(hm@)[j]
                            == pre[j] by {
                            assert(hm@[j] == hmv[j]);
                        }
                        assert(hm_model(hm@)[i as int] == (k@, pre[i as int].1.push(xm)));
                        assert(hm_model(hm@) =~= pre.update(
                            i as int,
                            (k@, pre[i as int].1.push(vm->Some_0)),
                        ));
                    }
                },
                None => {
                    proof {
                        lemma_map_append_index(pre, k@, vm, i as int);
                    }
                },
            }
            return ;
        }
        i = i + 1;
    }
    let nv: Vec<String> = match v {
        Some(x) => {
            let mut one = Vec::new();
            one.push(x);
            one
        },
        None => Vec::new(),
    };
    proof {
        assert(crate::storeid::comps_model(nv@) =~= (match vm {
            Some(x) => seq![x],
            None => Seq::<Seq<char>>::empty(),
        }));
    }
    hm.push((k.clone(), nv));
    proof {
        lemma_map_append_absent(pre, k@, vm);
        assert(hm_model(hm@) =~= map_append(pre, k@, vm));
    }
}

proof fn lemma_map_append_index(hm: ReplyMap, k: Seq<char>, v: Option<Seq<char>>, i: int)
    requires
        0 <= i < hm.len(),
        forall|j: int| 0 <= j < i ==> hm[j].0 != k,
        hm[i].0 == k,
    ensures
        map_append(hm, k, v) == (match v {
            Some(x) => hm.update(i, (k, hm[i].1.push(x))),
            None => hm,
        }),
    decreases hm.len(),
{
    if i > 0 {
        lemma_map_append_index(hm.skip(1), k, v, i - 1);
        match v {
            Some(x) => {
                assert(map_append(hm, k, v) =~= hm.update(i, (k, hm[i].1.push(x))));
            },
            None => {
                assert(map_append(hm, k, v) =~= hm);
            },
        }
    } else {
        match v {
            Some(x) => {
                assert(map_append(hm, k, v) =~= hm.update(i, (k, hm[i].1.push(x))));
            },
            None => {},
        }
    }
}

proof fn lemma_map_append_absent(hm: ReplyMap, k: Seq<char>, v: Option<Seq<char>>)
    requires
        forall|j: int| 0 <= j < hm.len() ==> hm[j].0 != k,
    ensures
        map_append(hm, k, v) == hm.push(
            (
                k,
                match v {
                    Some(x) => seq![x],
                    None => Seq::<Seq<char>>::empty(),
                },
            ),
        ),
    decreases hm.len(),
{
    if hm.len() > 0 {
        lemma_map_append_absent(hm.skip(1), k, v);
        assert(map_append(hm, k, v) =~= hm.push(
            (
                k,
                match v {
                    Some(x) => seq![x],
                    None => Seq::<Seq<char>>::empty(),
                },
            ),
        ));
    } else {
        assert(map_append(hm, k, v) =~= hm.push(
            (
                k,
                match v {
                    Some(x) => seq![x],
                    None => Seq::<Seq<char>>::empty(),
                },
            ),
        ));
    }
}

} // verus!
