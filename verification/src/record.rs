//! The record data model: tags, indicators, subfields, control fields,
//! data fields, leaders, and whole records, with their length invariants.

use vstd::prelude::*;
use vstd::utf8::encode_utf8;
use vstd::utf8::encode_scalar;
use vstd::utf8::is_ascii_chars;
use vstd::utf8::is_ascii_chars_encode_utf8;

verus! {

/// Number of bytes in the UTF-8 encoding of a character sequence.
/// Length invariants of the model are stated in bytes, not characters.
pub open spec fn byte_len(s: Seq<char>) -> nat {
    encode_utf8(s).len()
}

/// The byte length of a string, tied to the spec-level [`byte_len`].
pub fn byte_count(s: &str) -> (n: usize)
    ensures
        n == byte_len(s@),
{
    proof {
        broadcast use vstd::slice::axiom_spec_len;
    }
    s.as_bytes().len()
}

/// The UTF-8 encoding of a concatenation is the concatenation of the
/// encodings.
pub proof fn lemma_encode_utf8_concat(a: Seq<char>, b: Seq<char>)
    ensures
        encode_utf8(a + b) == encode_utf8(a) + encode_utf8(b),
    decreases a.len(),
{
    if a.len() == 0 {
        assert(a + b =~= b);
        assert(encode_utf8(a) + encode_utf8(b) =~= encode_utf8(b));
    } else {
        assert((a + b).drop_first() =~= a.drop_first() + b);
        lemma_encode_utf8_concat(a.drop_first(), b);
        assert(encode_utf8(a + b) =~= encode_utf8(a) + encode_utf8(b));
    }
}

/// A single scalar never encodes to fewer than one byte.
pub proof fn lemma_encode_scalar_len(v: u32)
    ensures
        1 <= encode_scalar(v).len() <= 4,
{
}

/// Every character contributes at least one byte.
pub proof fn lemma_byte_len_ge_len(s: Seq<char>)
    ensures
        byte_len(s) >= s.len(),
    decreases s.len(),
{
    if s.len() > 0 {
        lemma_encode_scalar_len(s[0] as u32);
        lemma_byte_len_ge_len(s.drop_first());
    }
}

/// A sequence that encodes to a single byte is a single ASCII character.
pub proof fn lemma_byte_len_single(s: Seq<char>)
    requires
        byte_len(s) == 1,
    ensures
        s.len() == 1,
        (s[0] as u32) < 128,
{
    lemma_byte_len_ge_len(s);
    if s.len() == 0 {
        assert(byte_len(s) == 0);
    }
    assert(s.len() == 1);
    assert(encode_utf8(s.drop_first()) =~= Seq::<u8>::empty());
    assert(encode_utf8(s).len() == encode_scalar(s[0] as u32).len());
    lemma_encode_scalar_len(s[0] as u32);
    if (s[0] as u32) >= 128 {
        assert(encode_scalar(s[0] as u32).len() >= 2);
    }
}

/// ASCII character sequences encode to one byte per character.
pub proof fn lemma_ascii_byte_len(s: Seq<char>)
    requires
        is_ascii_chars(s),
    ensures
        byte_len(s) == s.len(),
{
    is_ascii_chars_encode_utf8(s);
}

/// Decode and encode failures, as typed values that carry the context
/// needed to diagnose malformed input.
#[derive(Debug, Clone, PartialEq, Eq)]
pub enum MarcError {
    /// A tag, leader, indicator, or subfield code with the wrong byte count;
    /// carries the offending text.
    InvalidLength(String),
    /// A binary record too short to hold its headers, or whose leading
    /// record-length field is not numeric.
    InvalidSize,
    /// A binary record whose declared length differs from its actual length:
    /// `SizeMismatch(reported, actual)`.
    SizeMismatch(usize, usize),
    /// A binary directory whose length is zero, not a multiple of twelve, or
    /// inconsistent with the data base address.
    InvalidDirectory,
    /// A directory entry (by index) whose tag bytes are not text or whose
    /// numeric fields are not digits.
    InvalidDirectoryEntry(usize),
    /// A directory entry whose field range falls outside the record;
    /// carries the entry's tag.
    FieldOutOfBounds(String),
    /// Bytes that are not valid UTF-8 where text is expected.
    InvalidEncoding,
    /// A MARCXML `controlfield` or `datafield` element without a `tag`
    /// attribute.
    MissingTag,
    /// An encode-time value too large for its fixed-width numeric field.
    ValueTooLarge(usize),
    /// Text that is not well-formed XML.
    InvalidXml,
}

/// The mathematical image of a [`MarcError`].
pub enum MarcErrV {
    InvalidLength(Seq<char>),
    InvalidSize,
    SizeMismatch(int, int),
    InvalidDirectory,
    InvalidDirectoryEntry(int),
    FieldOutOfBounds(Seq<char>),
    InvalidEncoding,
    MissingTag,
    ValueTooLarge(int),
    InvalidXml,
}

impl View for MarcError {
    type V = MarcErrV;

    open spec fn view(&self) -> MarcErrV {
        match self {
            MarcError::InvalidLength(s) => MarcErrV::InvalidLength(s@),
            MarcError::InvalidSize => MarcErrV::InvalidSize,
            MarcError::SizeMismatch(a, b) => MarcErrV::SizeMismatch(*a as int, *b as int),
            MarcError::InvalidDirectory => MarcErrV::InvalidDirectory,
            MarcError::InvalidDirectoryEntry(i) => MarcErrV::InvalidDirectoryEntry(*i as int),
            MarcError::FieldOutOfBounds(s) => MarcErrV::FieldOutOfBounds(s@),
            MarcError::InvalidEncoding => MarcErrV::InvalidEncoding,
            MarcError::MissingTag => MarcErrV::MissingTag,
            MarcError::ValueTooLarge(n) => MarcErrV::ValueTooLarge(*n as int),
            MarcError::InvalidXml => MarcErrV::InvalidXml,
        }
    }
}

/// A single 3-byte tag.
#[derive(Debug, Clone)]
pub struct Tag {
    pub content: String,
}

impl View for Tag {
    type V = Seq<char>;

    open spec fn view(&self) -> Seq<char> {
        self.content@
    }
}

/// A well-formed tag is exactly three bytes.
pub open spec fn tag_wf(t: Seq<char>) -> bool {
    byte_len(t) == 3
}

impl Tag {
    /// Accepts exactly three bytes of text.
    pub fn new(tag: &str) -> (r: Result<Self, MarcError>)
        ensures
            r is Ok <==> tag_wf(tag@),
            r matches Ok(t) ==> t@ == tag@,
            r matches Err(e) ==> e@ == MarcErrV::InvalidLength(tag@),
    {
        if byte_count(tag) == 3 {
            Ok(Tag { content: tag.to_owned() })
        } else {
            Err(MarcError::InvalidLength(tag.to_owned()))
        }
    }
}

/// The mathematical image of a [`Controlfield`].
#[verifier::ext_equal]
pub struct ControlfieldV {
    pub tag: Seq<char>,
    pub content: Option<Seq<char>>,
}

/// MARC control field: a tag (conventionally below `"010"`) and optional
/// content, with no indicators and no subfields.
#[derive(Debug, Clone)]
pub struct Controlfield {
    pub tag: Tag,
    pub content: Option<String>,
}

impl View for Controlfield {
    type V = ControlfieldV;

    open spec fn view(&self) -> ControlfieldV {
        ControlfieldV {
            tag: self.tag@,
            content: match self.content {
                Some(ref s) => Some(s@),
                None => None,
            },
        }
    }
}

pub open spec fn cf_wf(c: ControlfieldV) -> bool {
    tag_wf(c.tag)
}

impl Controlfield {
    /// Accepts exactly three bytes of tag, with no content yet.
    pub fn new(tag: &str) -> (r: Result<Self, MarcError>)
        ensures
            r is Ok <==> tag_wf(tag@),
            r matches Ok(c) ==> c@ == (ControlfieldV { tag: tag@, content: None }),
            r matches Err(e) ==> e@ == MarcErrV::InvalidLength(tag@),
    {
        Ok(Controlfield { tag: Tag::new(tag)?, content: None })
    }

    /// Replaces the content.
    pub fn set_content(&mut self, content: &str)
        ensures
            final(self)@ == (ControlfieldV {
                tag: old(self)@.tag,
                content: Some(content@),
            }),
    {
        self.content = Some(content.to_owned());
    }
}

/// The mathematical image of a [`Subfield`].
#[verifier::ext_equal]
pub struct SubfieldV {
    pub code: Seq<char>,
    pub content: Option<Seq<char>>,
}

/// A single subfield: a one-byte code and optional content.
#[derive(Debug, Clone)]
pub struct Subfield {
    pub code: String,
    pub content: Option<String>,
}

impl View for Subfield {
    type V = SubfieldV;

    open spec fn view(&self) -> SubfieldV {
        SubfieldV {
            code: self.code@,
            content: match self.content {
                Some(ref s) => Some(s@),
                None => None,
            },
        }
    }
}

/// A well-formed subfield code is exactly one byte (hence one ASCII
/// character).
pub open spec fn code_wf(c: Seq<char>) -> bool {
    byte_len(c) == 1
}

pub open spec fn sf_wf(s: SubfieldV) -> bool {
    code_wf(s.code)
}

impl Subfield {
    /// Accepts exactly one byte of code, with no content yet.
    pub fn new(code: &str) -> (r: Result<Self, MarcError>)
        ensures
            r is Ok <==> code_wf(code@),
            r matches Ok(s) ==> s@ == (SubfieldV { code: code@, content: None }),
            r matches Err(e) ==> e@ == MarcErrV::InvalidLength(code@),
    {
        if byte_count(code) != 1 {
            return Err(MarcError::InvalidLength(code.to_owned()));
        }
        Ok(Subfield { code: code.to_owned(), content: None })
    }

    /// Replaces the content.
    pub fn set_content(&mut self, content: &str)
        ensures
            final(self)@ == (SubfieldV {
                code: old(self)@.code,
                content: Some(content@),
            }),
    {
        self.content = Some(content.to_owned());
    }
}

/// A one-byte indicator value; empty or a single space means "absent".
#[derive(Debug, Clone)]
pub struct Indicator {
    pub content: Option<String>,
}

impl View for Indicator {
    type V = Option<Seq<char>>;

    open spec fn view(&self) -> Option<Seq<char>> {
        match self.content {
            Some(ref s) => Some(s@),
            None => None,
        }
    }
}

/// A present indicator is one byte and not a space.
pub open spec fn ind_wf(i: Option<Seq<char>>) -> bool {
    match i {
        None => true,
        Some(s) => byte_len(s) == 1 && s != seq![' '],
    }
}

/// How raw indicator text normalizes: empty or a single space collapses
/// to "absent".
pub open spec fn norm_ind(v: Seq<char>) -> Option<Seq<char>> {
    if v.len() == 0 || v == seq![' '] {
        None
    } else {
        Some(v)
    }
}

impl Indicator {
    /// Accepts the empty string or exactly one byte; empty and a single
    /// space normalize to an absent indicator.
    pub fn new(value: &str) -> (r: Result<Self, MarcError>)
        ensures
            r is Ok <==> (value@.len() == 0 || byte_len(value@) == 1),
            r matches Ok(i) ==> i@ == norm_ind(value@) && ind_wf(i@),
            r matches Err(e) ==> e@ == MarcErrV::InvalidLength(value@),
    {
        let n = byte_count(value);
        if n == 0 {
            assert(value@.len() == 0) by {
                lemma_byte_len_ge_len(value@);
            }
            return Ok(Indicator { content: None });
        }
        if n != 1 {
            proof {
                if value@.len() == 0 {
                    assert(byte_len(value@) == 0);
                }
            }
            return Err(MarcError::InvalidLength(value.to_owned()));
        }
        proof {
            lemma_byte_len_single(value@);
        }
        let c = value.get_char(0);
        if c == ' ' {
            assert(value@ =~= seq![' ']);
            Ok(Indicator { content: None })
        } else {
            assert(value@ != seq![' ']);
            Ok(Indicator { content: Some(value.to_owned()) })
        }
    }
}

/// The mathematical image of a [`Field`].
#[verifier::ext_equal]
pub struct FieldV {
    pub tag: Seq<char>,
    pub ind1: Option<Seq<char>>,
    pub ind2: Option<Seq<char>>,
    pub sfs: Seq<SubfieldV>,
}

/// A MARC data field: a tag (conventionally `"010"` or above), two
/// indicators, and an ordered sequence of subfields.
#[derive(Debug, Clone)]
pub struct Field {
    pub tag: Tag,
    pub ind1: Indicator,
    pub ind2: Indicator,
    pub subfields: Vec<Subfield>,
}

impl View for Field {
    type V = FieldV;

    open spec fn view(&self) -> FieldV {
        FieldV {
            tag: self.tag@,
            ind1: self.ind1@,
            ind2: self.ind2@,
            sfs: self.subfields@.map_values(|sf: Subfield| sf@),
        }
    }
}

pub open spec fn field_wf(f: FieldV) -> bool {
    &&& tag_wf(f.tag)
    &&& ind_wf(f.ind1)
    &&& ind_wf(f.ind2)
    &&& forall|i: int| 0 <= i < f.sfs.len() ==> sf_wf(#[trigger] f.sfs[i])
}

impl Field {
    /// Accepts exactly three bytes of tag; indicators start absent and
    /// the subfield list starts empty.
    pub fn new(tag: &str) -> (r: Result<Self, MarcError>)
        ensures
            r is Ok <==> tag_wf(tag@),
            r matches Ok(f) ==> f@ == (FieldV {
                tag: tag@,
                ind1: None,
                ind2: None,
                sfs: Seq::empty(),
            }),
            r matches Err(e) ==> e@ == MarcErrV::InvalidLength(tag@),
    {
        let f = Field {
            tag: Tag::new(tag)?,
            ind1: Indicator { content: None },
            ind2: Indicator { content: None },
            subfields: Vec::new(),
        };
        proof {
            assert(f@.sfs =~= Seq::<SubfieldV>::empty());
        }
        Ok(f)
    }

    /// Replaces the first indicator after revalidating it.
    pub fn set_ind1(&mut self, ind: &str) -> (r: Result<(), MarcError>)
        ensures
            r is Ok <==> (ind@.len() == 0 || byte_len(ind@) == 1),
            r is Ok ==> final(self)@ == (FieldV { ind1: norm_ind(ind@), ..old(self)@ }),
            r is Err ==> *final(self) == *old(self),
            r matches Err(e) ==> e@ == MarcErrV::InvalidLength(ind@),
    {
        self.set_ind(ind, true)
    }

    /// Replaces the second indicator after revalidating it.
    pub fn set_ind2(&mut self, ind: &str) -> (r: Result<(), MarcError>)
        ensures
            r is Ok <==> (ind@.len() == 0 || byte_len(ind@) == 1),
            r is Ok ==> final(self)@ == (FieldV { ind2: norm_ind(ind@), ..old(self)@ }),
            r is Err ==> *final(self) == *old(self),
            r matches Err(e) ==> e@ == MarcErrV::InvalidLength(ind@),
    {
        self.set_ind(ind, false)
    }

    fn set_ind(&mut self, ind: &str, first: bool) -> (r: Result<(), MarcError>)
        ensures
            r is Ok <==> (ind@.len() == 0 || byte_len(ind@) == 1),
            r is Ok && first ==> final(self)@ == (FieldV { ind1: norm_ind(ind@), ..old(self)@ }),
            r is Ok && !first ==> final(self)@ == (FieldV { ind2: norm_ind(ind@), ..old(self)@ }),
            r is Err ==> *final(self) == *old(self),
            r matches Err(e) ==> e@ == MarcErrV::InvalidLength(ind@),
    {
        let i = Indicator::new(ind)?;
        if first {
            self.ind1 = i;
        } else {
            self.ind2 = i;
        }
        Ok(())
    }

    /// The subfields whose code equals `code`, in their original order.
    pub fn get_subfields(&self, code: &str) -> (r: Vec<&Subfield>)
        ensures
            r@.map_values(|sf: &Subfield| sf@) == filter_sfs(self@.sfs, code@),
    {
        let mut r: Vec<&Subfield> = Vec::new();
        let mut i: usize = 0;
        while i < self.subfields.len()
            invariant
                i <= self.subfields.len(),
                r@.map_values(|sf: &Subfield| sf@) == filter_sfs(
                    self@.sfs.take(i as int),
                    code@,
                ),
            decreases self.subfields.len() - i,
        {
            proof {
                lemma_filter_sfs_take_step(self@.sfs, code@, i as int);
            }
            let sf = &self.subfields[i];
            if str_eq(sf.code.as_str(), code) {
                r.push(sf);
            }
            proof {
                assert(r@.map_values(|sf: &Subfield| sf@) =~= filter_sfs(
                    self@.sfs.take(i + 1),
                    code@,
                ));
            }
            i += 1;
        }
        proof {
            assert(self@.sfs.take(self.subfields.len() as int) =~= self@.sfs);
        }
        r
    }
}

/// The subfields of `s` whose code is `code`, in order.
pub open spec fn filter_sfs(s: Seq<SubfieldV>, code: Seq<char>) -> Seq<SubfieldV>
    decreases s.len(),
{
    if s.len() == 0 {
        Seq::empty()
    } else {
        (if s[0].code == code {
            seq![s[0]]
        } else {
            Seq::empty()
        }) + filter_sfs(s.drop_first(), code)
    }
}

pub proof fn lemma_filter_sfs_concat(a: Seq<SubfieldV>, b: Seq<SubfieldV>, code: Seq<char>)
    ensures
        filter_sfs(a + b, code) == filter_sfs(a, code) + filter_sfs(b, code),
    decreases a.len(),
{
    if a.len() == 0 {
        assert(a + b =~= b);
        assert(filter_sfs(a, code) + filter_sfs(b, code) =~= filter_sfs(b, code));
    } else {
        assert((a + b).drop_first() =~= a.drop_first() + b);
        lemma_filter_sfs_concat(a.drop_first(), b, code);
        assert(filter_sfs(a + b, code) =~= filter_sfs(a, code) + filter_sfs(b, code));
    }
}

/// One step of filtering: extending the prefix by one element appends
/// that element's contribution.
pub proof fn lemma_filter_sfs_take_step(s: Seq<SubfieldV>, code: Seq<char>, i: int)
    requires
        0 <= i < s.len(),
    ensures
        filter_sfs(s.take(i + 1), code) == filter_sfs(s.take(i), code) + (if s[i].code == code {
            seq![s[i]]
        } else {
            Seq::<SubfieldV>::empty()
        }),
{
    let single = seq![s[i]];
    assert(single.drop_first() =~= Seq::<SubfieldV>::empty());
    assert(filter_sfs(single.drop_first(), code) =~= Seq::<SubfieldV>::empty());
    assert(filter_sfs(single, code) =~= (if s[i].code == code {
        seq![s[i]]
    } else {
        Seq::<SubfieldV>::empty()
    }));
    assert(s.take(i + 1) =~= s.take(i) + single);
    lemma_filter_sfs_concat(s.take(i), single, code);
}

/// Byte-for-byte string equality.
pub fn str_eq(a: &str, b: &str) -> (r: bool)
    ensures
        r <==> a@ == b@,
{
    let ab = a.as_bytes();
    let bb = b.as_bytes();
    let r = slice_u8_eq(ab, bb);
    proof {
        if a@ == b@ {
            assert(encode_utf8(a@) == encode_utf8(b@));
        }
        if ab@ == bb@ {
            vstd::utf8::encode_utf8_decode_utf8(a@);
            vstd::utf8::encode_utf8_decode_utf8(b@);
        }
    }
    r
}

/// Element-wise equality of byte slices.
pub fn slice_u8_eq(a: &[u8], b: &[u8]) -> (r: bool)
    ensures
        r <==> a@ == b@,
{
    if a.len() != b.len() {
        proof {
            broadcast use vstd::slice::axiom_spec_len;
        }
        assert(a@ != b@);
        return false;
    }
    proof {
        broadcast use vstd::slice::axiom_spec_len;
    }
    let mut i: usize = 0;
    while i < a.len()
        invariant
            i <= a@.len(),
            a@.len() == b@.len(),
            a@.len() <= usize::MAX,
            forall|j: int| 0 <= j < i ==> a@[j] == b@[j],
        decreases a@.len() - i,
    {
        if a[i] != b[i] {
            assert(a@[i as int] != b@[i as int]);
            return false;
        }
        i += 1;
    }
    proof {
        assert(a@ =~= b@);
    }
    true
}

/// The fixed 24-byte record header.
#[derive(Debug, Clone)]
pub struct Leader {
    pub content: String,
}

impl View for Leader {
    type V = Seq<char>;

    open spec fn view(&self) -> Seq<char> {
        self.content@
    }
}

/// A well-formed leader is exactly 24 bytes.
pub open spec fn leader_wf(l: Seq<char>) -> bool {
    byte_len(l) == 24
}

impl Leader {
    /// Accepts exactly 24 bytes of text.
    pub fn new(content: &str) -> (r: Result<Self, MarcError>)
        ensures
            r is Ok <==> leader_wf(content@),
            r matches Ok(l) ==> l@ == content@,
            r matches Err(e) ==> e@ == MarcErrV::InvalidLength(content@),
    {
        if byte_count(content) != 24 {
            return Err(MarcError::InvalidLength(content.to_owned()));
        }
        Ok(Leader { content: content.to_owned() })
    }
}

/// The mathematical image of a [`Record`].
#[verifier::ext_equal]
pub struct RecordV {
    pub leader: Option<Seq<char>>,
    pub cfs: Seq<ControlfieldV>,
    pub fields: Seq<FieldV>,
}

/// A MARC record: an optional leader, ordered control fields, and ordered
/// data fields.
#[derive(Debug, Clone)]
pub struct Record {
    pub leader: Option<Leader>,
    pub control_fields: Vec<Controlfield>,
    pub fields: Vec<Field>,
}

impl View for Record {
    type V = RecordV;

    open spec fn view(&self) -> RecordV {
        RecordV {
            leader: match self.leader {
                Some(ref l) => Some(l@),
                None => None,
            },
            cfs: self.control_fields@.map_values(|c: Controlfield| c@),
            fields: self.fields@.map_values(|f: Field| f@),
        }
    }
}

pub open spec fn record_wf(r: RecordV) -> bool {
    &&& match r.leader {
        Some(l) => leader_wf(l),
        None => true,
    }
    &&& forall|i: int| 0 <= i < r.cfs.len() ==> cf_wf(#[trigger] r.cfs[i])
    &&& forall|i: int| 0 <= i < r.fields.len() ==> field_wf(#[trigger] r.fields[i])
}

/// The empty record value.
pub open spec fn empty_record() -> RecordV {
    RecordV { leader: None, cfs: Seq::empty(), fields: Seq::empty() }
}

/// The control fields of `s` whose tag is `tag`, in order.
pub open spec fn filter_cfs(s: Seq<ControlfieldV>, tag: Seq<char>) -> Seq<ControlfieldV>
    decreases s.len(),
{
    if s.len() == 0 {
        Seq::empty()
    } else {
        (if s[0].tag == tag {
            seq![s[0]]
        } else {
            Seq::empty()
        }) + filter_cfs(s.drop_first(), tag)
    }
}

pub proof fn lemma_filter_cfs_concat(a: Seq<ControlfieldV>, b: Seq<ControlfieldV>, tag: Seq<char>)
    ensures
        filter_cfs(a + b, tag) == filter_cfs(a, tag) + filter_cfs(b, tag),
    decreases a.len(),
{
    if a.len() == 0 {
        assert(a + b =~= b);
        assert(filter_cfs(a, tag) + filter_cfs(b, tag) =~= filter_cfs(b, tag));
    } else {
        assert((a + b).drop_first() =~= a.drop_first() + b);
        lemma_filter_cfs_concat(a.drop_first(), b, tag);
        assert(filter_cfs(a + b, tag) =~= filter_cfs(a, tag) + filter_cfs(b, tag));
    }
}

pub proof fn lemma_filter_cfs_take_step(s: Seq<ControlfieldV>, tag: Seq<char>, i: int)
    requires
        0 <= i < s.len(),
    ensures
        filter_cfs(s.take(i + 1), tag) == filter_cfs(s.take(i), tag) + (if s[i].tag == tag {
            seq![s[i]]
        } else {
            Seq::<ControlfieldV>::empty()
        }),
{
    let single = seq![s[i]];
    assert(single.drop_first() =~= Seq::<ControlfieldV>::empty());
    assert(filter_cfs(single.drop_first(), tag) =~= Seq::<ControlfieldV>::empty());
    assert(filter_cfs(single, tag) =~= (if s[i].tag == tag {
        seq![s[i]]
    } else {
        Seq::<ControlfieldV>::empty()
    }));
    assert(s.take(i + 1) =~= s.take(i) + single);
    lemma_filter_cfs_concat(s.take(i), single, tag);
}

/// The data fields of `s` whose tag is `tag`, in order.
pub open spec fn filter_fields(s: Seq<FieldV>, tag: Seq<char>) -> Seq<FieldV>
    decreases s.len(),
{
    if s.len() == 0 {
        Seq::empty()
    } else {
        (if s[0].tag == tag {
            seq![s[0]]
        } else {
            Seq::empty()
        }) + filter_fields(s.drop_first(), tag)
    }
}

pub proof fn lemma_filter_fields_concat(a: Seq<FieldV>, b: Seq<FieldV>, tag: Seq<char>)
    ensures
        filter_fields(a + b, tag) == filter_fields(a, tag) + filter_fields(b, tag),
    decreases a.len(),
{
    if a.len() == 0 {
        assert(a + b =~= b);
        assert(filter_fields(a, tag) + filter_fields(b, tag) =~= filter_fields(b, tag));
    } else {
        assert((a + b).drop_first() =~= a.drop_first() + b);
        lemma_filter_fields_concat(a.drop_first(), b, tag);
        assert(filter_fields(a + b, tag) =~= filter_fields(a, tag) + filter_fields(b, tag));
    }
}

pub proof fn lemma_filter_fields_take_step(s: Seq<FieldV>, tag: Seq<char>, i: int)
    requires
        0 <= i < s.len(),
    ensures
        filter_fields(s.take(i + 1), tag) == filter_fields(s.take(i), tag) + (if s[i].tag == tag {
            seq![s[i]]
        } else {
            Seq::<FieldV>::empty()
        }),
{
    let single = seq![s[i]];
    assert(single.drop_first() =~= Seq::<FieldV>::empty());
    assert(filter_fields(single.drop_first(), tag) =~= Seq::<FieldV>::empty());
    assert(filter_fields(single, tag) =~= (if s[i].tag == tag {
        seq![s[i]]
    } else {
        Seq::<FieldV>::empty()
    }));
    assert(s.take(i + 1) =~= s.take(i) + single);
    lemma_filter_fields_concat(s.take(i), single, tag);
}

/// The present contents of the subfields of `sfs` whose code is `code`.
pub open spec fn sf_values(sfs: Seq<SubfieldV>, code: Seq<char>) -> Seq<Seq<char>>
    decreases sfs.len(),
{
    if sfs.len() == 0 {
        Seq::empty()
    } else {
        (if sfs[0].code == code && sfs[0].content is Some {
            seq![sfs[0].content->Some_0]
        } else {
            Seq::empty()
        }) + sf_values(sfs.drop_first(), code)
    }
}

/// The present contents of subfields with code `code` in fields with tag
/// `tag`, across the record in order.
pub open spec fn record_values(fields: Seq<FieldV>, tag: Seq<char>, code: Seq<char>) -> Seq<
    Seq<char>,
>
    decreases fields.len(),
{
    if fields.len() == 0 {
        Seq::empty()
    } else {
        (if fields[0].tag == tag {
            sf_values(fields[0].sfs, code)
        } else {
            Seq::empty()
        }) + record_values(fields.drop_first(), tag, code)
    }
}

pub proof fn lemma_sf_values_concat(a: Seq<SubfieldV>, b: Seq<SubfieldV>, code: Seq<char>)
    ensures
        sf_values(a + b, code) == sf_values(a, code) + sf_values(b, code),
    decreases a.len(),
{
    if a.len() == 0 {
        assert(a + b =~= b);
        assert(sf_values(a, code) + sf_values(b, code) =~= sf_values(b, code));
    } else {
        assert((a + b).drop_first() =~= a.drop_first() + b);
        lemma_sf_values_concat(a.drop_first(), b, code);
        assert(sf_values(a + b, code) =~= sf_values(a, code) + sf_values(b, code));
    }
}

pub proof fn lemma_sf_values_take_step(s: Seq<SubfieldV>, code: Seq<char>, i: int)
    requires
        0 <= i < s.len(),
    ensures
        sf_values(s.take(i + 1), code) == sf_values(s.take(i), code) + (if s[i].code == code
            && s[i].content is Some {
            seq![s[i].content->Some_0]
        } else {
            Seq::<Seq<char>>::empty()
        }),
{
    let single = seq![s[i]];
    assert(single.drop_first() =~= Seq::<SubfieldV>::empty());
    assert(sf_values(single.drop_first(), code) =~= Seq::<Seq<char>>::empty());
    assert(sf_values(single, code) =~= (if s[i].code == code && s[i].content is Some {
        seq![s[i].content->Some_0]
    } else {
        Seq::<Seq<char>>::empty()
    }));
    assert(s.take(i + 1) =~= s.take(i) + single);
    lemma_sf_values_concat(s.take(i), single, code);
}

pub proof fn lemma_record_values_concat(
    a: Seq<FieldV>,
    b: Seq<FieldV>,
    tag: Seq<char>,
    code: Seq<char>,
)
    ensures
        record_values(a + b, tag, code) == record_values(a, tag, code) + record_values(
            b,
            tag,
            code,
        ),
    decreases a.len(),
{
    if a.len() == 0 {
        assert(a + b =~= b);
        assert(record_values(a, tag, code) + record_values(b, tag, code) =~= record_values(
            b,
            tag,
            code,
        ));
    } else {
        assert((a + b).drop_first() =~= a.drop_first() + b);
        lemma_record_values_concat(a.drop_first(), b, tag, code);
        assert(record_values(a + b, tag, code) =~= record_values(a, tag, code) + record_values(
            b,
            tag,
            code,
        ));
    }
}

pub proof fn lemma_record_values_take_step(s: Seq<FieldV>, tag: Seq<char>, code: Seq<char>, i: int)
    requires
        0 <= i < s.len(),
    ensures
        record_values(s.take(i + 1), tag, code) == record_values(s.take(i), tag, code) + (if s[i].tag
            == tag {
            sf_values(s[i].sfs, code)
        } else {
            Seq::<Seq<char>>::empty()
        }),
{
    let single = seq![s[i]];
    assert(single.drop_first() =~= Seq::<FieldV>::empty());
    assert(record_values(single.drop_first(), tag, code) =~= Seq::<Seq<char>>::empty());
    assert(record_values(single, tag, code) =~= (if s[i].tag == tag {
        sf_values(s[i].sfs, code)
    } else {
        Seq::<Seq<char>>::empty()
    }));
    assert(s.take(i + 1) =~= s.take(i) + single);
    lemma_record_values_concat(s.take(i), single, tag, code);
}

impl Record {
    /// A record with no leader and no fields.
    pub fn new() -> (r: Self)
        ensures
            r@ == empty_record(),
    {
        let r = Record { leader: None, control_fields: Vec::new(), fields: Vec::new() };
        proof {
            assert(r@.cfs =~= Seq::<ControlfieldV>::empty());
            assert(r@.fields =~= Seq::<FieldV>::empty());
            assert(r@ =~= empty_record());
        }
        r
    }

    /// Applies a leader value; rejects anything but exactly 24 bytes.
    pub fn set_leader(&mut self, leader: &str) -> (r: Result<(), MarcError>)
        ensures
            r is Ok <==> leader_wf(leader@),
            r is Ok ==> final(self)@ == (RecordV { leader: Some(leader@), ..old(self)@ }),
            r is Err ==> *final(self) == *old(self),
            r matches Err(e) ==> e@ == MarcErrV::InvalidLength(leader@),
    {
        self.leader = Some(Leader::new(leader)?);
        Ok(())
    }

    /// The control fields whose tag equals `tag`, in their original order.
    pub fn get_control_fields(&self, tag: &str) -> (r: Vec<&Controlfield>)
        ensures
            r@.map_values(|c: &Controlfield| c@) == filter_cfs(self@.cfs, tag@),
    {
        let mut r: Vec<&Controlfield> = Vec::new();
        let mut i: usize = 0;
        while i < self.control_fields.len()
            invariant
                i <= self.control_fields.len(),
                r@.map_values(|c: &Controlfield| c@) == filter_cfs(self@.cfs.take(i as int), tag@),
            decreases self.control_fields.len() - i,
        {
            proof {
                lemma_filter_cfs_take_step(self@.cfs, tag@, i as int);
            }
            let c = &self.control_fields[i];
            if str_eq(c.tag.content.as_str(), tag) {
                r.push(c);
            }
            proof {
                assert(r@.map_values(|c: &Controlfield| c@) =~= filter_cfs(
                    self@.cfs.take(i + 1),
                    tag@,
                ));
            }
            i += 1;
        }
        proof {
            assert(self@.cfs.take(self.control_fields.len() as int) =~= self@.cfs);
        }
        r
    }

    /// The data fields whose tag equals `tag`, in their original order.
    pub fn get_fields(&self, tag: &str) -> (r: Vec<&Field>)
        ensures
            r@.map_values(|f: &Field| f@) == filter_fields(self@.fields, tag@),
    {
        let mut r: Vec<&Field> = Vec::new();
        let mut i: usize = 0;
        while i < self.fields.len()
            invariant
                i <= self.fields.len(),
                r@.map_values(|f: &Field| f@) == filter_fields(self@.fields.take(i as int), tag@),
            decreases self.fields.len() - i,
        {
            proof {
                lemma_filter_fields_take_step(self@.fields, tag@, i as int);
            }
            let f = &self.fields[i];
            if str_eq(f.tag.content.as_str(), tag) {
                r.push(f);
            }
            proof {
                assert(r@.map_values(|f: &Field| f@) =~= filter_fields(
                    self@.fields.take(i + 1),
                    tag@,
                ));
            }
            i += 1;
        }
        proof {
            assert(self@.fields.take(self.fields.len() as int) =~= self@.fields);
        }
        r
    }

    /// The present contents of subfields with code `sfcode` within fields
    /// tagged `tag`, in record order.
    pub fn get_values<'a>(&'a self, tag: &str, sfcode: &str) -> (r: Vec<&'a str>)
        ensures
            r@.map_values(|s: &str| s@) == record_values(self@.fields, tag@, sfcode@),
    {
        let mut r: Vec<&'a str> = Vec::new();
        let mut i: usize = 0;
        while i < self.fields.len()
            invariant
                i <= self.fields.len(),
                r@.map_values(|s: &str| s@) == record_values(
                    self@.fields.take(i as int),
                    tag@,
                    sfcode@,
                ),
            decreases self.fields.len() - i,
        {
            proof {
                lemma_record_values_take_step(self@.fields, tag@, sfcode@, i as int);
            }
            let f = &self.fields[i];
            if str_eq(f.tag.content.as_str(), tag) {
                assert(f@ == self@.fields[i as int]);
                let ghost r_prev = r@.map_values(|s: &str| s@);
                let mut j: usize = 0;
                while j < f.subfields.len()
                    invariant
                        j <= f.subfields.len(),
                        f@ == self@.fields[i as int],
                        r@.map_values(|s: &str| s@) == r_prev + sf_values(
                            f@.sfs.take(j as int),
                            sfcode@,
                        ),
                    decreases f.subfields.len() - j,
                {
                    proof {
                        lemma_sf_values_take_step(f@.sfs, sfcode@, j as int);
                    }
                    let sf = &f.subfields[j];
                    let ghost m0 = r@.map_values(|s: &str| s@);
                    assert(sf@ == f@.sfs[j as int]);
                    if str_eq(sf.code.as_str(), sfcode) {
                        match sf.content {
                            Some(ref content) => {
                                r.push(content.as_str());
                                proof {
                                    assert(r@.map_values(|s: &str| s@) =~= m0.push(content@));
                                }
                            },
                            None => {},
                        }
                    }
                    proof {
                        assert(r@.map_values(|s: &str| s@) =~= r_prev + sf_values(
                            f@.sfs.take(j + 1),
                            sfcode@,
                        ));
                    }
                    j += 1;
                }
                proof {
                    assert(f@.sfs.take(f.subfields.len() as int) =~= f@.sfs);
                    assert(r@.map_values(|s: &str| s@) =~= record_values(
                        self@.fields.take(i + 1),
                        tag@,
                        sfcode@,
                    ));
                }
            } else {
                proof {
                    assert(r@.map_values(|s: &str| s@) =~= record_values(
                        self@.fields.take(i + 1),
                        tag@,
                        sfcode@,
                    ));
                }
            }
            i += 1;
        }
        proof {
            assert(self@.fields.take(self.fields.len() as int) =~= self@.fields);
        }
        r
    }
}

} // verus!
