//! The "breaker" codec: a human-editable line format with one field per
//! line, `$`-delimited subfields, and a `${dollar}` escape for literal
//! dollar signs.

use vstd::prelude::*;

use crate::record::Controlfield;
use crate::record::ControlfieldV;
use crate::record::Field;
use crate::record::FieldV;
use crate::record::Indicator;
use crate::record::Leader;
use crate::record::MarcError;
use crate::record::MarcErrV;
use crate::record::Record;
use crate::record::RecordV;
use crate::record::Subfield;
use crate::record::SubfieldV;
use crate::record::byte_len;
use crate::record::empty_record;
use crate::record::leader_wf;
use crate::record::norm_ind;
use crate::record::tag_wf;
use crate::record::record_wf;
use crate::text::chars_eq;
use crate::text::chars_lt;
use crate::text::chars_to_string;
use crate::text::find_char;
use crate::text::find_char_from;
use crate::text::push_char;
use crate::text::seq_str_lt;
use crate::text::str_chars;
use crate::text::vec_range;

verus! {

/// The escape text that stands for a literal `$` in breaker form.
pub open spec fn dollar_esc() -> Seq<char> {
    seq!['{', 'd', 'o', 'l', 'l', 'a', 'r', '}']
}

/// The tag text of a leader line.
pub open spec fn ldr_tag() -> Seq<char> {
    seq!['L', 'D', 'R']
}

/// The boundary tag: tags below `"010"` are control fields.
pub open spec fn tag_bound() -> Seq<char> {
    seq!['0', '1', '0']
}

/// Escaping for breaker output: each `$` becomes `{dollar}`.
pub open spec fn esc_breaker(s: Seq<char>) -> Seq<char>
    decreases s.len(),
{
    if s.len() == 0 {
        Seq::empty()
    } else {
        (if s[0] == '$' {
            dollar_esc()
        } else {
            seq![s[0]]
        }) + esc_breaker(s.drop_first())
    }
}

/// Unescaping for breaker input: each `{dollar}` becomes `$`, scanning
/// left to right.
pub open spec fn unesc_breaker(s: Seq<char>) -> Seq<char>
    decreases s.len(),
{
    if s.len() == 0 {
        Seq::empty()
    } else if s.len() >= 8 && s.take(8) == dollar_esc() {
        seq!['$'] + unesc_breaker(s.skip(8))
    } else {
        seq![s[0]] + unesc_breaker(s.drop_first())
    }
}

pub proof fn lemma_esc_breaker_concat(a: Seq<char>, b: Seq<char>)
    ensures
        esc_breaker(a + b) == esc_breaker(a) + esc_breaker(b),
    decreases a.len(),
{
    if a.len() == 0 {
        assert(a + b =~= b);
        assert(esc_breaker(a) + esc_breaker(b) =~= esc_breaker(b));
    } else {
        assert((a + b).drop_first() =~= a.drop_first() + b);
        lemma_esc_breaker_concat(a.drop_first(), b);
        assert(esc_breaker(a + b) =~= esc_breaker(a) + esc_breaker(b));
    }
}

pub proof fn lemma_esc_breaker_take_step(s: Seq<char>, i: int)
    requires
        0 <= i < s.len(),
    ensures
        esc_breaker(s.take(i + 1)) == esc_breaker(s.take(i)) + (if s[i] == '$' {
            dollar_esc()
        } else {
            seq![s[i]]
        }),
{
    let single = seq![s[i]];
    assert(single.drop_first() =~= Seq::<char>::empty());
    assert(esc_breaker(single.drop_first()) =~= Seq::<char>::empty());
    assert(esc_breaker(single) =~= (if s[i] == '$' {
        dollar_esc()
    } else {
        seq![s[i]]
    }));
    assert(s.take(i + 1) =~= s.take(i) + single);
    lemma_esc_breaker_concat(s.take(i), single);
}

/// Replaces every `$` with `{dollar}`.
pub fn escape_to_breaker(value: &str) -> (r: String)
    ensures
        r@ == esc_breaker(value@),
{
    let cs = str_chars(value);
    let mut r = String::new();
    let mut i: usize = 0;
    while i < cs.len()
        invariant
            i <= cs@.len(),
            cs@ == value@,
            r@ == esc_breaker(cs@.take(i as int)),
        decreases cs@.len() - i,
    {
        proof {
            lemma_esc_breaker_take_step(cs@, i as int);
        }
        let c = cs[i];
        if c == '$' {
            r.append("{dollar}");
            proof {
                reveal_strlit("{dollar}");
                assert("{dollar}"@ =~= dollar_esc());
            }
        } else {
            push_char(&mut r, c);
        }
        i += 1;
    }
    proof {
        assert(cs@.take(cs@.len() as int) =~= cs@);
    }
    r
}

/// Replaces every `{dollar}` with `$`, scanning left to right.
pub fn unescape_from_breaker(value: &str) -> (r: String)
    ensures
        r@ == unesc_breaker(value@),
{
    let cs = str_chars(value);
    let mut r = String::new();
    let mut i: usize = 0;
    proof {
        assert(cs@.skip(0) =~= cs@);
        assert(r@ + unesc_breaker(cs@) =~= unesc_breaker(cs@));
    }
    while i < cs.len()
        invariant
            i <= cs@.len(),
            cs@ == value@,
            r@ + unesc_breaker(cs@.skip(i as int)) == unesc_breaker(cs@),
        decreases cs@.len() - i,
    {
        let esc = matches_dollar_esc(&cs, i);
        if esc {
            push_char(&mut r, '$');
            proof {
                let s = cs@.skip(i as int);
                assert(s.take(8) =~= cs@.subrange(i as int, i + 8));
                assert(s.skip(8) =~= cs@.skip(i + 8));
                assert(unesc_breaker(s) == seq!['$'] + unesc_breaker(cs@.skip(i + 8)));
                assert(r@ + unesc_breaker(cs@.skip(i + 8)) =~= unesc_breaker(cs@));
            }
            i += 8;
        } else {
            push_char(&mut r, cs[i]);
            proof {
                let s = cs@.skip(i as int);
                if s.len() >= 8 {
                    assert(s.take(8) =~= cs@.subrange(i as int, i + 8));
                }
                assert(s[0] == cs@[i as int]);
                assert(s.drop_first() =~= cs@.skip(i + 1));
                assert(unesc_breaker(s) == seq![cs@[i as int]] + unesc_breaker(cs@.skip(i + 1)));
                assert(r@ + unesc_breaker(cs@.skip(i + 1)) =~= unesc_breaker(cs@));
            }
            i += 1;
        }
    }
    proof {
        assert(cs@.skip(cs@.len() as int) =~= Seq::<char>::empty());
        assert(r@ =~= unesc_breaker(cs@));
    }
    r
}

/// Whether the eight characters of the `{dollar}` escape stand at
/// position `i`.
fn matches_dollar_esc(v: &Vec<char>, i: usize) -> (r: bool)
    requires
        i <= v@.len(),
    ensures
        r <==> (i + 8 <= v@.len() && v@.subrange(i as int, i + 8) == dollar_esc()),
{
    if v.len() - i < 8 {
        return false;
    }
    let r = v[i] == '{' && v[i + 1] == 'd' && v[i + 2] == 'o' && v[i + 3] == 'l' && v[i + 4] == 'l'
        && v[i + 5] == 'a' && v[i + 6] == 'r' && v[i + 7] == '}';
    proof {
        if r {
            assert(v@.subrange(i as int, i + 8) =~= dollar_esc());
        } else {
            assert(v@.subrange(i as int, i + 8) != dollar_esc()) by {
                let sub = v@.subrange(i as int, i + 8);
                if sub == dollar_esc() {
                    assert(sub[0] == '{' && sub[1] == 'd' && sub[2] == 'o' && sub[3] == 'l'
                        && sub[4] == 'l' && sub[5] == 'a' && sub[6] == 'r' && sub[7] == '}');
                }
            }
        }
    }
    r
}

/// The breaker line of a control field: the tag, then a space and the
/// escaped content when content is present.
pub open spec fn cf_breaker(c: ControlfieldV) -> Seq<char> {
    match c.content {
        Some(ct) => c.tag + seq![' '] + esc_breaker(ct),
        None => c.tag,
    }
}

/// The breaker text of a subfield: `$`, the code, then the escaped
/// content when present.
pub open spec fn sf_breaker(s: SubfieldV) -> Seq<char> {
    seq!['$'] + s.code + (match s.content {
        Some(ct) => esc_breaker(ct),
        None => Seq::empty(),
    })
}

/// The breaker text of an indicator: its character, or `\` when absent.
pub open spec fn ind_breaker(i: Option<Seq<char>>) -> Seq<char> {
    match i {
        Some(s) => s,
        None => seq!['\\'],
    }
}

/// The concatenated breaker text of a subfield sequence.
pub open spec fn sfs_breaker(sfs: Seq<SubfieldV>) -> Seq<char>
    decreases sfs.len(),
{
    if sfs.len() == 0 {
        Seq::empty()
    } else {
        sf_breaker(sfs[0]) + sfs_breaker(sfs.drop_first())
    }
}

pub proof fn lemma_sfs_breaker_concat(a: Seq<SubfieldV>, b: Seq<SubfieldV>)
    ensures
        sfs_breaker(a + b) == sfs_breaker(a) + sfs_breaker(b),
    decreases a.len(),
{
    if a.len() == 0 {
        assert(a + b =~= b);
        assert(sfs_breaker(a) + sfs_breaker(b) =~= sfs_breaker(b));
    } else {
        assert((a + b).drop_first() =~= a.drop_first() + b);
        lemma_sfs_breaker_concat(a.drop_first(), b);
        assert(sfs_breaker(a + b) =~= sfs_breaker(a) + sfs_breaker(b));
    }
}

pub proof fn lemma_sfs_breaker_take_step(s: Seq<SubfieldV>, i: int)
    requires
        0 <= i < s.len(),
    ensures
        sfs_breaker(s.take(i + 1)) == sfs_breaker(s.take(i)) + sf_breaker(s[i]),
{
    let single = seq![s[i]];
    assert(single.drop_first() =~= Seq::<SubfieldV>::empty());
    assert(sfs_breaker(single.drop_first()) =~= Seq::<char>::empty());
    assert(sfs_breaker(single) =~= sf_breaker(s[i]));
    assert(s.take(i + 1) =~= s.take(i) + single);
    lemma_sfs_breaker_concat(s.take(i), single);
}

/// The breaker line of a data field: tag, space, both indicators, then
/// the subfields.
pub open spec fn field_breaker(f: FieldV) -> Seq<char> {
    f.tag + seq![' '] + ind_breaker(f.ind1) + ind_breaker(f.ind2) + sfs_breaker(f.sfs)
}

/// The breaker line of a leader: `LDR ` followed by the escaped content.
pub open spec fn leader_breaker(l: Seq<char>) -> Seq<char> {
    ldr_tag() + seq![' '] + esc_breaker(l)
}

/// One newline-prefixed line per control field.
pub open spec fn cf_lines(cfs: Seq<ControlfieldV>) -> Seq<char>
    decreases cfs.len(),
{
    if cfs.len() == 0 {
        Seq::empty()
    } else {
        seq!['\n'] + cf_breaker(cfs[0]) + cf_lines(cfs.drop_first())
    }
}

pub proof fn lemma_cf_lines_concat(a: Seq<ControlfieldV>, b: Seq<ControlfieldV>)
    ensures
        cf_lines(a + b) == cf_lines(a) + cf_lines(b),
    decreases a.len(),
{
    if a.len() == 0 {
        assert(a + b =~= b);
        assert(cf_lines(a) + cf_lines(b) =~= cf_lines(b));
    } else {
        assert((a + b).drop_first() =~= a.drop_first() + b);
        lemma_cf_lines_concat(a.drop_first(), b);
        assert(cf_lines(a + b) =~= cf_lines(a) + cf_lines(b));
    }
}

pub proof fn lemma_cf_lines_take_step(s: Seq<ControlfieldV>, i: int)
    requires
        0 <= i < s.len(),
    ensures
        cf_lines(s.take(i + 1)) == cf_lines(s.take(i)) + seq!['\n'] + cf_breaker(s[i]),
{
    let single = seq![s[i]];
    assert(single.drop_first() =~= Seq::<ControlfieldV>::empty());
    assert(cf_lines(single.drop_first()) =~= Seq::<char>::empty());
    assert(cf_lines(single) =~= seq!['\n'] + cf_breaker(s[i]));
    assert(s.take(i + 1) =~= s.take(i) + single);
    lemma_cf_lines_concat(s.take(i), single);
    assert(cf_lines(s.take(i)) + (seq!['\n'] + cf_breaker(s[i])) =~= cf_lines(s.take(i))
        + seq!['\n'] + cf_breaker(s[i]));
}

/// One newline-prefixed line per data field.
pub open spec fn field_lines(fields: Seq<FieldV>) -> Seq<char>
    decreases fields.len(),
{
    if fields.len() == 0 {
        Seq::empty()
    } else {
        seq!['\n'] + field_breaker(fields[0]) + field_lines(fields.drop_first())
    }
}

pub proof fn lemma_field_lines_concat(a: Seq<FieldV>, b: Seq<FieldV>)
    ensures
        field_lines(a + b) == field_lines(a) + field_lines(b),
    decreases a.len(),
{
    if a.len() == 0 {
        assert(a + b =~= b);
        assert(field_lines(a) + field_lines(b) =~= field_lines(b));
    } else {
        assert((a + b).drop_first() =~= a.drop_first() + b);
        lemma_field_lines_concat(a.drop_first(), b);
        assert(field_lines(a + b) =~= field_lines(a) + field_lines(b));
    }
}

pub proof fn lemma_field_lines_take_step(s: Seq<FieldV>, i: int)
    requires
        0 <= i < s.len(),
    ensures
        field_lines(s.take(i + 1)) == field_lines(s.take(i)) + seq!['\n'] + field_breaker(s[i]),
{
    let single = seq![s[i]];
    assert(single.drop_first() =~= Seq::<FieldV>::empty());
    assert(field_lines(single.drop_first()) =~= Seq::<char>::empty());
    assert(field_lines(single) =~= seq!['\n'] + field_breaker(s[i]));
    assert(s.take(i + 1) =~= s.take(i) + single);
    lemma_field_lines_concat(s.take(i), single);
    assert(field_lines(s.take(i)) + (seq!['\n'] + field_breaker(s[i])) =~= field_lines(s.take(i))
        + seq!['\n'] + field_breaker(s[i]));
}

/// The whole breaker text of a record: the leader line when present,
/// then control fields, then data fields, each on its own line.
pub open spec fn record_breaker(r: RecordV) -> Seq<char> {
    (match r.leader {
        Some(l) => leader_breaker(l),
        None => Seq::empty(),
    }) + cf_lines(r.cfs) + field_lines(r.fields)
}

impl Controlfield {
    /// The breaker line of this control field.
    pub fn to_breaker(&self) -> (r: String)
        ensures
            r@ == cf_breaker(self@),
    {
        let mut r = String::from_str(self.tag.content.as_str());
        match self.content {
            Some(ref c) => {
                push_char(&mut r, ' ');
                let e = escape_to_breaker(c.as_str());
                r.append(e.as_str());
                proof {
                    assert(r@ =~= cf_breaker(self@));
                }
            },
            None => {},
        }
        r
    }
}

impl Subfield {
    /// The breaker text of this subfield.
    pub fn to_breaker(&self) -> (r: String)
        ensures
            r@ == sf_breaker(self@),
    {
        let mut r = String::new();
        push_char(&mut r, '$');
        r.append(self.code.as_str());
        match self.content {
            Some(ref c) => {
                let e = escape_to_breaker(c.as_str());
                r.append(e.as_str());
            },
            None => {},
        }
        proof {
            assert(r@ =~= sf_breaker(self@));
        }
        r
    }
}

impl Indicator {
    /// The breaker text of this indicator: its character, or `\` when
    /// absent.
    pub fn to_breaker(&self) -> (r: String)
        ensures
            r@ == ind_breaker(self@),
    {
        match self.content {
            Some(ref c) => String::from_str(c.as_str()),
            None => {
                let mut r = String::new();
                push_char(&mut r, '\\');
                proof {
                    assert(r@ =~= ind_breaker(self@));
                }
                r
            },
        }
    }
}

impl Field {
    /// The breaker line of this data field.
    pub fn to_breaker(&self) -> (r: String)
        ensures
            r@ == field_breaker(self@),
    {
        let mut r = String::from_str(self.tag.content.as_str());
        push_char(&mut r, ' ');
        let i1 = self.ind1.to_breaker();
        r.append(i1.as_str());
        let i2 = self.ind2.to_breaker();
        r.append(i2.as_str());
        let ghost head = r@;
        let mut i: usize = 0;
        while i < self.subfields.len()
            invariant
                i <= self.subfields.len(),
                r@ == head + sfs_breaker(self@.sfs.take(i as int)),
            decreases self.subfields.len() - i,
        {
            proof {
                lemma_sfs_breaker_take_step(self@.sfs, i as int);
            }
            let sb = self.subfields[i].to_breaker();
            r.append(sb.as_str());
            proof {
                assert(self.subfields@[i as int]@ == self@.sfs[i as int]);
                assert(r@ =~= head + sfs_breaker(self@.sfs.take(i + 1)));
            }
            i += 1;
        }
        proof {
            assert(self@.sfs.take(self.subfields.len() as int) =~= self@.sfs);
            assert(r@ =~= field_breaker(self@));
        }
        r
    }
}

impl Leader {
    /// The breaker line of this leader.
    pub fn to_breaker(&self) -> (r: String)
        ensures
            r@ == leader_breaker(self@),
    {
        let mut r = String::from_str("LDR ");
        let e = escape_to_breaker(self.content.as_str());
        r.append(e.as_str());
        proof {
            reveal_strlit("LDR ");
            assert("LDR "@ =~= ldr_tag() + seq![' ']);
            assert(r@ =~= leader_breaker(self@));
        }
        r
    }
}

impl Record {
    /// The whole breaker text of this record.
    pub fn to_breaker(&self) -> (r: String)
        ensures
            r@ == record_breaker(self@),
    {
        let mut r = String::new();
        match self.leader {
            Some(ref l) => {
                let lb = l.to_breaker();
                r.append(lb.as_str());
            },
            None => {},
        }
        let ghost head = r@;
        let mut i: usize = 0;
        while i < self.control_fields.len()
            invariant
                i <= self.control_fields.len(),
                r@ == head + cf_lines(self@.cfs.take(i as int)),
            decreases self.control_fields.len() - i,
        {
            proof {
                lemma_cf_lines_take_step(self@.cfs, i as int);
            }
            push_char(&mut r, '\n');
            let cb = self.control_fields[i].to_breaker();
            r.append(cb.as_str());
            proof {
                assert(self.control_fields@[i as int]@ == self@.cfs[i as int]);
                assert(r@ =~= head + cf_lines(self@.cfs.take(i + 1)));
            }
            i += 1;
        }
        proof {
            assert(self@.cfs.take(self.control_fields.len() as int) =~= self@.cfs);
        }
        let ghost head2 = r@;
        let mut i: usize = 0;
        while i < self.fields.len()
            invariant
                i <= self.fields.len(),
                r@ == head2 + field_lines(self@.fields.take(i as int)),
            decreases self.fields.len() - i,
        {
            proof {
                lemma_field_lines_take_step(self@.fields, i as int);
            }
            push_char(&mut r, '\n');
            let fb = self.fields[i].to_breaker();
            r.append(fb.as_str());
            proof {
                assert(self.fields@[i as int]@ == self@.fields[i as int]);
                assert(r@ =~= head2 + field_lines(self@.fields.take(i + 1)));
            }
            i += 1;
        }
        proof {
            assert(self@.fields.take(self.fields.len() as int) =~= self@.fields);
            assert(r@ =~= record_breaker(self@));
        }
        r
    }
}


/// How one indicator character of a data-field line decodes: `\\`, a
/// space, or a non-ASCII character all yield an absent indicator.
pub open spec fn breaker_ind(c: char) -> Option<Seq<char>> {
    if c == '\\' || c == ' ' || (c as u32) >= 128 {
        None
    } else {
        Some(seq![c])
    }
}

/// A single character encodes to one byte exactly when it is ASCII.
pub proof fn lemma_byte_len_char(c: char)
    ensures
        byte_len(seq![c]) == 1 <==> (c as u32) < 128,
        (c as u32) < 128 ==> byte_len(seq![c]) == 1,
{
    let s = seq![c];
    assert(s.drop_first() =~= Seq::<char>::empty());
    assert(vstd::utf8::encode_utf8(s) =~= vstd::utf8::encode_scalar(c as u32) + vstd::utf8::encode_utf8(s.drop_first()));
    assert(byte_len(s) == vstd::utf8::encode_scalar(c as u32).len());
    vstd::utf8::char_is_scalar(c);
}

/// The segments of `s` between `$` delimiters, in order; without a `$`
/// the whole of `s` is the one segment.
pub open spec fn split_dollar(s: Seq<char>) -> Seq<Seq<char>>
    decreases s.len(),
{
    let i = find_char(s, '$');
    if 0 <= i < s.len() {
        seq![s.take(i)] + split_dollar(s.skip(i + 1))
    } else {
        seq![s]
    }
}

/// Folds breaker subfield segments onto a field: empty segments are
/// skipped, a non-ASCII code character is an error, and otherwise the
/// first character is the code and the rest the unescaped content.
pub open spec fn parse_sfs(f: FieldV, segs: Seq<Seq<char>>) -> Result<FieldV, MarcErrV>
    decreases segs.len(),
{
    if segs.len() == 0 {
        Ok(f)
    } else {
        let seg = segs[0];
        if seg.len() == 0 {
            parse_sfs(f, segs.drop_first())
        } else if (seg[0] as u32) >= 128 {
            Err(MarcErrV::InvalidLength(seq![seg[0]]))
        } else {
            parse_sfs(
                FieldV {
                    sfs: f.sfs.push(
                        SubfieldV {
                            code: seq![seg[0]],
                            content: if seg.len() > 1 {
                                Some(unesc_breaker(seg.skip(1)))
                            } else {
                                None
                            },
                        },
                    ),
                    ..f
                },
                segs.drop_first(),
            )
        }
    }
}

/// How one breaker line extends a record: blank-ish lines are skipped,
/// `LDR ` lines set the leader, tags below `"010"` add a control field,
/// and anything else adds a data field.
pub open spec fn parse_breaker_line(rv: RecordV, line: Seq<char>) -> Result<RecordV, MarcErrV> {
    if line.len() < 3 {
        Ok(rv)
    } else {
        let tag = line.take(3);
        if tag == ldr_tag() {
            if line.len() > 4 {
                if leader_wf(line.skip(4)) {
                    Ok(RecordV { leader: Some(line.skip(4)), ..rv })
                } else {
                    Err(MarcErrV::InvalidLength(line.skip(4)))
                }
            } else {
                Ok(rv)
            }
        } else if seq_str_lt(tag, tag_bound()) {
            if tag_wf(tag) {
                Ok(
                    RecordV {
                        cfs: rv.cfs.push(
                            ControlfieldV {
                                tag: tag,
                                content: if line.len() > 4 {
                                    Some(unesc_breaker(line.skip(4)))
                                } else {
                                    None
                                },
                            },
                        ),
                        ..rv
                    },
                )
            } else {
                Err(MarcErrV::InvalidLength(tag))
            }
        } else {
            if tag_wf(tag) {
                let f0 = FieldV {
                    tag: tag,
                    ind1: if line.len() > 4 {
                        breaker_ind(line[4])
                    } else {
                        None
                    },
                    ind2: if line.len() > 5 {
                        breaker_ind(line[5])
                    } else {
                        None
                    },
                    sfs: Seq::empty(),
                };
                if line.len() > 6 {
                    match parse_sfs(f0, split_dollar(line.skip(6))) {
                        Ok(f) => Ok(RecordV { fields: rv.fields.push(f), ..rv }),
                        Err(e) => Err(e),
                    }
                } else {
                    Ok(RecordV { fields: rv.fields.push(f0), ..rv })
                }
            } else {
                Err(MarcErrV::InvalidLength(tag))
            }
        }
    }
}

/// A line with its terminating carriage return removed.
pub open spec fn strip_cr(l: Seq<char>) -> Seq<char> {
    if l.len() > 0 && l[l.len() - 1] == '\r' {
        l.take(l.len() - 1)
    } else {
        l
    }
}

/// Folds the remaining breaker text, line by line, onto a record.
pub open spec fn parse_breaker_from(rv: RecordV, s: Seq<char>) -> Result<RecordV, MarcErrV>
    decreases s.len(),
{
    if s.len() == 0 {
        Ok(rv)
    } else {
        let i = find_char(s, '\n');
        if 0 <= i < s.len() {
            match parse_breaker_line(rv, strip_cr(s.take(i))) {
                Ok(rv2) => parse_breaker_from(rv2, s.skip(i + 1)),
                Err(e) => Err(e),
            }
        } else {
            parse_breaker_line(rv, s)
        }
    }
}

/// What a whole breaker text parses to, starting from the empty record.
pub open spec fn parse_breaker(s: Seq<char>) -> Result<RecordV, MarcErrV> {
    parse_breaker_from(empty_record(), s)
}

impl Record {
    /// Builds a record from breaker text, line by line.
    pub fn from_breaker(breaker: &str) -> (r: Result<Self, MarcError>)
        ensures
            r matches Ok(rec) ==> parse_breaker(breaker@) matches Ok(v) && rec@ == v,
            r matches Err(e) ==> parse_breaker(breaker@) matches Err(v) && e@ == v,
    {
        let cs = str_chars(breaker);
        let mut record = Record::new();
        let mut i: usize = 0;
        proof {
            assert(cs@.skip(0) =~= cs@);
        }
        while i < cs.len()
            invariant
                i <= cs@.len(),
                cs@ == breaker@,
                parse_breaker_from(record@, cs@.skip(i as int)) == parse_breaker(breaker@),
            decreases cs@.len() - i,
        {
            let ghost s = cs@.skip(i as int);
            let nl = find_char_from(&cs, '\n', i);
            let text_end: usize = match nl {
                Some(k) => k,
                None => cs.len(),
            };
            let line_end: usize = if text_end > i && nl.is_some() {
                if cs[text_end - 1] == '\r' {
                    text_end - 1
                } else {
                    text_end
                }
            } else {
                text_end
            };
            let line = vec_range(&cs, i, line_end);
            proof {
                match nl {
                    Some(k) => {
                        assert(find_char(s, '\n') == k - i);
                        assert(s.take(k - i) =~= cs@.subrange(i as int, k as int));
                        assert(strip_cr(s.take(k - i)) =~= line@);
                        assert(s.skip(k - i + 1) =~= cs@.skip(k + 1));
                    },
                    None => {
                        assert(find_char(s, '\n') == -1);
                        assert(s =~= line@);
                    },
                }
            }
            match record.add_breaker_line(&line) {
                Ok(()) => {},
                Err(e) => {
                    return Err(e);
                },
            }
            match nl {
                Some(k) => {
                    i = k + 1;
                },
                None => {
                    i = cs.len();
                    proof {
                        assert(cs@.skip(cs@.len() as int) =~= Seq::<char>::empty());
                    }
                },
            }
        }
        proof {
            assert(cs@.skip(cs@.len() as int) =~= Seq::<char>::empty());
        }
        Ok(record)
    }

    /// Applies one line of breaker text to this record.
    #[verifier::loop_isolation(false)]
    fn add_breaker_line(&mut self, line: &Vec<char>) -> (r: Result<(), MarcError>)
        ensures
            r is Ok ==> (parse_breaker_line(old(self)@, line@) matches Ok(v) && final(self)@
                == v),
            r matches Err(e) ==> parse_breaker_line(old(self)@, line@) matches Err(v) && e@ == v,
    {
        if line.len() < 3 {
            return Ok(());
        }
        let tag_v = vec_range(line, 0, 3);
        proof {
            assert(tag_v@ =~= line@.take(3));
        }
        let mut ldr_v: Vec<char> = Vec::new();
        ldr_v.push('L');
        ldr_v.push('D');
        ldr_v.push('R');
        proof {
            assert(ldr_v@ =~= ldr_tag());
        }
        if chars_eq(&tag_v, &ldr_v) {
            if line.len() > 4 {
                let rest = vec_range(line, 4, line.len());
                proof {
                    assert(rest@ =~= line@.skip(4));
                }
                let content = chars_to_string(&rest);
                match self.set_leader(content.as_str()) {
                    Ok(()) => {
                        proof {
                            let v = parse_breaker_line(old(self)@, line@)->Ok_0;
                            assert(self@ =~= v);
                        }
                        return Ok(());
                    },
                    Err(e) => {
                        return Err(e);
                    },
                }
            }
            return Ok(());
        }
        let mut bound_v: Vec<char> = Vec::new();
        bound_v.push('0');
        bound_v.push('1');
        bound_v.push('0');
        proof {
            assert(bound_v@ =~= tag_bound());
        }
        let tag_s = chars_to_string(&tag_v);
        if chars_lt(&tag_v, &bound_v) {
            let mut cf = match Controlfield::new(tag_s.as_str()) {
                Ok(c) => c,
                Err(e) => {
                    return Err(e);
                },
            };
            if line.len() > 4 {
                let rest = vec_range(line, 4, line.len());
                proof {
                    assert(rest@ =~= line@.skip(4));
                }
                let raw = chars_to_string(&rest);
                let un = unescape_from_breaker(raw.as_str());
                cf.set_content(un.as_str());
            }
            self.control_fields.push(cf);
            proof {
                let v = parse_breaker_line(old(self)@, line@)->Ok_0;
                assert(self@.cfs =~= old(self)@.cfs.push(cf@));
                assert(self@ =~= v);
            }
            return Ok(());
        }
        let mut field = match Field::new(tag_s.as_str()) {
            Ok(f) => f,
            Err(e) => {
                return Err(e);
            },
        };
        if line.len() > 4 {
            let c = line[4];
            if c != '\\' {
                if (c as u32) < 128 {
                    proof {
                        lemma_byte_len_char(c);
                    }
                    let mut cstr = String::new();
                    push_char(&mut cstr, c);
                    let _ = field.set_ind1(cstr.as_str());
                    proof {
                        assert(field@.ind1 == norm_ind(seq![c]));
                        assert(norm_ind(seq![c]) == breaker_ind(line@[4]));
                    }
                } else {
                    proof {
                        assert(field@.ind1 == breaker_ind(line@[4]));
                    }
                }
            }
        }
        if line.len() > 5 {
            let c = line[5];
            if c != '\\' {
                if (c as u32) < 128 {
                    proof {
                        lemma_byte_len_char(c);
                    }
                    let mut cstr = String::new();
                    push_char(&mut cstr, c);
                    let _ = field.set_ind2(cstr.as_str());
                    proof {
                        assert(field@.ind2 == norm_ind(seq![c]));
                        assert(norm_ind(seq![c]) == breaker_ind(line@[5]));
                    }
                } else {
                    proof {
                        assert(field@.ind2 == breaker_ind(line@[5]));
                    }
                }
            }
        }
        let ghost f0 = field@;
        proof {
            assert(f0 == (FieldV {
                tag: line@.take(3),
                ind1: if line@.len() > 4 {
                    breaker_ind(line@[4])
                } else {
                    None
                },
                ind2: if line@.len() > 5 {
                    breaker_ind(line@[5])
                } else {
                    None
                },
                sfs: Seq::empty(),
            }));
        }
        if line.len() > 6 {
            let mut pos: usize = 6;
            let mut done = false;
            while !done
                invariant
                    6 <= pos,
                    !done ==> pos <= line@.len(),
                    !done ==> parse_sfs(field@, split_dollar(line@.skip(pos as int))) == parse_sfs(
                        f0,
                        split_dollar(line@.skip(6)),
                    ),
                    done ==> Ok::<FieldV, MarcErrV>(field@) == parse_sfs(
                        f0,
                        split_dollar(line@.skip(6)),
                    ),
                    field@.tag == f0.tag,
                    field@.ind1 == f0.ind1,
                    field@.ind2 == f0.ind2,
                decreases (if done {
                    0int
                } else {
                    line@.len() - pos + 1int
                }),
            {
                let linelen = line.len();
                let ghost s = line@.skip(pos as int);
                let nd = find_char_from(line, '$', pos);
                let seg_end: usize = match nd {
                    Some(k) => k,
                    None => linelen,
                };
                proof {
                    match nd {
                        Some(k) => {
                            assert(find_char(s, '$') == k - pos);
                            assert(split_dollar(s) == seq![s.take(k - pos)] + split_dollar(
                                s.skip(k - pos + 1),
                            ));
                            assert(s.take(k - pos) =~= line@.subrange(pos as int, k as int));
                            assert(s.skip(k - pos + 1) =~= line@.skip(k + 1));
                            assert(split_dollar(s)[0] =~= line@.subrange(pos as int, k as int));
                            assert(split_dollar(s).drop_first() =~= split_dollar(line@.skip(k + 1)));
                        },
                        None => {
                            assert(find_char(s, '$') == -1);
                            assert(split_dollar(s) == seq![s]);
                            assert(split_dollar(s)[0] =~= line@.subrange(
                                pos as int,
                                line@.len() as int,
                            ));
                            assert(split_dollar(s).drop_first() =~= Seq::<Seq<char>>::empty());
                        },
                    }
                }
                if seg_end > pos {
                    let c0 = line[pos];
                    if c0 as u32 >= 128 {
                        let mut cstr = String::new();
                        push_char(&mut cstr, c0);
                        proof {
                            assert(split_dollar(s)[0][0] == c0);
                            assert(parse_sfs(field@, split_dollar(s)) == Err::<FieldV, MarcErrV>(
                                MarcErrV::InvalidLength(seq![c0]),
                            ));
                            assert(parse_breaker_line(old(self)@, line@) matches Err(v) && v
                                == MarcErrV::InvalidLength(seq![c0]));
                        }
                        return Err(MarcError::InvalidLength(cstr));
                    }
                    proof {
                        lemma_byte_len_char(c0);
                    }
                    let mut cstr = String::new();
                    push_char(&mut cstr, c0);
                    let mut sf = match Subfield::new(cstr.as_str()) {
                        Ok(sf) => sf,
                        Err(e) => {
                            return Err(e);
                        },
                    };
                    if seg_end - pos > 1 {
                        let rest = vec_range(line, pos + 1, seg_end);
                        proof {
                            assert(rest@ =~= split_dollar(s)[0].skip(1));
                        }
                        let raw = chars_to_string(&rest);
                        let un = unescape_from_breaker(raw.as_str());
                        sf.set_content(un.as_str());
                    }
                    let ghost field_before = field@;
                    field.subfields.push(sf);
                    proof {
                        assert(field@.sfs =~= field_before.sfs.push(sf@));
                        assert(sf@ =~= (SubfieldV {
                            code: seq![split_dollar(s)[0][0]],
                            content: if split_dollar(s)[0].len() > 1 {
                                Some(unesc_breaker(split_dollar(s)[0].skip(1)))
                            } else {
                                None
                            },
                        }));
                        assert(field@ =~= (FieldV { sfs: field_before.sfs.push(sf@), ..field_before }));
                        assert(parse_sfs(field_before, split_dollar(s)) == parse_sfs(
                            field@,
                            split_dollar(s).drop_first(),
                        ));
                    }
                } else {
                    proof {
                        assert(split_dollar(s)[0].len() == 0);
                        assert(parse_sfs(field@, split_dollar(s)) == parse_sfs(
                            field@,
                            split_dollar(s).drop_first(),
                        ));
                    }
                }
                match nd {
                    Some(k) => {
                        pos = k + 1;
                    },
                    None => {
                        done = true;
                        proof {
                            assert(parse_sfs(field@, Seq::<Seq<char>>::empty()) == Ok::<
                                FieldV,
                                MarcErrV,
                            >(field@));
                        }
                    },
                }
            }
        }
        self.fields.push(field);
        proof {
            let v = parse_breaker_line(old(self)@, line@)->Ok_0;
            assert(self@.fields =~= old(self)@.fields.push(field@));
            if line@.len() > 6 {
                assert(parse_sfs(f0, split_dollar(line@.skip(6))) == Ok::<FieldV, MarcErrV>(
                    field@,
                ));
            }
            assert(self@ =~= v);
        }
        Ok(())
    }
}



/// Escaping never shortens text.
pub proof fn lemma_esc_len_ge(c: Seq<char>)
    ensures
        esc_breaker(c).len() >= c.len(),
    decreases c.len(),
{
    if c.len() > 0 {
        lemma_esc_len_ge(c.drop_first());
    }
}

/// Escaped text never contains a dollar sign.
pub proof fn lemma_esc_no_dollar(c: Seq<char>)
    ensures
        forall|j: int| 0 <= j < esc_breaker(c).len() ==> #[trigger] esc_breaker(c)[j] != '$',
    decreases c.len(),
{
    if c.len() > 0 {
        lemma_esc_no_dollar(c.drop_first());
        let head = if c[0] == '$' {
            dollar_esc()
        } else {
            seq![c[0]]
        };
        assert forall|j: int|
            0 <= j < esc_breaker(c).len() implies #[trigger] esc_breaker(c)[j] != '$' by {
            if j < head.len() {
                assert(esc_breaker(c)[j] == head[j]);
            } else {
                assert(esc_breaker(c)[j] == esc_breaker(c.drop_first())[j - head.len()]);
            }
        }
    }
}

/// Escaping keeps out any character that the input lacks, other than
/// those of the escape text itself.
pub proof fn lemma_esc_keeps_absent(c: Seq<char>, x: char)
    requires
        forall|j: int| 0 <= j < c.len() ==> c[j] != x,
        !dollar_esc().contains(x),
    ensures
        forall|j: int| 0 <= j < esc_breaker(c).len() ==> #[trigger] esc_breaker(c)[j] != x,
    decreases c.len(),
{
    if c.len() > 0 {
        assert(forall|j: int| 0 <= j < c.drop_first().len() ==> c.drop_first()[j] != x);
        lemma_esc_keeps_absent(c.drop_first(), x);
        let head = if c[0] == '$' {
            dollar_esc()
        } else {
            seq![c[0]]
        };
        assert(forall|j: int| 0 <= j < head.len() ==> #[trigger] head[j] != x) by {
            if c[0] == '$' {
                assert(forall|j: int|
                    0 <= j < dollar_esc().len() ==> dollar_esc().contains(#[trigger] dollar_esc()[j]));
            }
        }
        assert forall|j: int|
            0 <= j < esc_breaker(c).len() implies #[trigger] esc_breaker(c)[j] != x by {
            if j < head.len() {
                assert(esc_breaker(c)[j] == head[j]);
            } else {
                assert(esc_breaker(c)[j] == esc_breaker(c.drop_first())[j - head.len()]);
            }
        }
    }
}

/// Text without dollar signs escapes to itself.
pub proof fn lemma_esc_id(c: Seq<char>)
    requires
        forall|j: int| 0 <= j < c.len() ==> c[j] != '$',
    ensures
        esc_breaker(c) == c,
    decreases c.len(),
{
    if c.len() > 0 {
        assert(c[0] != '$');
        assert(forall|j: int| 0 <= j < c.drop_first().len() ==> c.drop_first()[j] != '$');
        lemma_esc_id(c.drop_first());
        assert(esc_breaker(c) =~= c);
    }
}

/// Whether the escape text occurs anywhere in `c` as a literal.
pub open spec fn has_dollar_esc(c: Seq<char>) -> bool {
    exists|i: int| 0 <= i && i + 8 <= c.len() && #[trigger] c.subrange(i, i + 8) == dollar_esc()
}

/// A dollar-free, brace-free prefix of escaped text is a literal prefix
/// of the unescaped text.
pub proof fn lemma_esc_prefix_lit(x: Seq<char>, w: Seq<char>)
    requires
        forall|j: int| 0 <= j < w.len() ==> w[j] != '$' && #[trigger] w[j] != '{',
        w.len() <= esc_breaker(x).len(),
        esc_breaker(x).take(w.len() as int) == w,
    ensures
        x.len() >= w.len(),
        x.take(w.len() as int) == w,
        esc_breaker(x.skip(w.len() as int)) == esc_breaker(x).skip(w.len() as int),
    decreases w.len(),
{
    if w.len() == 0 {
        assert(x.take(0) =~= w);
        assert(x.skip(0) =~= x);
        assert(esc_breaker(x).skip(0) =~= esc_breaker(x));
    } else {
        assert(x.len() > 0) by {
            if x.len() == 0 {
                assert(esc_breaker(x).len() == 0);
            }
        }
        let w0 = w[0];
        assert(w0 != '{' && w0 != '$');
        assert(esc_breaker(x)[0] == w0);
        assert(x[0] != '$') by {
            if x[0] == '$' {
                assert(esc_breaker(x)[0] == dollar_esc()[0]);
            }
        }
        assert(esc_breaker(x) == seq![x[0]] + esc_breaker(x.drop_first()));
        assert(x[0] == w0);
        let w2 = w.drop_first();
        let x2 = x.drop_first();
        assert(forall|j: int| 0 <= j < w2.len() ==> w2[j] != '$' && #[trigger] w2[j] != '{') by {
            assert(forall|j: int| 0 <= j < w2.len() ==> w2[j] == w[j + 1]);
        }
        assert(esc_breaker(x2).take(w2.len() as int) =~= w2) by {
            assert(forall|j: int|
                0 <= j < esc_breaker(x2).len() ==> #[trigger] esc_breaker(x2)[j] == esc_breaker(
                    x,
                )[j + 1]);
        }
        lemma_esc_prefix_lit(x2, w2);
        assert forall|j: int| 0 <= j < w.len() implies x.take(w.len() as int)[j] == w[j] by {
            if j > 0 {
                assert(x.take(w.len() as int)[j] == x2[j - 1]);
                assert(x2.take(w2.len() as int)[j - 1] == x2[j - 1]);
                assert(w2[j - 1] == w[j]);
            }
        }
        assert(x.take(w.len() as int) =~= w);
        assert(x2.skip(w2.len() as int) =~= x.skip(w.len() as int));
        assert(esc_breaker(x2).skip(w2.len() as int) =~= esc_breaker(x).skip(w.len() as int));
    }
}

/// Unescaping undoes escaping, as long as the original text does not
/// itself contain the literal escape text.
pub proof fn lemma_unesc_esc_id(c: Seq<char>)
    requires
        !has_dollar_esc(c),
    ensures
        unesc_breaker(esc_breaker(c)) == c,
    decreases c.len(),
{
    if c.len() == 0 {
        assert(esc_breaker(c) =~= Seq::<char>::empty());
    } else {
        let rest = c.drop_first();
        assert(!has_dollar_esc(rest)) by {
            if has_dollar_esc(rest) {
                let i = choose|i: int|
                    0 <= i && i + 8 <= rest.len() && #[trigger] rest.subrange(i, i + 8)
                        == dollar_esc();
                assert(c.subrange(i + 1, i + 9) =~= rest.subrange(i, i + 8));
                let i2 = i + 1;
                assert(c.subrange(i2, i2 + 8) == c.subrange(i + 1, i + 9));
                assert(0 <= i2 && i2 + 8 <= c.len() && c.subrange(i2, i2 + 8) == dollar_esc());
                assert(has_dollar_esc(c));
            }
        }
        lemma_unesc_esc_id(rest);
        let e = esc_breaker(c);
        if c[0] == '$' {
            assert(e == dollar_esc() + esc_breaker(rest));
            assert(e.len() >= 8);
            assert(e.take(8) =~= dollar_esc());
            assert(e.skip(8) =~= esc_breaker(rest));
            assert(unesc_breaker(e) == seq!['$'] + unesc_breaker(esc_breaker(rest)));
            assert(unesc_breaker(e) =~= c);
        } else {
            assert(e == seq![c[0]] + esc_breaker(rest));
            if e.len() >= 8 && e.take(8) == dollar_esc() {
                assert(e[0] == '{');
                assert(c[0] == '{');
                let w = dollar_esc().drop_first();
                assert(forall|j: int| 0 <= j < w.len() ==> w[j] != '$' && #[trigger] w[j] != '{')
                    by {
                    assert(forall|j: int| 0 <= j < w.len() ==> w[j] == dollar_esc()[j + 1]);
                }
                assert(esc_breaker(rest).take(7) =~= w) by {
                    assert(forall|j: int|
                        0 <= j < esc_breaker(rest).len() ==> #[trigger] esc_breaker(rest)[j]
                            == e[j + 1]);
                }
                assert(w.len() <= esc_breaker(rest).len()) by {
                    assert(e.len() == 1 + esc_breaker(rest).len());
                }
                lemma_esc_prefix_lit(rest, w);
                assert(rest.take(7) == w);
                assert(c.subrange(0, 8) =~= dollar_esc()) by {
                    assert(forall|j: int| 1 <= j < 8 ==> c[j] == rest[j - 1]);
                    assert(forall|j: int| 0 <= j < 7 ==> rest[j] == rest.take(7)[j]);
                }
                let i0: int = 0;
                assert(c.subrange(i0, i0 + 8) == c.subrange(0, 8));
                assert(0 <= i0 && i0 + 8 <= c.len() && c.subrange(i0, i0 + 8) == dollar_esc());
                assert(has_dollar_esc(c));
                assert(false);
            }
            assert(e[0] == c[0]);
            assert(e.drop_first() =~= esc_breaker(rest));
            assert(unesc_breaker(e) == seq![c[0]] + unesc_breaker(esc_breaker(rest)));
            assert(unesc_breaker(e) =~= c);
        }
    }
}


/// A present piece of content that survives the breaker round trip:
/// non-empty, free of line breaks, and without the literal escape text.
pub open spec fn content_safe(c: Seq<char>) -> bool {
    &&& c.len() > 0
    &&& !has_dollar_esc(c)
    &&& forall|j: int| 0 <= j < c.len() ==> c[j] != '\n' && #[trigger] c[j] != '\r'
}

/// A tag that survives the breaker round trip: ASCII (so its three
/// bytes are three characters) and free of line breaks.
pub open spec fn tag_safe(t: Seq<char>) -> bool {
    &&& vstd::utf8::is_ascii_chars(t)
    &&& forall|j: int| 0 <= j < t.len() ==> t[j] != '\n' && #[trigger] t[j] != '\r'
}

/// An indicator that survives the breaker round trip: not the absence
/// mark itself and not a line break.
pub open spec fn ind_safe(i: Option<Seq<char>>) -> bool {
    match i {
        Some(s) => s != seq!['\\'] && forall|j: int|
            0 <= j < s.len() ==> s[j] != '\n' && #[trigger] s[j] != '\r',
        None => true,
    }
}

/// Subfields that survive the breaker round trip.
pub open spec fn sfs_breaker_safe(sfs: Seq<SubfieldV>) -> bool {
    forall|k: int|
        0 <= k < sfs.len() ==> (#[trigger] sfs[k]).code != seq!['$'] && (forall|j: int|
            0 <= j < sfs[k].code.len() ==> sfs[k].code[j] != '\n' && #[trigger] sfs[k].code[j]
                != '\r') && (sfs[k].content matches Some(c) ==> content_safe(c))
}

/// Safety conditions for the breaker round trip.
pub open spec fn breaker_round_trip_safe(r: RecordV) -> bool {
    &&& match r.leader {
        Some(l) => forall|j: int|
            0 <= j < l.len() ==> l[j] != '$' && l[j] != '\n' && #[trigger] l[j] != '\r',
        None => true,
    }
    &&& forall|i: int|
        0 <= i < r.cfs.len() ==> tag_safe(#[trigger] r.cfs[i].tag) && seq_str_lt(
            r.cfs[i].tag,
            tag_bound(),
        ) && (r.cfs[i].content matches Some(c) ==> content_safe(c))
    &&& forall|i: int|
        0 <= i < r.fields.len() ==> tag_safe(#[trigger] r.fields[i].tag) && !seq_str_lt(
            r.fields[i].tag,
            tag_bound(),
        ) && r.fields[i].tag != ldr_tag() && ind_safe(r.fields[i].ind1) && ind_safe(
            r.fields[i].ind2,
        ) && sfs_breaker_safe(r.fields[i].sfs)
}

/// The escape text contains neither line breaks nor dollar signs.
pub proof fn lemma_dollar_esc_chars()
    ensures
        !dollar_esc().contains('\n'),
        !dollar_esc().contains('\r'),
{
    assert forall|i: int| 0 <= i < dollar_esc().len() implies dollar_esc()[i] != '\n'
        && dollar_esc()[i] != '\r' by {
    }
    if dollar_esc().contains('\n') {
        let i = choose|i: int| 0 <= i < dollar_esc().len() && dollar_esc()[i] == '\n';
        assert(false);
    }
    if dollar_esc().contains('\r') {
        let i = choose|i: int| 0 <= i < dollar_esc().len() && dollar_esc()[i] == '\r';
        assert(false);
    }
}

/// Folding the breaker segments of a subfield list back recovers the
/// subfields exactly.
#[verifier::rlimit(100)]
pub proof fn lemma_brk_sfs_fold(f: FieldV, sfs: Seq<SubfieldV>)
    requires
        forall|k: int| 0 <= k < sfs.len() ==> crate::record::sf_wf(#[trigger] sfs[k]),
        sfs_breaker_safe(sfs),
    ensures
        parse_sfs(f, split_dollar(sfs_breaker(sfs))) == Ok::<FieldV, MarcErrV>(
            (FieldV { sfs: f.sfs + sfs, ..f }),
        ),
    decreases sfs.len(),
{
    let text = sfs_breaker(sfs);
    if sfs.len() == 0 {
        assert(text =~= Seq::<char>::empty());
        crate::text::lemma_find_char_none(text, '$');
        assert(split_dollar(text) == seq![text]);
        assert(split_dollar(text)[0].len() == 0);
        assert(split_dollar(text).drop_first() =~= Seq::<Seq<char>>::empty());
        assert(parse_sfs(f, split_dollar(text)) == parse_sfs(f, split_dollar(text).drop_first()));
        assert(f.sfs + sfs =~= f.sfs);
        assert((FieldV { sfs: f.sfs + sfs, ..f }) =~= f);
    } else {
        let sf0 = sfs[0];
        let code = sf0.code;
        let ec = match sf0.content {
            Some(c) => esc_breaker(c),
            None => Seq::<char>::empty(),
        };
        let rest = sfs.drop_first();
        let rest_text = sfs_breaker(rest);
        let seg = code + ec;
        assert(sf_breaker(sf0) == seq!['$'] + code + ec);
        assert(text == sf_breaker(sf0) + rest_text);
        assert(text =~= seq!['$'] + (seg + rest_text));
        crate::record::lemma_byte_len_single(code);
        assert(code.len() == 1 && (code[0] as u32) < 128);
        assert(code[0] != '$') by {
            if code[0] == '$' {
                assert(code =~= seq!['$']);
            }
        }
        assert(forall|j: int| 0 <= j < ec.len() ==> #[trigger] ec[j] != '$') by {
            match sf0.content {
                Some(c) => {
                    lemma_esc_no_dollar(c);
                },
                None => {},
            }
        }
        // The delimiter heads the text.
        assert(text[0] == '$');
        crate::text::lemma_find_char_is_first(text, '$', 0);
        assert(split_dollar(text) == seq![text.take(0)] + split_dollar(text.skip(1)));
        assert(text.skip(1) =~= seg + rest_text);
        assert(split_dollar(text)[0].len() == 0);
        assert(split_dollar(text).drop_first() =~= split_dollar(seg + rest_text));
        assert(parse_sfs(f, split_dollar(text)) == parse_sfs(f, split_dollar(seg + rest_text)));

        let st = seg + rest_text;
        assert(forall|j: int| 0 <= j < seg.len() ==> #[trigger] st[j] != '$') by {
            assert(forall|j: int| 0 <= j < seg.len() ==> st[j] == seg[j]);
            assert(seg[0] == code[0]);
            assert(forall|j: int| 1 <= j < seg.len() ==> seg[j] == ec[j - 1]);
        }
        let tailsegs = if rest.len() == 0 {
            Seq::<Seq<char>>::empty()
        } else {
            split_dollar(rest_text.skip(1))
        };
        if rest.len() == 0 {
            assert(rest_text =~= Seq::<char>::empty());
            assert(st =~= seg);
            crate::text::lemma_find_char_none(st, '$');
            assert(split_dollar(st) == seq![st]);
            assert(split_dollar(st) =~= seq![seg] + tailsegs);
            assert(parse_sfs(f, split_dollar(sfs_breaker(rest))) == Ok::<FieldV, MarcErrV>(
                (FieldV { sfs: f.sfs + rest, ..f }),
            )) by {
                assert(forall|k: int|
                    0 <= k < rest.len() ==> crate::record::sf_wf(#[trigger] rest[k]));
                assert(sfs_breaker_safe(rest)) by {
                    assert(forall|k: int| 0 <= k < rest.len() ==> rest[k] == sfs[k + 1]);
                }
                lemma_brk_sfs_fold(f, rest);
            }
        } else {
            assert(rest_text.len() > 0 && rest_text[0] == '$') by {
                assert(rest_text == sf_breaker(rest[0]) + sfs_breaker(rest.drop_first()));
                assert(sf_breaker(rest[0])[0] == '$');
            }
            assert(st[seg.len() as int] == '$');
            crate::text::lemma_find_char_is_first(st, '$', seg.len() as int);
            assert(split_dollar(st) == seq![st.take(seg.len() as int)] + split_dollar(
                st.skip(seg.len() + 1int),
            ));
            assert(st.take(seg.len() as int) =~= seg);
            assert(st.skip(seg.len() + 1int) =~= rest_text.skip(1));
            crate::text::lemma_find_char_is_first(rest_text, '$', 0);
            assert(split_dollar(rest_text) == seq![rest_text.take(0)] + split_dollar(
                rest_text.skip(1),
            ));
            assert(split_dollar(st) =~= seq![seg] + tailsegs);
        }

        // Folding the first segment pushes exactly the first subfield.
        let segs = seq![seg] + tailsegs;
        assert(segs[0] == seg);
        assert(seg.len() > 0);
        assert(seg[0] == code[0]);
        assert((seg[0] as u32) < 128);
        let pushed = SubfieldV {
            code: seq![seg[0]],
            content: if seg.len() > 1 {
                Some(unesc_breaker(seg.skip(1)))
            } else {
                None
            },
        };
        assert(seq![seg[0]] =~= code);
        assert(seg.skip(1) =~= ec);
        assert(pushed =~= sf0) by {
            match sf0.content {
                Some(c) => {
                    assert(content_safe(c));
                    lemma_esc_len_ge(c);
                    assert(ec.len() >= c.len() > 0);
                    assert(seg.len() > 1);
                    lemma_unesc_esc_id(c);
                },
                None => {
                    assert(ec.len() == 0);
                    assert(seg.len() == 1);
                },
            }
        }
        let f2 = FieldV { sfs: f.sfs.push(sf0), ..f };
        assert(segs.drop_first() =~= tailsegs);
        assert(parse_sfs(f, segs) == parse_sfs(f2, tailsegs));
        assert(forall|k: int| 0 <= k < rest.len() ==> crate::record::sf_wf(#[trigger] rest[k])
            && rest[k] == sfs[k + 1]);
        assert(sfs_breaker_safe(rest)) by {
            assert(forall|k: int| 0 <= k < rest.len() ==> rest[k] == sfs[k + 1]);
        }
        lemma_brk_sfs_fold(f2, rest);
        if rest.len() == 0 {
            assert(tailsegs =~= Seq::<Seq<char>>::empty());
            assert(parse_sfs(f2, tailsegs) == Ok::<FieldV, MarcErrV>(f2));
            assert(f2.sfs =~= f.sfs + sfs);
            assert(f2 =~= (FieldV { sfs: f.sfs + sfs, ..f }));
        } else {
            assert(split_dollar(sfs_breaker(rest)).drop_first() =~= tailsegs);
            assert(split_dollar(sfs_breaker(rest))[0].len() == 0);
            assert(parse_sfs(f2, split_dollar(sfs_breaker(rest))) == parse_sfs(f2, tailsegs));
            assert(f2.sfs + rest =~= f.sfs + sfs);
            assert((FieldV { sfs: f2.sfs + rest, ..f2 }) =~= (FieldV { sfs: f.sfs + sfs, ..f }));
        }
    }
}


/// A line with no line-break characters in it.
pub open spec fn clean_line(l: Seq<char>) -> bool {
    forall|j: int| 0 <= j < l.len() ==> l[j] != '\n' && #[trigger] l[j] != '\r'
}

/// A well-formed, safe indicator emits one clean character that decodes
/// back to it.
pub proof fn lemma_ind_breaker_props(i: Option<Seq<char>>)
    requires
        crate::record::ind_wf(i),
        ind_safe(i),
    ensures
        ind_breaker(i).len() == 1,
        breaker_ind(ind_breaker(i)[0]) == i,
        ind_breaker(i)[0] != '\n' && ind_breaker(i)[0] != '\r',
{
    match i {
        Some(s) => {
            crate::record::lemma_byte_len_single(s);
            assert(ind_breaker(i) =~= s);
            assert(s =~= seq![s[0]]);
            assert(s[0] != '\\') by {
                if s[0] == '\\' {
                    assert(s =~= seq!['\\']);
                }
            }
            assert(s[0] != ' ') by {
                if s[0] == ' ' {
                    assert(s =~= seq![' ']);
                }
            }
            assert(breaker_ind(s[0]) == Some(seq![s[0]]));
        },
        None => {
            assert(ind_breaker(i) =~= seq!['\\']);
        },
    }
}

/// The breaker text of safe subfields contains no line breaks.
pub proof fn lemma_sfs_breaker_clean(sfs: Seq<SubfieldV>)
    requires
        sfs_breaker_safe(sfs),
    ensures
        clean_line(sfs_breaker(sfs)),
    decreases sfs.len(),
{
    if sfs.len() > 0 {
        let head = sf_breaker(sfs[0]);
        assert(sfs_breaker_safe(sfs.drop_first())) by {
            assert(forall|k: int|
                0 <= k < sfs.drop_first().len() ==> sfs.drop_first()[k] == sfs[k + 1]);
        }
        lemma_sfs_breaker_clean(sfs.drop_first());
        let ec = match sfs[0].content {
            Some(c) => esc_breaker(c),
            None => Seq::<char>::empty(),
        };
        assert(clean_line(ec)) by {
            match sfs[0].content {
                Some(c) => {
                    lemma_dollar_esc_chars();
                    lemma_esc_keeps_absent(c, '\n');
                    lemma_esc_keeps_absent(c, '\r');
                },
                None => {},
            }
        }
        assert(head == seq!['$'] + sfs[0].code + ec);
        assert(clean_line(head)) by {
            assert(forall|j: int|
                1 <= j < 1 + sfs[0].code.len() ==> head[j] == sfs[0].code[j - 1]);
            assert(forall|j: int|
                1 + sfs[0].code.len() <= j < head.len() ==> head[j] == ec[j - 1
                    - sfs[0].code.len()]);
        }
        assert(sfs_breaker(sfs) == head + sfs_breaker(sfs.drop_first()));
        assert forall|j: int|
            0 <= j < sfs_breaker(sfs).len() implies sfs_breaker(sfs)[j] != '\n'
            && #[trigger] sfs_breaker(sfs)[j] != '\r' by {
            if j < head.len() {
                assert(sfs_breaker(sfs)[j] == head[j]);
            } else {
                assert(sfs_breaker(sfs)[j] == sfs_breaker(sfs.drop_first())[j - head.len()]);
            }
        }
    }
}

/// A safe control field's line parses back to exactly that field.
#[verifier::rlimit(100)]
pub proof fn lemma_cf_line(rv: RecordV, cf: ControlfieldV)
    requires
        crate::record::cf_wf(cf),
        tag_safe(cf.tag),
        seq_str_lt(cf.tag, tag_bound()),
        cf.content matches Some(c) ==> content_safe(c),
    ensures
        parse_breaker_line(rv, cf_breaker(cf)) == Ok::<RecordV, MarcErrV>(
            (RecordV { cfs: rv.cfs.push(cf), ..rv }),
        ),
        clean_line(cf_breaker(cf)),
{
    let tag = cf.tag;
    crate::record::lemma_ascii_byte_len(tag);
    assert(tag.len() == 3);
    assert(tag != ldr_tag()) by {
        if tag == ldr_tag() {
            assert(('L' as u32) > ('0' as u32));
            assert(!seq_str_lt(ldr_tag(), tag_bound()));
        }
    }
    let line = cf_breaker(cf);
    match cf.content {
        Some(c) => {
            assert(line == tag + seq![' '] + esc_breaker(c));
            lemma_esc_len_ge(c);
            assert(line.len() >= 5);
            assert(line.take(3) =~= tag);
            assert(line.skip(4) =~= esc_breaker(c));
            lemma_unesc_esc_id(c);
            let built = ControlfieldV { tag: line.take(3), content: Some(unesc_breaker(line.skip(4))) };
            assert(built =~= cf);
            assert(parse_breaker_line(rv, line) == Ok::<RecordV, MarcErrV>(
                (RecordV { cfs: rv.cfs.push(built), ..rv }),
            ));
            assert(clean_line(line)) by {
                lemma_dollar_esc_chars();
                lemma_esc_keeps_absent(c, '\n');
                lemma_esc_keeps_absent(c, '\r');
                assert(forall|j: int| 0 <= j < 3 ==> line[j] == tag[j]);
                assert(line[3] == ' ');
                assert(forall|j: int| 4 <= j < line.len() ==> line[j] == esc_breaker(c)[j - 4]);
            }
        },
        None => {
            assert(line == tag);
            assert(line.len() == 3);
            assert(line.take(3) =~= tag);
            let built = ControlfieldV { tag: line.take(3), content: None };
            assert(built =~= cf);
            assert(parse_breaker_line(rv, line) == Ok::<RecordV, MarcErrV>(
                (RecordV { cfs: rv.cfs.push(built), ..rv }),
            ));
        },
    }
}

/// A safe data field's line parses back to exactly that field.
#[verifier::rlimit(100)]
pub proof fn lemma_field_line(rv: RecordV, f: FieldV)
    requires
        crate::record::field_wf(f),
        tag_safe(f.tag),
        !seq_str_lt(f.tag, tag_bound()),
        f.tag != ldr_tag(),
        ind_safe(f.ind1),
        ind_safe(f.ind2),
        sfs_breaker_safe(f.sfs),
    ensures
        parse_breaker_line(rv, field_breaker(f)) == Ok::<RecordV, MarcErrV>(
            (RecordV { fields: rv.fields.push(f), ..rv }),
        ),
        clean_line(field_breaker(f)),
{
    let tag = f.tag;
    crate::record::lemma_ascii_byte_len(tag);
    assert(tag.len() == 3);
    let ib1 = ind_breaker(f.ind1);
    let ib2 = ind_breaker(f.ind2);
    lemma_ind_breaker_props(f.ind1);
    lemma_ind_breaker_props(f.ind2);
    let stext = sfs_breaker(f.sfs);
    let line = field_breaker(f);
    assert(line == tag + seq![' '] + ib1 + ib2 + stext);
    assert(line.len() == 6 + stext.len());
    assert(line.take(3) =~= tag);
    assert(line[4] == ib1[0]);
    assert(line[5] == ib2[0]);
    lemma_sfs_breaker_clean(f.sfs);
    assert(clean_line(line)) by {
        assert(forall|j: int| 0 <= j < 3 ==> line[j] == tag[j]);
        assert(line[3] == ' ');
        assert(forall|j: int| 6 <= j < line.len() ==> line[j] == stext[j - 6]);
    }
    let f0 = FieldV {
        tag: line.take(3),
        ind1: breaker_ind(line[4]),
        ind2: breaker_ind(line[5]),
        sfs: Seq::empty(),
    };
    assert(f0.ind1 == f.ind1);
    assert(f0.ind2 == f.ind2);
    if f.sfs.len() == 0 {
        assert(stext =~= Seq::<char>::empty());
        assert(line.len() == 6);
        assert(f0 =~= f);
        assert(parse_breaker_line(rv, line) == Ok::<RecordV, MarcErrV>(
            (RecordV { fields: rv.fields.push(f0), ..rv }),
        ));
    } else {
        assert(stext.len() > 0) by {
            assert(stext == sf_breaker(f.sfs[0]) + sfs_breaker(f.sfs.drop_first()));
            assert(sf_breaker(f.sfs[0]).len() >= 1);
        }
        assert(line.len() > 6);
        assert(line.skip(6) =~= stext);
        assert(forall|k: int| 0 <= k < f.sfs.len() ==> crate::record::sf_wf(#[trigger] f.sfs[k]));
        lemma_brk_sfs_fold(f0, f.sfs);
        assert(f0.sfs + f.sfs =~= f.sfs);
        assert((FieldV { sfs: f0.sfs + f.sfs, ..f0 }) =~= f);
        assert(parse_breaker_line(rv, line) == Ok::<RecordV, MarcErrV>(
            (RecordV { fields: rv.fields.push(f), ..rv }),
        ));
    }
}

/// A safe leader's line parses back to exactly that leader.
pub proof fn lemma_leader_line(rv: RecordV, l: Seq<char>)
    requires
        leader_wf(l),
        forall|j: int| 0 <= j < l.len() ==> l[j] != '$' && l[j] != '\n' && #[trigger] l[j] != '\r',
    ensures
        parse_breaker_line(rv, leader_breaker(l)) == Ok::<RecordV, MarcErrV>(
            (RecordV { leader: Some(l), ..rv }),
        ),
        clean_line(leader_breaker(l)),
{
    lemma_esc_id(l);
    let line = leader_breaker(l);
    assert(line == ldr_tag() + seq![' '] + l);
    assert(l.len() > 0) by {
        if l.len() == 0 {
            assert(byte_len(l) == 0);
        }
    }
    assert(line.len() >= 5);
    assert(line.take(3) =~= ldr_tag());
    assert(line.skip(4) =~= l);
    assert(clean_line(line)) by {
        assert(forall|j: int| 4 <= j < line.len() ==> line[j] == l[j - 4]);
        assert(line[0] == 'L' && line[1] == 'D' && line[2] == 'R' && line[3] == ' ');
    }
}


/// The breaker line of entry `k` in serialization order: control fields
/// first, then data fields.
pub open spec fn entry_line(r: RecordV, k: int) -> Seq<char> {
    if k < r.cfs.len() {
        cf_breaker(r.cfs[k])
    } else {
        field_breaker(r.fields[k - r.cfs.len()])
    }
}

/// The newline-prefixed lines of entries `k` onward.
pub open spec fn lines_from(r: RecordV, k: int) -> Seq<char>
    decreases r.cfs.len() + r.fields.len() - k,
{
    if k < 0 || k >= r.cfs.len() + r.fields.len() {
        Seq::empty()
    } else {
        seq!['\n'] + entry_line(r, k) + lines_from(r, k + 1)
    }
}

/// The record's field lines are exactly the lines of its entries.
pub proof fn lemma_lines_from_eq(r: RecordV, k: int)
    requires
        0 <= k <= r.cfs.len() + r.fields.len(),
    ensures
        k <= r.cfs.len() ==> lines_from(r, k) == cf_lines(r.cfs.skip(k)) + field_lines(r.fields),
        k >= r.cfs.len() ==> lines_from(r, k) == field_lines(r.fields.skip(k - r.cfs.len())),
    decreases r.cfs.len() + r.fields.len() - k,
{
    let n1 = r.cfs.len() as int;
    let n = n1 + r.fields.len() as int;
    if k == n {
        if k <= n1 {
            assert(k == n1 && r.fields.len() == 0);
            assert(r.cfs.skip(k) =~= Seq::<ControlfieldV>::empty());
            assert(field_lines(r.fields) =~= Seq::<char>::empty());
            assert(cf_lines(r.cfs.skip(k)) + field_lines(r.fields) =~= Seq::<char>::empty());
        }
        assert(r.fields.skip(k - n1) =~= Seq::<FieldV>::empty());
    } else {
        lemma_lines_from_eq(r, k + 1);
        if k < n1 {
            assert(entry_line(r, k) == cf_breaker(r.cfs[k]));
            assert(r.cfs.skip(k)[0] == r.cfs[k]);
            assert(r.cfs.skip(k).drop_first() =~= r.cfs.skip(k + 1));
            assert(cf_lines(r.cfs.skip(k)) == seq!['\n'] + cf_breaker(r.cfs[k]) + cf_lines(
                r.cfs.skip(k + 1),
            ));
            if k + 1 <= n1 {
                assert(lines_from(r, k) =~= cf_lines(r.cfs.skip(k)) + field_lines(r.fields));
            }
        } else {
            assert(entry_line(r, k) == field_breaker(r.fields[k - n1]));
            assert(r.fields.skip(k - n1)[0] == r.fields[k - n1]);
            assert(r.fields.skip(k - n1).drop_first() =~= r.fields.skip(k + 1 - n1));
            assert(field_lines(r.fields.skip(k - n1)) == seq!['\n'] + field_breaker(
                r.fields[k - n1],
            ) + field_lines(r.fields.skip(k + 1 - n1)));
            assert(lines_from(r, k) =~= field_lines(r.fields.skip(k - n1)));
            if k == n1 {
                assert(r.cfs.skip(k) =~= Seq::<ControlfieldV>::empty());
                assert(cf_lines(r.cfs.skip(k)) =~= Seq::<char>::empty());
                assert(r.fields.skip(0) =~= r.fields);
                assert(cf_lines(r.cfs.skip(k)) + field_lines(r.fields) =~= field_lines(r.fields));
            }
        }
    }
}

/// Parsing the current entry's line followed by the remaining lines
/// yields the whole record.
#[verifier::rlimit(100)]
pub proof fn lemma_parse_body(r: RecordV, k: int, rv: RecordV)
    requires
        record_wf(r),
        breaker_round_trip_safe(r),
        0 <= k < r.cfs.len() + r.fields.len(),
        rv.cfs == (if k <= r.cfs.len() {
            r.cfs.take(k)
        } else {
            r.cfs
        }),
        rv.fields == (if k <= r.cfs.len() {
            Seq::<FieldV>::empty()
        } else {
            r.fields.take(k - r.cfs.len())
        }),
    ensures
        parse_breaker_from(rv, entry_line(r, k) + lines_from(r, k + 1)) == Ok::<
            RecordV,
            MarcErrV,
        >((RecordV { leader: rv.leader, cfs: r.cfs, fields: r.fields })),
    decreases r.cfs.len() + r.fields.len() - k,
{
    let n1 = r.cfs.len() as int;
    let n = n1 + r.fields.len() as int;
    let line = entry_line(r, k);
    let rest = lines_from(r, k + 1);
    let body = line + rest;
    let rv2 = if k < n1 {
        RecordV { cfs: rv.cfs.push(r.cfs[k]), ..rv }
    } else {
        RecordV { fields: rv.fields.push(r.fields[k - n1]), ..rv }
    };
    assert(clean_line(line) && parse_breaker_line(rv, line) == Ok::<RecordV, MarcErrV>(rv2)) by {
        if k < n1 {
            lemma_cf_line(rv, r.cfs[k]);
        } else {
            lemma_field_line(rv, r.fields[k - n1]);
        }
    }
    assert(forall|j: int| 0 <= j < line.len() ==> body[j] == line[j]);
    if k + 1 == n {
        assert(rest =~= Seq::<char>::empty());
        assert(body =~= line);
        crate::text::lemma_find_char_none(body, '\n');
        assert(parse_breaker_from(rv, body) == parse_breaker_line(rv, body)) by {
            assert(body.len() > 0) by {
                if k < n1 {
                    crate::record::lemma_ascii_byte_len(r.cfs[k].tag);
                } else {
                    crate::record::lemma_ascii_byte_len(r.fields[k - n1].tag);
                }
            }
        }
        assert(rv2.cfs =~= r.cfs) by {
            if k < n1 {
                assert(k + 1 == n1 && r.fields.len() == 0);
                assert(rv.cfs =~= r.cfs.take(k));
                assert(rv2.cfs =~= r.cfs.take(k + 1));
                assert(r.cfs.take(n1) =~= r.cfs);
            } else {
                if k <= n1 {
                    assert(r.cfs.take(k) =~= r.cfs);
                }
            }
        }
        assert(rv2.fields =~= r.fields) by {
            if k < n1 {
                assert(r.fields.len() == 0);
                assert(rv2.fields =~= r.fields);
            } else {
                if k <= n1 {
                    assert(k == n1);
                    assert(rv2.fields =~= r.fields.take(1));
                    assert(r.fields.take(k + 1 - n1) =~= r.fields.take(1));
                    assert(r.fields.take(n - n1) =~= r.fields);
                    assert(k + 1 == n);
                } else {
                    assert(rv2.fields =~= r.fields.take(k + 1 - n1));
                    assert(r.fields.take(n - n1) =~= r.fields);
                }
            }
        }
        assert(rv2 =~= (RecordV { leader: rv.leader, cfs: r.cfs, fields: r.fields }));
    } else {
        assert(rest == seq!['\n'] + entry_line(r, k + 1) + lines_from(r, k + 2));
        assert(body[line.len() as int] == '\n');
        crate::text::lemma_find_char_is_first(body, '\n', line.len() as int);
        assert(parse_breaker_from(rv, body) == parse_breaker_from(rv2, body.skip(
            line.len() + 1int,
        ))) by {
            assert(strip_cr(body.take(line.len() as int)) == line) by {
                assert(body.take(line.len() as int) =~= line);
                if line.len() > 0 {
                    assert(line[line.len() - 1] != '\r');
                }
            }
        }
        assert(body.skip(line.len() + 1int) =~= entry_line(r, k + 1) + lines_from(r, k + 2));
        assert(rv2.cfs == (if k + 1 <= n1 {
            r.cfs.take(k + 1)
        } else {
            r.cfs
        })) by {
            if k < n1 {
                assert(rv2.cfs =~= r.cfs.take(k + 1));
            } else {
                if k <= n1 {
                    assert(r.cfs.take(k) =~= r.cfs);
                }
            }
        }
        assert(rv2.fields == (if k + 1 <= n1 {
            Seq::<FieldV>::empty()
        } else {
            r.fields.take(k + 1 - n1)
        })) by {
            if k < n1 {
                if k + 1 > n1 {
                    assert(k + 1 == n1 + 1);
                    assert(false);
                }
            } else {
                if k == n1 {
                    assert(rv2.fields =~= r.fields.take(1));
                } else {
                    assert(rv2.fields =~= r.fields.take(k + 1 - n1));
                }
            }
        }
        lemma_parse_body(r, k + 1, rv2);
    }
}

/// Round-trip law for the breaker codec: a safe record's breaker text
/// parses back to exactly that record, so re-emitting it reproduces the
/// same breaker text.
#[verifier::rlimit(100)]
pub proof fn lemma_breaker_round_trip(r: RecordV)
    requires
        record_wf(r),
        breaker_round_trip_safe(r),
    ensures
        parse_breaker(record_breaker(r)) == Ok::<RecordV, MarcErrV>(r),
        parse_breaker(record_breaker(r)) matches Ok(r2) && record_breaker(r2) == record_breaker(
            r,
        ),
{
    let n1 = r.cfs.len() as int;
    let n = n1 + r.fields.len() as int;
    let body = record_breaker(r);
    lemma_lines_from_eq(r, 0);
    assert(r.cfs.skip(0) =~= r.cfs);
    assert(cf_lines(r.cfs) + field_lines(r.fields) == lines_from(r, 0));
    let rv0 = empty_record();
    assert(rv0.cfs =~= r.cfs.take(0));
    match r.leader {
        Some(l) => {
            let lline = leader_breaker(l);
            lemma_leader_line(rv0, l);
            let rv1 = RecordV { leader: Some(l), ..rv0 };
            assert(body =~= lline + lines_from(r, 0));
            assert(forall|j: int| 0 <= j < lline.len() ==> body[j] == lline[j]);
            if n == 0 {
                assert(lines_from(r, 0) =~= Seq::<char>::empty());
                assert(body =~= lline);
                crate::text::lemma_find_char_none(body, '\n');
                assert(body.len() > 0);
                assert(parse_breaker_from(rv0, body) == parse_breaker_line(rv0, body));
                assert(rv1 =~= r);
            } else {
                assert(lines_from(r, 0) == seq!['\n'] + entry_line(r, 0) + lines_from(r, 1));
                assert(body[lline.len() as int] == '\n');
                crate::text::lemma_find_char_is_first(body, '\n', lline.len() as int);
                assert(strip_cr(body.take(lline.len() as int)) == lline) by {
                    assert(body.take(lline.len() as int) =~= lline);
                    assert(lline[lline.len() - 1] != '\r');
                }
                assert(parse_breaker_from(rv0, body) == parse_breaker_from(rv1, body.skip(
                    lline.len() + 1int,
                )));
                assert(body.skip(lline.len() + 1int) =~= entry_line(r, 0) + lines_from(r, 1));
                lemma_parse_body(r, 0, rv1);
                assert((RecordV { leader: rv1.leader, cfs: r.cfs, fields: r.fields }) =~= r);
            }
        },
        None => {
            assert(body =~= lines_from(r, 0));
            if n == 0 {
                assert(body.len() == 0);
                assert(rv0 =~= r);
            } else {
                assert(lines_from(r, 0) == seq!['\n'] + entry_line(r, 0) + lines_from(r, 1));
                assert(body[0] == '\n');
                crate::text::lemma_find_char_is_first(body, '\n', 0);
                assert(strip_cr(body.take(0)) =~= Seq::<char>::empty());
                assert(parse_breaker_line(rv0, strip_cr(body.take(0))) == Ok::<
                    RecordV,
                    MarcErrV,
                >(rv0));
                assert(parse_breaker_from(rv0, body) == parse_breaker_from(rv0, body.skip(1)));
                assert(body.skip(1) =~= entry_line(r, 0) + lines_from(r, 1));
                lemma_parse_body(r, 0, rv0);
                assert((RecordV { leader: rv0.leader, cfs: r.cfs, fields: r.fields }) =~= r);
            }
        },
    }
}

} // verus!
