//! The MARCXML codec: `record > leader | controlfield | datafield >
//! subfield` elements, with XML escaping that keeps every byte of output
//! 7-bit clean.

use vstd::prelude::*;

use crate::record::Controlfield;
use crate::record::ControlfieldV;
use crate::record::Field;
use crate::record::FieldV;
use crate::record::MarcError;
use crate::record::MarcErrV;
use crate::record::Record;
use crate::record::RecordV;
use crate::record::Subfield;
use crate::record::SubfieldV;
use crate::record::byte_len;
use crate::record::code_wf;
use crate::record::empty_record;
use crate::record::leader_wf;
use crate::record::norm_ind;
use crate::record::tag_wf;
use crate::text::chars_to_string;
use crate::text::find_char;
use crate::text::find_char_from;
use crate::text::lemma_find_char;
use crate::text::lemma_find_char_is_first;
use crate::text::lemma_find_char_none;
use crate::text::push_char;
use crate::text::str_chars;
use crate::text::vec_range;

verus! {

/// An uppercase hexadecimal digit character.
pub open spec fn hex_digit(d: nat) -> char {
    if d == 0 {
        '0'
    } else if d == 1 {
        '1'
    } else if d == 2 {
        '2'
    } else if d == 3 {
        '3'
    } else if d == 4 {
        '4'
    } else if d == 5 {
        '5'
    } else if d == 6 {
        '6'
    } else if d == 7 {
        '7'
    } else if d == 8 {
        '8'
    } else if d == 9 {
        '9'
    } else if d == 10 {
        'A'
    } else if d == 11 {
        'B'
    } else if d == 12 {
        'C'
    } else if d == 13 {
        'D'
    } else if d == 14 {
        'E'
    } else if d == 15 {
        'F'
    } else {
        '0'
    }
}

/// The character of one hexadecimal digit value.
fn hex_digit_char(d: u32) -> (c: char)
    requires
        d < 16,
    ensures
        c == hex_digit(d as nat),
{
    if d == 0 {
        '0'
    } else if d == 1 {
        '1'
    } else if d == 2 {
        '2'
    } else if d == 3 {
        '3'
    } else if d == 4 {
        '4'
    } else if d == 5 {
        '5'
    } else if d == 6 {
        '6'
    } else if d == 7 {
        '7'
    } else if d == 8 {
        '8'
    } else if d == 9 {
        '9'
    } else if d == 10 {
        'A'
    } else if d == 11 {
        'B'
    } else if d == 12 {
        'C'
    } else if d == 13 {
        'D'
    } else if d == 14 {
        'E'
    } else {
        'F'
    }
}

/// The uppercase hexadecimal digits of `n`, most significant first,
/// without leading zeros.
pub open spec fn hex_digits(n: nat) -> Seq<char>
    decreases n,
{
    if n < 16 {
        seq![hex_digit(n)]
    } else {
        hex_digits(n / 16) + seq![hex_digit(n % 16)]
    }
}

/// The escaped XML text of one character: the five special characters
/// become entity references, anything above ASCII `~` becomes a numeric
/// character reference, and the rest stand for themselves.
pub open spec fn esc_xml_char(c: char) -> Seq<char> {
    if c == '&' {
        seq!['&', 'a', 'm', 'p', ';']
    } else if c == '\'' {
        seq!['&', 'a', 'p', 'o', 's', ';']
    } else if c == '"' {
        seq!['&', 'q', 'u', 'o', 't', ';']
    } else if c == '>' {
        seq!['&', 'g', 't', ';']
    } else if c == '<' {
        seq!['&', 'l', 't', ';']
    } else if (c as u32) > 126 {
        seq!['&', '#', 'x'] + hex_digits(c as u32 as nat) + seq![';']
    } else {
        seq![c]
    }
}

/// The escaped XML text of a character sequence.
pub open spec fn esc_xml(s: Seq<char>) -> Seq<char>
    decreases s.len(),
{
    if s.len() == 0 {
        Seq::empty()
    } else {
        esc_xml_char(s[0]) + esc_xml(s.drop_first())
    }
}

pub proof fn lemma_esc_xml_concat(a: Seq<char>, b: Seq<char>)
    ensures
        esc_xml(a + b) == esc_xml(a) + esc_xml(b),
    decreases a.len(),
{
    if a.len() == 0 {
        assert(a + b =~= b);
        assert(esc_xml(a) + esc_xml(b) =~= esc_xml(b));
    } else {
        assert((a + b).drop_first() =~= a.drop_first() + b);
        lemma_esc_xml_concat(a.drop_first(), b);
        assert(esc_xml(a + b) =~= esc_xml(a) + esc_xml(b));
    }
}

pub proof fn lemma_esc_xml_take_step(s: Seq<char>, i: int)
    requires
        0 <= i < s.len(),
    ensures
        esc_xml(s.take(i + 1)) == esc_xml(s.take(i)) + esc_xml_char(s[i]),
{
    let single = seq![s[i]];
    assert(single.drop_first() =~= Seq::<char>::empty());
    assert(esc_xml(single.drop_first()) =~= Seq::<char>::empty());
    assert(esc_xml(single) =~= esc_xml_char(s[i]));
    assert(s.take(i + 1) =~= s.take(i) + single);
    lemma_esc_xml_concat(s.take(i), single);
}

/// Renders the uppercase hexadecimal digits of `n`.
fn hex_render(n: u32) -> (r: Vec<char>)
    ensures
        r@ == hex_digits(n as nat),
    decreases n,
{
    if n < 16 {
        let c = hex_digit_char(n);
        let mut r: Vec<char> = Vec::new();
        r.push(c);
        proof {
            assert(r@ =~= hex_digits(n as nat));
        }
        r
    } else {
        let mut r = hex_render(n / 16);
        let c = hex_digit_char(n % 16);
        r.push(c);
        proof {
            assert(r@ =~= hex_digits(n as nat));
        }
        r
    }
}

/// Replaces special characters with entity references and everything
/// above ASCII `~` with an uppercase hexadecimal character reference, so
/// that the result is 7-bit clean.
pub fn escape_xml(value: &str) -> (r: String)
    ensures
        r@ == esc_xml(value@),
{
    let cs = str_chars(value);
    let mut r = String::new();
    let mut i: usize = 0;
    while i < cs.len()
        invariant
            i <= cs@.len(),
            cs@ == value@,
            r@ == esc_xml(cs@.take(i as int)),
        decreases cs@.len() - i,
    {
        proof {
            lemma_esc_xml_take_step(cs@, i as int);
        }
        let c = cs[i];
        if c == '&' {
            r.append("&amp;");
            proof {
                reveal_strlit("&amp;");
                assert("&amp;"@ =~= esc_xml_char('&'));
            }
        } else if c == '\'' {
            r.append("&apos;");
            proof {
                reveal_strlit("&apos;");
                assert("&apos;"@ =~= esc_xml_char('\''));
            }
        } else if c == '"' {
            r.append("&quot;");
            proof {
                reveal_strlit("&quot;");
                assert("&quot;"@ =~= esc_xml_char('"'));
            }
        } else if c == '>' {
            r.append("&gt;");
            proof {
                reveal_strlit("&gt;");
                assert("&gt;"@ =~= esc_xml_char('>'));
            }
        } else if c == '<' {
            r.append("&lt;");
            proof {
                reveal_strlit("&lt;");
                assert("&lt;"@ =~= esc_xml_char('<'));
            }
        } else if c as u32 > 126 {
            push_char(&mut r, '&');
            push_char(&mut r, '#');
            push_char(&mut r, 'x');
            let h = hex_render(c as u32);
            let hs = chars_to_string(&h);
            r.append(hs.as_str());
            push_char(&mut r, ';');
            proof {
                assert(r@ =~= esc_xml(cs@.take(i as int)) + esc_xml_char(c));
            }
        } else {
            push_char(&mut r, c);
        }
        i += 1;
        proof {
            assert(r@ =~= esc_xml(cs@.take(i as int)));
        }
    }
    proof {
        assert(cs@.take(cs@.len() as int) =~= cs@);
    }
    r
}

/// The XML text of an indicator attribute value: the indicator's
/// character escaped, or a single space when absent.
pub open spec fn ind_xml(i: Option<Seq<char>>) -> Seq<char> {
    match i {
        Some(s) => esc_xml(s),
        None => seq![' '],
    }
}

/// The XML element of a control field.
pub open spec fn cf_xml(c: ControlfieldV) -> Seq<char> {
    "<controlfield tag=\""@ + esc_xml(c.tag) + "\">"@ + esc_xml(
        match c.content {
            Some(ct) => ct,
            None => Seq::empty(),
        },
    ) + "</controlfield>"@
}

/// The XML element of a subfield.
pub open spec fn sf_xml(s: SubfieldV) -> Seq<char> {
    "<subfield code=\""@ + esc_xml(s.code) + "\">"@ + esc_xml(
        match s.content {
            Some(ct) => ct,
            None => Seq::empty(),
        },
    ) + "</subfield>"@
}

/// A newline followed by `depth` spaces, or nothing when `fmt` is off.
pub open spec fn fmt_break(fmt: bool, depth: nat) -> Seq<char> {
    if fmt {
        seq!['\n'] + Seq::new(depth, |i: int| ' ')
    } else {
        Seq::empty()
    }
}

/// The XML elements of a field's subfields, each optionally indented.
pub open spec fn sfs_xml(sfs: Seq<SubfieldV>, fmt: bool) -> Seq<char>
    decreases sfs.len(),
{
    if sfs.len() == 0 {
        Seq::empty()
    } else {
        fmt_break(fmt, 4) + sf_xml(sfs[0]) + sfs_xml(sfs.drop_first(), fmt)
    }
}

pub proof fn lemma_sfs_xml_concat(a: Seq<SubfieldV>, b: Seq<SubfieldV>, fmt: bool)
    ensures
        sfs_xml(a + b, fmt) == sfs_xml(a, fmt) + sfs_xml(b, fmt),
    decreases a.len(),
{
    if a.len() == 0 {
        assert(a + b =~= b);
        assert(sfs_xml(a, fmt) + sfs_xml(b, fmt) =~= sfs_xml(b, fmt));
    } else {
        assert((a + b).drop_first() =~= a.drop_first() + b);
        lemma_sfs_xml_concat(a.drop_first(), b, fmt);
        assert(sfs_xml(a + b, fmt) =~= sfs_xml(a, fmt) + sfs_xml(b, fmt));
    }
}

pub proof fn lemma_sfs_xml_take_step(s: Seq<SubfieldV>, fmt: bool, i: int)
    requires
        0 <= i < s.len(),
    ensures
        sfs_xml(s.take(i + 1), fmt) == sfs_xml(s.take(i), fmt) + fmt_break(fmt, 4) + sf_xml(s[i]),
{
    let single = seq![s[i]];
    assert(single.drop_first() =~= Seq::<SubfieldV>::empty());
    assert(sfs_xml(single.drop_first(), fmt) =~= Seq::<char>::empty());
    assert(sfs_xml(single, fmt) =~= fmt_break(fmt, 4) + sf_xml(s[i]));
    assert(s.take(i + 1) =~= s.take(i) + single);
    lemma_sfs_xml_concat(s.take(i), single, fmt);
    assert(sfs_xml(s.take(i), fmt) + (fmt_break(fmt, 4) + sf_xml(s[i])) =~= sfs_xml(s.take(i), fmt)
        + fmt_break(fmt, 4) + sf_xml(s[i]));
}

/// The XML element of a data field, with its subfields.
pub open spec fn field_xml(f: FieldV, fmt: bool) -> Seq<char> {
    "<datafield tag=\""@ + esc_xml(f.tag) + "\" ind1=\""@ + ind_xml(f.ind1) + "\" ind2=\""@
        + ind_xml(f.ind2) + "\">"@ + sfs_xml(f.sfs, fmt) + fmt_break(fmt, 2) + "</datafield>"@
}

/// The control field elements of a record, each optionally indented.
pub open spec fn cfs_xml(cfs: Seq<ControlfieldV>, fmt: bool) -> Seq<char>
    decreases cfs.len(),
{
    if cfs.len() == 0 {
        Seq::empty()
    } else {
        fmt_break(fmt, 2) + cf_xml(cfs[0]) + cfs_xml(cfs.drop_first(), fmt)
    }
}

pub proof fn lemma_cfs_xml_concat(a: Seq<ControlfieldV>, b: Seq<ControlfieldV>, fmt: bool)
    ensures
        cfs_xml(a + b, fmt) == cfs_xml(a, fmt) + cfs_xml(b, fmt),
    decreases a.len(),
{
    if a.len() == 0 {
        assert(a + b =~= b);
        assert(cfs_xml(a, fmt) + cfs_xml(b, fmt) =~= cfs_xml(b, fmt));
    } else {
        assert((a + b).drop_first() =~= a.drop_first() + b);
        lemma_cfs_xml_concat(a.drop_first(), b, fmt);
        assert(cfs_xml(a + b, fmt) =~= cfs_xml(a, fmt) + cfs_xml(b, fmt));
    }
}

pub proof fn lemma_cfs_xml_take_step(s: Seq<ControlfieldV>, fmt: bool, i: int)
    requires
        0 <= i < s.len(),
    ensures
        cfs_xml(s.take(i + 1), fmt) == cfs_xml(s.take(i), fmt) + fmt_break(fmt, 2) + cf_xml(s[i]),
{
    let single = seq![s[i]];
    assert(single.drop_first() =~= Seq::<ControlfieldV>::empty());
    assert(cfs_xml(single.drop_first(), fmt) =~= Seq::<char>::empty());
    assert(cfs_xml(single, fmt) =~= fmt_break(fmt, 2) + cf_xml(s[i]));
    assert(s.take(i + 1) =~= s.take(i) + single);
    lemma_cfs_xml_concat(s.take(i), single, fmt);
    assert(cfs_xml(s.take(i), fmt) + (fmt_break(fmt, 2) + cf_xml(s[i])) =~= cfs_xml(s.take(i), fmt)
        + fmt_break(fmt, 2) + cf_xml(s[i]));
}

/// The data field elements of a record, each optionally indented.
pub open spec fn fields_xml(fields: Seq<FieldV>, fmt: bool) -> Seq<char>
    decreases fields.len(),
{
    if fields.len() == 0 {
        Seq::empty()
    } else {
        fmt_break(fmt, 2) + field_xml(fields[0], fmt) + fields_xml(fields.drop_first(), fmt)
    }
}

pub proof fn lemma_fields_xml_concat(a: Seq<FieldV>, b: Seq<FieldV>, fmt: bool)
    ensures
        fields_xml(a + b, fmt) == fields_xml(a, fmt) + fields_xml(b, fmt),
    decreases a.len(),
{
    if a.len() == 0 {
        assert(a + b =~= b);
        assert(fields_xml(a, fmt) + fields_xml(b, fmt) =~= fields_xml(b, fmt));
    } else {
        assert((a + b).drop_first() =~= a.drop_first() + b);
        lemma_fields_xml_concat(a.drop_first(), b, fmt);
        assert(fields_xml(a + b, fmt) =~= fields_xml(a, fmt) + fields_xml(b, fmt));
    }
}

pub proof fn lemma_fields_xml_take_step(s: Seq<FieldV>, fmt: bool, i: int)
    requires
        0 <= i < s.len(),
    ensures
        fields_xml(s.take(i + 1), fmt) == fields_xml(s.take(i), fmt) + fmt_break(fmt, 2)
            + field_xml(s[i], fmt),
{
    let single = seq![s[i]];
    assert(single.drop_first() =~= Seq::<FieldV>::empty());
    assert(fields_xml(single.drop_first(), fmt) =~= Seq::<char>::empty());
    assert(fields_xml(single, fmt) =~= fmt_break(fmt, 2) + field_xml(s[i], fmt));
    assert(s.take(i + 1) =~= s.take(i) + single);
    lemma_fields_xml_concat(s.take(i), single, fmt);
    assert(fields_xml(s.take(i), fmt) + (fmt_break(fmt, 2) + field_xml(s[i], fmt)) =~= fields_xml(
        s.take(i),
        fmt,
    ) + fmt_break(fmt, 2) + field_xml(s[i], fmt));
}

/// The opening of the document: declaration and root element with its
/// namespace and schema location attributes.
pub open spec fn xml_head(fmt: bool) -> Seq<char> {
    if fmt {
        "<?xml version=\"1.0\"?>\n<record\n  xmlns=\"http://www.loc.gov/MARC21/slim\"\n  xmlns:xsi=\"http://www.w3.org/2001/XMLSchema-instance\"\n  xsi:schemaLocation=\"http://www.loc.gov/MARC21/slim http://www.loc.gov/standards/marcxml/schema/MARC21slim.xsd\">"@
    } else {
        "<?xml version=\"1.0\"?><record xmlns=\"http://www.loc.gov/MARC21/slim\" xmlns:xsi=\"http://www.w3.org/2001/XMLSchema-instance\" xsi:schemaLocation=\"http://www.loc.gov/MARC21/slim http://www.loc.gov/standards/marcxml/schema/MARC21slim.xsd\">"@
    }
}

/// The whole MARCXML document of a record.
pub open spec fn record_xml(r: RecordV, fmt: bool) -> Seq<char> {
    xml_head(fmt) + fmt_break(fmt, 2) + "<leader>"@ + esc_xml(
        match r.leader {
            Some(l) => l,
            None => Seq::empty(),
        },
    ) + "</leader>"@ + cfs_xml(r.cfs, fmt) + fields_xml(r.fields, fmt) + fmt_break(fmt, 0)
        + "</record>"@
}

impl Record {
    /// The MARCXML document of this record, unformatted.
    pub fn to_xml(&self) -> (r: Result<String, MarcError>)
        ensures
            r matches Ok(s) && s@ == record_xml(self@, false),
    {
        self.to_xml_shared(false)
    }

    /// The MARCXML document of this record, with two-space indentation.
    pub fn to_xml_formatted(&self) -> (r: Result<String, MarcError>)
        ensures
            r matches Ok(s) && s@ == record_xml(self@, true),
    {
        self.to_xml_shared(true)
    }

    fn to_xml_shared(&self, formatted: bool) -> (r: Result<String, MarcError>)
        ensures
            r matches Ok(s) && s@ == record_xml(self@, formatted),
    {
        let mut xml = if formatted {
            String::from_str(
                "<?xml version=\"1.0\"?>\n<record\n  xmlns=\"http://www.loc.gov/MARC21/slim\"\n  xmlns:xsi=\"http://www.w3.org/2001/XMLSchema-instance\"\n  xsi:schemaLocation=\"http://www.loc.gov/MARC21/slim http://www.loc.gov/standards/marcxml/schema/MARC21slim.xsd\">",
            )
        } else {
            String::from_str(
                "<?xml version=\"1.0\"?><record xmlns=\"http://www.loc.gov/MARC21/slim\" xmlns:xsi=\"http://www.w3.org/2001/XMLSchema-instance\" xsi:schemaLocation=\"http://www.loc.gov/MARC21/slim http://www.loc.gov/standards/marcxml/schema/MARC21slim.xsd\">",
            )
        };
        format_break(formatted, &mut xml, 2);
        xml.append("<leader>");
        match self.leader {
            Some(ref l) => {
                let e = escape_xml(l.content.as_str());
                xml.append(e.as_str());
            },
            None => {
                proof {
                    assert(esc_xml(Seq::<char>::empty()) =~= Seq::<char>::empty());
                }
            },
        }
        xml.append("</leader>");
        proof {
            reveal_strlit("<leader>");
            reveal_strlit("</leader>");
            assert(xml@ =~= xml_head(formatted) + fmt_break(formatted, 2) + "<leader>"@ + esc_xml(
                match self@.leader {
                    Some(l) => l,
                    None => Seq::empty(),
                },
            ) + "</leader>"@);
        }
        let ghost head = xml@;
        let mut i: usize = 0;
        while i < self.control_fields.len()
            invariant
                i <= self.control_fields.len(),
                xml@ == head + cfs_xml(self@.cfs.take(i as int), formatted),
            decreases self.control_fields.len() - i,
        {
            proof {
                lemma_cfs_xml_take_step(self@.cfs, formatted, i as int);
            }
            format_break(formatted, &mut xml, 2);
            let cf = &self.control_fields[i];
            cf_xml_into(cf, &mut xml);
            proof {
                assert(cf@ == self@.cfs[i as int]);
                assert(xml@ =~= head + cfs_xml(self@.cfs.take(i + 1), formatted));
            }
            i += 1;
        }
        proof {
            assert(self@.cfs.take(self.control_fields.len() as int) =~= self@.cfs);
        }
        let ghost head2 = xml@;
        let mut j: usize = 0;
        while j < self.fields.len()
            invariant
                j <= self.fields.len(),
                xml@ == head2 + fields_xml(self@.fields.take(j as int), formatted),
            decreases self.fields.len() - j,
        {
            proof {
                lemma_fields_xml_take_step(self@.fields, formatted, j as int);
            }
            format_break(formatted, &mut xml, 2);
            let f = &self.fields[j];
            field_xml_into(f, formatted, &mut xml);
            proof {
                assert(xml@ =~= head2 + fields_xml(self@.fields.take(j + 1), formatted));
            }
            j += 1;
        }
        proof {
            assert(self@.fields.take(self.fields.len() as int) =~= self@.fields);
        }
        format_break(formatted, &mut xml, 0);
        xml.append("</record>");
        proof {
            reveal_strlit("</record>");
            assert(xml@ =~= record_xml(self@, formatted));
        }
        Ok(xml)
    }

}

/// Appends a newline and `depth` spaces when formatting is on.
fn format_break(formatted: bool, value: &mut String, depth: usize)
        ensures
            final(value)@ == old(value)@ + fmt_break(formatted, depth as nat),
    {
        if formatted {
            push_char(value, '\n');
            let mut d: usize = 0;
            while d < depth
                invariant
                    d <= depth,
                    value@ == old(value)@ + seq!['\n'] + Seq::new(d as nat, |i: int| ' '),
                decreases depth - d,
            {
                push_char(value, ' ');
                proof {
                    assert(value@ =~= old(value)@ + seq!['\n'] + Seq::new((d + 1) as nat, |i: int| ' '));
                }
                d += 1;
            }
            proof {
                assert(value@ =~= old(value)@ + fmt_break(formatted, depth as nat));
            }
        } else {
            proof {
                assert(value@ =~= old(value)@ + fmt_break(formatted, depth as nat));
            }
        }
}

/// Appends the XML element of one control field.
fn cf_xml_into(cf: &Controlfield, xml: &mut String)
    ensures
        final(xml)@ == old(xml)@ + cf_xml(cf@),
{
    xml.append("<controlfield tag=\"");
    let e = escape_xml(cf.tag.content.as_str());
    xml.append(e.as_str());
    xml.append("\">");
    match cf.content {
        Some(ref c) => {
            let e2 = escape_xml(c.as_str());
            xml.append(e2.as_str());
        },
        None => {
            proof {
                assert(esc_xml(Seq::<char>::empty()) =~= Seq::<char>::empty());
            }
        },
    }
    xml.append("</controlfield>");
    proof {
        assert(xml@ =~= old(xml)@ + cf_xml(cf@));
    }
}

/// Appends the XML element of one subfield.
fn sf_xml_into(sf: &Subfield, xml: &mut String)
    ensures
        final(xml)@ == old(xml)@ + sf_xml(sf@),
{
    xml.append("<subfield code=\"");
    let ec = escape_xml(sf.code.as_str());
    xml.append(ec.as_str());
    xml.append("\">");
    match sf.content {
        Some(ref c) => {
            let e2 = escape_xml(c.as_str());
            xml.append(e2.as_str());
        },
        None => {
            proof {
                assert(esc_xml(Seq::<char>::empty()) =~= Seq::<char>::empty());
            }
        },
    }
    xml.append("</subfield>");
    proof {
        assert(xml@ =~= old(xml)@ + sf_xml(sf@));
    }
}

/// Appends the XML element of one data field, subfields included.
#[verifier::rlimit(80)]
fn field_xml_into(f: &Field, formatted: bool, xml: &mut String)
    ensures
        final(xml)@ == old(xml)@ + field_xml(f@, formatted),
{
    xml.append("<datafield tag=\"");
    let e = escape_xml(f.tag.content.as_str());
    xml.append(e.as_str());
    xml.append("\" ind1=\"");
    match f.ind1.content {
        Some(ref s) => {
            let e1 = escape_xml(s.as_str());
            xml.append(e1.as_str());
        },
        None => {
            push_char(xml, ' ');
        },
    }
    xml.append("\" ind2=\"");
    match f.ind2.content {
        Some(ref s) => {
            let e2 = escape_xml(s.as_str());
            xml.append(e2.as_str());
        },
        None => {
            push_char(xml, ' ');
        },
    }
    xml.append("\">");
    proof {
        assert(xml@ =~= old(xml)@ + "<datafield tag=\""@ + esc_xml(f@.tag) + "\" ind1=\""@
            + ind_xml(f@.ind1) + "\" ind2=\""@ + ind_xml(f@.ind2) + "\">"@);
    }
    let ghost fhead = xml@;
    let mut k: usize = 0;
    while k < f.subfields.len()
        invariant
            k <= f.subfields.len(),
            xml@ == fhead + sfs_xml(f@.sfs.take(k as int), formatted),
        decreases f.subfields.len() - k,
    {
        proof {
            lemma_sfs_xml_take_step(f@.sfs, formatted, k as int);
        }
        format_break(formatted, xml, 4);
        let sf = &f.subfields[k];
        sf_xml_into(sf, xml);
        proof {
            assert(sf@ == f@.sfs[k as int]);
            assert(xml@ =~= fhead + sfs_xml(f@.sfs.take(k + 1), formatted));
        }
        k += 1;
    }
    proof {
        assert(f@.sfs.take(f.subfields.len() as int) =~= f@.sfs);
    }
    format_break(formatted, xml, 2);
    xml.append("</datafield>");
    proof {
        assert(xml@ =~= old(xml)@ + field_xml(f@, formatted));
    }
}


/// An XML whitespace character.
pub open spec fn is_ws(c: char) -> bool {
    c == ' ' || c == '\t' || c == '\n' || c == '\r'
}

/// How many whitespace characters `s` starts with.
pub open spec fn ws_count(s: Seq<char>) -> int
    decreases s.len(),
{
    if s.len() == 0 {
        0
    } else if is_ws(s[0]) {
        1 + ws_count(s.drop_first())
    } else {
        0
    }
}

/// What [`ws_count`] returns: the position of the first
/// non-whitespace character.
pub proof fn lemma_ws_count_is(s: Seq<char>, k: int)
    requires
        0 <= k <= s.len(),
        forall|j: int| 0 <= j < k ==> is_ws(s[j]),
        k < s.len() ==> !is_ws(s[k]),
    ensures
        ws_count(s) == k,
    decreases s.len(),
{
    if s.len() == 0 {
    } else if k == 0 {
    } else {
        let t = s.drop_first();
        assert forall|j: int| 0 <= j < k - 1 implies is_ws(t[j]) by {
            assert(t[j] == s[j + 1]);
        }
        if k - 1 < t.len() {
            assert(t[k - 1] == s[k]);
        }
        lemma_ws_count_is(t, k - 1);
    }
}

/// The index of the first whitespace character, or `-1` when none.
pub open spec fn find_ws(s: Seq<char>) -> int
    decreases s.len(),
{
    if s.len() == 0 {
        -1
    } else if is_ws(s[0]) {
        0
    } else {
        let r = find_ws(s.drop_first());
        if r == -1 {
            -1
        } else {
            r + 1
        }
    }
}

pub proof fn lemma_find_ws_is(s: Seq<char>, k: int)
    requires
        0 <= k < s.len(),
        is_ws(s[k]),
        forall|j: int| 0 <= j < k ==> !is_ws(s[j]),
    ensures
        find_ws(s) == k,
    decreases s.len(),
{
    if k == 0 {
    } else {
        let t = s.drop_first();
        assert(t[k - 1] == s[k]);
        assert forall|j: int| 0 <= j < k - 1 implies !is_ws(t[j]) by {
            assert(t[j] == s[j + 1]);
        }
        lemma_find_ws_is(t, k - 1);
    }
}

pub proof fn lemma_find_ws_none(s: Seq<char>)
    requires
        forall|j: int| 0 <= j < s.len() ==> !is_ws(s[j]),
    ensures
        find_ws(s) == -1,
    decreases s.len(),
{
    if s.len() > 0 {
        let t = s.drop_first();
        assert forall|j: int| 0 <= j < t.len() implies !is_ws(t[j]) by {
            assert(t[j] == s[j + 1]);
        }
        lemma_find_ws_none(t);
    }
}

/// `s` with trailing whitespace removed.
pub open spec fn trim_ws_end(s: Seq<char>) -> Seq<char>
    decreases s.len(),
{
    if s.len() > 0 && is_ws(s[s.len() - 1]) {
        trim_ws_end(s.drop_last())
    } else {
        s
    }
}

pub proof fn lemma_trim_ws_end_is(s: Seq<char>, k: int)
    requires
        0 <= k <= s.len(),
        forall|j: int| k <= j < s.len() ==> is_ws(s[j]),
        k > 0 ==> !is_ws(s[k - 1]),
    ensures
        trim_ws_end(s) == s.take(k),
    decreases s.len(),
{
    if k == s.len() {
        if s.len() > 0 && is_ws(s[s.len() - 1]) {
            assert(false);
        }
        assert(s.take(k) =~= s);
    } else {
        let t = s.drop_last();
        assert(t =~= s.take(s.len() - 1));
        assert forall|j: int| k <= j < t.len() implies is_ws(t[j]) by {
            assert(t[j] == s[j]);
        }
        lemma_trim_ws_end_is(t, k);
        assert(t.take(k) =~= s.take(k));
    }
}

/// The index of the last colon, or `-1` when none.
pub open spec fn find_last_colon(s: Seq<char>) -> int
    decreases s.len(),
{
    if s.len() == 0 {
        -1
    } else if s[s.len() - 1] == ':' {
        s.len() - 1
    } else {
        find_last_colon(s.drop_last())
    }
}

pub proof fn lemma_find_last_colon_is(s: Seq<char>, k: int)
    requires
        0 <= k < s.len(),
        s[k] == ':',
        forall|j: int| k < j < s.len() ==> s[j] != ':',
    ensures
        find_last_colon(s) == k,
    decreases s.len(),
{
    if k == s.len() - 1 {
    } else {
        let t = s.drop_last();
        assert(t =~= s.take(s.len() - 1));
        assert forall|j: int| k < j < t.len() implies t[j] != ':' by {
            assert(t[j] == s[j]);
        }
        lemma_find_last_colon_is(t, k);
    }
}

pub proof fn lemma_find_last_colon_none(s: Seq<char>)
    requires
        forall|j: int| 0 <= j < s.len() ==> s[j] != ':',
    ensures
        find_last_colon(s) == -1,
    decreases s.len(),
{
    if s.len() > 0 {
        let t = s.drop_last();
        assert(t =~= s.take(s.len() - 1));
        assert forall|j: int| 0 <= j < t.len() implies t[j] != ':' by {
            assert(t[j] == s[j]);
        }
        lemma_find_last_colon_none(t);
    }
}

/// The part of an element or attribute name after its namespace prefix.
pub open spec fn local_name(s: Seq<char>) -> Seq<char> {
    let i = find_last_colon(s);
    if 0 <= i < s.len() {
        s.skip(i + 1)
    } else {
        s
    }
}

/// The local part of a name, as characters.
fn local_name_chars(v: &Vec<char>) -> (r: Vec<char>)
    ensures
        r@ == local_name(v@),
{
    let mut j: usize = v.len();
    while j > 0
        invariant
            j <= v@.len(),
            forall|t: int| j <= t < v@.len() ==> v@[t] != ':',
        decreases j,
    {
        if v[j - 1] == ':' {
            proof {
                lemma_find_last_colon_is(v@, j - 1);
            }
            let r = vec_range(v, j, v.len());
            proof {
                assert(r@ =~= local_name(v@));
            }
            return r;
        }
        j -= 1;
    }
    proof {
        lemma_find_last_colon_none(v@);
    }
    let r = vec_range(v, 0, v.len());
    proof {
        assert(r@ =~= local_name(v@));
    }
    r
}

/// The numeric value of a hexadecimal digit character, or `-1`.
pub open spec fn hex_char_val(c: char) -> int {
    if '0' <= c && c <= '9' {
        (c as u32) - 48
    } else if 'a' <= c && c <= 'f' {
        (c as u32) - 87
    } else if 'A' <= c && c <= 'F' {
        (c as u32) - 55
    } else {
        -1
    }
}

/// The value of hexadecimal digit characters, or `None` when one is not
/// a hexadecimal digit.
pub open spec fn hexv(s: Seq<char>) -> Option<nat>
    decreases s.len(),
{
    if s.len() == 0 {
        Some(0nat)
    } else {
        match hexv(s.take(s.len() - 1)) {
            None => None,
            Some(v) => {
                let d = hex_char_val(s[s.len() - 1]);
                if d >= 0 {
                    Some((16 * v + d) as nat)
                } else {
                    None
                }
            },
        }
    }
}

/// The numeric value of a decimal digit character, or `-1`.
pub open spec fn dec_char_val(c: char) -> int {
    if '0' <= c && c <= '9' {
        (c as u32) - 48
    } else {
        -1
    }
}

/// The value of decimal digit characters, or `None` when one is not a
/// decimal digit.
pub open spec fn decv(s: Seq<char>) -> Option<nat>
    decreases s.len(),
{
    if s.len() == 0 {
        Some(0nat)
    } else {
        match decv(s.take(s.len() - 1)) {
            None => None,
            Some(v) => {
                let d = dec_char_val(s[s.len() - 1]);
                if d >= 0 {
                    Some((10 * v + d) as nat)
                } else {
                    None
                }
            },
        }
    }
}

/// A digit string's value only grows as digits are appended.
pub proof fn lemma_hexv_prefix_le(s: Seq<char>, i: int)
    requires
        0 <= i <= s.len(),
        hexv(s) is Some,
    ensures
        hexv(s.take(i)) is Some,
        hexv(s.take(i))->Some_0 <= hexv(s)->Some_0,
    decreases s.len() - i,
{
    if i == s.len() {
        assert(s.take(i) =~= s);
    } else {
        lemma_hexv_prefix_le(s, i + 1);
        let t = s.take(i + 1);
        assert(t.take(t.len() - 1) =~= s.take(i));
        assert(hexv(t) is Some ==> hexv(s.take(i)) is Some);
        assert(hexv(t) is Some) by {
            lemma_hexv_some_prefix(s, i + 1);
        }
    }
}

/// Every prefix of a valid digit string is valid.
pub proof fn lemma_hexv_some_prefix(s: Seq<char>, i: int)
    requires
        0 <= i <= s.len(),
        hexv(s) is Some,
    ensures
        hexv(s.take(i)) is Some,
    decreases s.len() - i,
{
    if i == s.len() {
        assert(s.take(i) =~= s);
    } else {
        lemma_hexv_some_prefix(s, i + 1);
        let t = s.take(i + 1);
        assert(t.take(t.len() - 1) =~= s.take(i));
    }
}

pub proof fn lemma_decv_prefix_le(s: Seq<char>, i: int)
    requires
        0 <= i <= s.len(),
        decv(s) is Some,
    ensures
        decv(s.take(i)) is Some,
        decv(s.take(i))->Some_0 <= decv(s)->Some_0,
    decreases s.len() - i,
{
    if i == s.len() {
        assert(s.take(i) =~= s);
    } else {
        lemma_decv_prefix_le(s, i + 1);
        let t = s.take(i + 1);
        assert(t.take(t.len() - 1) =~= s.take(i));
    }
}

/// The character an entity reference names: the five predefined
/// entities, or a decimal or hexadecimal character reference denoting a
/// Unicode scalar.
pub open spec fn entity_char(ent: Seq<char>) -> Option<char> {
    if ent == seq!['a', 'm', 'p'] {
        Some('&')
    } else if ent == seq!['a', 'p', 'o', 's'] {
        Some('\'')
    } else if ent == seq!['q', 'u', 'o', 't'] {
        Some('"')
    } else if ent == seq!['l', 't'] {
        Some('<')
    } else if ent == seq!['g', 't'] {
        Some('>')
    } else if ent.len() >= 3 && ent[0] == '#' && (ent[1] == 'x' || ent[1] == 'X') {
        match hexv(ent.skip(2)) {
            None => None,
            Some(v) => {
                if v < 0x110000 && vstd::utf8::is_scalar(v as u32) {
                    Some(v as u32 as char)
                } else {
                    None
                }
            },
        }
    } else if ent.len() >= 2 && ent[0] == '#' {
        match decv(ent.skip(1)) {
            None => None,
            Some(v) => {
                if v < 0x110000 && vstd::utf8::is_scalar(v as u32) {
                    Some(v as u32 as char)
                } else {
                    None
                }
            },
        }
    } else {
        None
    }
}

/// XML text with entity references replaced by their characters; a
/// malformed or unknown reference is an error.
pub open spec fn unesc_xml(s: Seq<char>) -> Result<Seq<char>, MarcErrV>
    decreases s.len(),
{
    if s.len() == 0 {
        Ok(Seq::empty())
    } else if s[0] == '&' {
        let i = find_char(s, ';');
        if !(0 <= i < s.len()) {
            Err(MarcErrV::InvalidXml)
        } else {
            match entity_char(s.subrange(1, i)) {
                None => Err(MarcErrV::InvalidXml),
                Some(c) => match unesc_xml(s.skip(i + 1)) {
                    Ok(rest) => Ok(seq![c] + rest),
                    Err(e) => Err(e),
                },
            }
        }
    } else {
        match unesc_xml(s.drop_first()) {
            Ok(rest) => Ok(seq![s[0]] + rest),
            Err(e) => Err(e),
        }
    }
}

/// Decodes the entity text of `v` in `[a, b)` to its character.
#[verifier::loop_isolation(false)]
#[verifier::rlimit(100)]
fn entity_char_exec(v: &Vec<char>, a: usize, b: usize) -> (r: Option<char>)
    requires
        a <= b <= v@.len(),
    ensures
        r == entity_char(v@.subrange(a as int, b as int)),
{
    let ghost ent = v@.subrange(a as int, b as int);
    let n = b - a;
    if n == 3 && v[a] == 'a' && v[a + 1] == 'm' && v[a + 2] == 'p' {
        proof {
            assert(ent =~= seq!['a', 'm', 'p']);
        }
        return Some('&');
    }
    if n == 4 && v[a] == 'a' && v[a + 1] == 'p' && v[a + 2] == 'o' && v[a + 3] == 's' {
        proof {
            assert(ent =~= seq!['a', 'p', 'o', 's']);
        }
        return Some('\'');
    }
    if n == 4 && v[a] == 'q' && v[a + 1] == 'u' && v[a + 2] == 'o' && v[a + 3] == 't' {
        proof {
            assert(ent =~= seq!['q', 'u', 'o', 't']);
        }
        return Some('"');
    }
    if n == 2 && v[a] == 'l' && v[a + 1] == 't' {
        proof {
            assert(ent =~= seq!['l', 't']);
        }
        return Some('<');
    }
    if n == 2 && v[a] == 'g' && v[a + 1] == 't' {
        proof {
            assert(ent =~= seq!['g', 't']);
        }
        return Some('>');
    }
    proof {
        assert(ent != seq!['a', 'm', 'p'] && ent != seq!['a', 'p', 'o', 's'] && ent != seq![
            'q',
            'u',
            'o',
            't',
        ] && ent != seq!['l', 't'] && ent != seq!['g', 't']) by {
            if ent == seq!['a', 'm', 'p'] {
                assert(ent.len() == 3 && ent[0] == 'a' && ent[1] == 'm' && ent[2] == 'p');
            }
            if ent == seq!['a', 'p', 'o', 's'] {
                assert(ent.len() == 4 && ent[0] == 'a' && ent[1] == 'p' && ent[2] == 'o' && ent[3]
                    == 's');
            }
            if ent == seq!['q', 'u', 'o', 't'] {
                assert(ent.len() == 4 && ent[0] == 'q' && ent[1] == 'u' && ent[2] == 'o' && ent[3]
                    == 't');
            }
            if ent == seq!['l', 't'] {
                assert(ent.len() == 2 && ent[0] == 'l' && ent[1] == 't');
            }
            if ent == seq!['g', 't'] {
                assert(ent.len() == 2 && ent[0] == 'g' && ent[1] == 't');
            }
        }
    }
    if n >= 3 && v[a] == '#' && (v[a + 1] == 'x' || v[a + 1] == 'X') {
        let mut val: u32 = 0;
        let mut over = false;
        let mut i: usize = a + 2;
        proof {
            assert(ent.skip(2).take(0) =~= Seq::<char>::empty());
        }
        while i < b
            invariant
                a + 2 <= i <= b <= v@.len(),
                ent == v@.subrange(a as int, b as int),
                hexv(ent.skip(2).take(i - a - 2)) is Some,
                !over ==> val == hexv(ent.skip(2).take(i - a - 2))->Some_0 && val <= 0x10FFFF,
                over ==> hexv(ent.skip(2).take(i - a - 2))->Some_0 > 0x10FFFF,
            decreases b - i,
        {
            let ghost digits = ent.skip(2);
            let ghost pref = digits.take(i - a - 2);
            let c = v[i];
            let d: u32 = if '0' <= c && c <= '9' {
                (c as u32) - 48
            } else if 'a' <= c && c <= 'f' {
                (c as u32) - 87
            } else if 'A' <= c && c <= 'F' {
                (c as u32) - 55
            } else {
                proof {
                    assert(digits[i - a - 2] == c);
                    assert(hex_char_val(c) == -1);
                    if hexv(digits) is Some {
                        lemma_hexv_some_prefix(digits, i - a - 1);
                        assert(digits.take(i - a - 1).take(i - a - 2) =~= pref);
                        assert(digits.take(i - a - 1)[i - a - 2] == c);
                    }
                }
                return None;
            };
            proof {
                assert(hex_char_val(c) == d);
                assert(digits[i - a - 2] == c);
                assert(digits.take(i - a - 1).take(i - a - 2) =~= pref);
                assert(digits.take(i - a - 1)[i - a - 2] == c);
                assert(hexv(digits.take(i - a - 1)) == Some((16 * hexv(pref)->Some_0 + d) as nat));
            }
            if over || val > 0x10FFFF / 16 + 1 {
                over = true;
                proof {
                    assert(16 * hexv(pref)->Some_0 + d > 0x10FFFF) by (nonlinear_arith)
                        requires
                            hexv(pref)->Some_0 > 0x10FFFFint / 16 + 1 || hexv(pref)->Some_0 > 0x10FFFF,
                            d >= 0,
                    ;
                }
            } else {
                val = val * 16 + d;
                if val > 0x10FFFF {
                    over = true;
                }
            }
            i += 1;
        }
        proof {
            assert(ent.skip(2).take(b - a - 2) =~= ent.skip(2));
        }
        if over {
            proof {
                if entity_char(ent) is Some {
                    lemma_hexv_prefix_le(ent.skip(2), ent.skip(2).len() as int);
                }
            }
            return None;
        }
        if val >= 0xD800 && val <= 0xDFFF {
            return None;
        }
        let c = match char_from_u32(val) {
            Some(c) => c,
            None => {
                return None;
            },
        };
        proof {
            vstd::utf8::char_u32_cast(c, val);
        }
        return Some(c);
    }
    if n >= 2 && v[a] == '#' {
        let mut val: u32 = 0;
        let mut over = false;
        let mut i: usize = a + 1;
        proof {
            assert(ent.skip(1).take(0) =~= Seq::<char>::empty());
        }
        while i < b
            invariant
                a + 1 <= i <= b <= v@.len(),
                ent == v@.subrange(a as int, b as int),
                decv(ent.skip(1).take(i - a - 1)) is Some,
                !over ==> val == decv(ent.skip(1).take(i - a - 1))->Some_0 && val <= 0x10FFFF,
                over ==> decv(ent.skip(1).take(i - a - 1))->Some_0 > 0x10FFFF,
            decreases b - i,
        {
            let ghost digits = ent.skip(1);
            let ghost pref = digits.take(i - a - 1);
            let c = v[i];
            let d: u32 = if '0' <= c && c <= '9' {
                (c as u32) - 48
            } else {
                proof {
                    assert(digits[i - a - 1] == c);
                    assert(dec_char_val(c) == -1);
                    if decv(digits) is Some {
                        lemma_decv_prefix_le(digits, i - a);
                        assert(digits.take(i - a).take(i - a - 1) =~= pref);
                        assert(digits.take(i - a)[i - a - 1] == c);
                    }
                }
                return None;
            };
            proof {
                assert(dec_char_val(c) == d);
                assert(digits[i - a - 1] == c);
                assert(digits.take(i - a).take(i - a - 1) =~= pref);
                assert(digits.take(i - a)[i - a - 1] == c);
                assert(decv(digits.take(i - a)) == Some((10 * decv(pref)->Some_0 + d) as nat));
            }
            if over || val > 0x10FFFF / 10 + 1 {
                over = true;
                proof {
                    assert(10 * decv(pref)->Some_0 + d > 0x10FFFF) by (nonlinear_arith)
                        requires
                            decv(pref)->Some_0 > 0x10FFFFint / 10 + 1 || decv(pref)->Some_0 > 0x10FFFF,
                            d >= 0,
                    ;
                }
            } else {
                val = val * 10 + d;
                if val > 0x10FFFF {
                    over = true;
                }
            }
            i += 1;
        }
        proof {
            assert(ent.skip(1).take(b - a - 1) =~= ent.skip(1));
        }
        if over {
            proof {
                if entity_char(ent) is Some {
                    lemma_decv_prefix_le(ent.skip(1), ent.skip(1).len() as int);
                }
            }
            return None;
        }
        if val >= 0xD800 && val <= 0xDFFF {
            return None;
        }
        let c = match char_from_u32(val) {
            Some(c) => c,
            None => {
                return None;
            },
        };
        proof {
            vstd::utf8::char_u32_cast(c, val);
        }
        return Some(c);
    }
    None
}

/// Relies on `char::from_u32`: `Some` exactly for Unicode scalar values,
/// returning the character with that value.
#[verifier::external_body]
fn char_from_u32(v: u32) -> (r: Option<char>)
    ensures
        r is Some <==> vstd::utf8::is_scalar(v),
        r matches Some(c) ==> (c as u32) == v,
{
    char::from_u32(v)
}

/// Unescapes the XML text of `v` in `[a, b)`.
fn unescape_xml_range(v: &Vec<char>, a: usize, b: usize) -> (r: Result<String, MarcError>)
    requires
        a <= b <= v@.len(),
    ensures
        r matches Ok(t) ==> (unesc_xml(v@.subrange(a as int, b as int)) matches Ok(u) && t@ == u),
        r matches Err(e) ==> (unesc_xml(v@.subrange(a as int, b as int)) matches Err(u) && e@ == u),
{
    let ghost whole = v@.subrange(a as int, b as int);
    let mut out = String::new();
    let mut i: usize = a;
    proof {
        assert(whole.skip(0) =~= whole);
    }
    while i < b
        invariant
            a <= i <= b <= v@.len(),
            whole == v@.subrange(a as int, b as int),
            match unesc_xml(whole.skip(i - a)) {
                Ok(rest) => unesc_xml(whole) matches Ok(all) && all == out@ + rest,
                Err(e) => unesc_xml(whole) matches Err(e2) && e2 == e,
            },
        decreases b - i,
    {
        let ghost s = whole.skip(i - a);
        let c = v[i];
        proof {
            assert(s[0] == c);
        }
        if c == '&' {
            let semi = find_char_from(v, ';', i);
            let k: usize = match semi {
                Some(k) => k,
                None => {
                    proof {
                        lemma_no_char_suffix(v@, whole, a as int, b as int, i as int, ';');
                        assert(unesc_xml(s) matches Err(e) && e == MarcErrV::InvalidXml);
                    }
                    return Err(MarcError::InvalidXml);
                },
            };
            if k >= b {
                proof {
                    lemma_no_char_between(v@, whole, a as int, b as int, i as int, k as int, ';');
                    assert(unesc_xml(s) matches Err(e) && e == MarcErrV::InvalidXml);
                }
                return Err(MarcError::InvalidXml);
            }
            proof {
                lemma_find_char(v@.skip(i as int), ';');
                assert(v@.skip(i as int)[k - i] == ';');
                assert(v@[k as int] == ';');
                assert forall|j: int| i <= j < k implies v@[j] != ';' by {
                    assert(v@.skip(i as int)[j - i] == v@[j]);
                }
                assert forall|j: int| 0 <= j < k - i implies s[j] != ';' by {
                    assert(s[j] == v@[i + j]);
                }
                assert(s[k - i] == ';');
                lemma_find_char_is_first(s, ';', k - i);
                assert(find_char(s, ';') == k - i);
                assert(s.subrange(1, k - i) =~= v@.subrange(i + 1, k as int));
            }
            let ec = entity_char_exec(v, i + 1, k);
            match ec {
                None => {
                    proof {
                        assert(unesc_xml(s) matches Err(e) && e == MarcErrV::InvalidXml);
                    }
                    return Err(MarcError::InvalidXml);
                },
                Some(ch) => {
                    push_char(&mut out, ch);
                    proof {
                        assert(s.skip(k - i + 1) =~= whole.skip(k + 1 - a));
                    }
                    i = k + 1;
                },
            }
        } else {
            push_char(&mut out, c);
            proof {
                assert(s.drop_first() =~= whole.skip(i + 1 - a));
            }
            i += 1;
        }
    }
    proof {
        assert(whole.skip(b - a) =~= Seq::<char>::empty());
        assert(unesc_xml(whole) matches Ok(all) && all == out@);
    }
    Ok(out)
}

/// When the searched character does not occur after `i` at all, it does
/// not occur in the window's suffix either.
proof fn lemma_no_char_suffix(v: Seq<char>, whole: Seq<char>, a: int, b: int, i: int, c: char)
    requires
        0 <= a <= i <= b <= v.len(),
        whole == v.subrange(a, b),
        find_char(v.skip(i), c) == -1,
    ensures
        find_char(whole.skip(i - a), c) == -1,
{
    lemma_find_char(v.skip(i), c);
    let s = whole.skip(i - a);
    assert forall|j: int| 0 <= j < s.len() implies s[j] != c by {
        assert(s[j] == v[i + j]);
        assert(v.skip(i)[j] == v[i + j]);
    }
    lemma_find_char_none(s, c);
}

/// When the searched character first occurs at or past the window's end,
/// it does not occur in the window's suffix.
proof fn lemma_no_char_between(
    v: Seq<char>,
    whole: Seq<char>,
    a: int,
    b: int,
    i: int,
    k: int,
    c: char,
)
    requires
        0 <= a <= i <= b <= v.len(),
        whole == v.subrange(a, b),
        i <= k < v.len(),
        find_char(v.skip(i), c) == k - i,
    ensures
        b <= k ==> find_char(whole.skip(i - a), c) == -1,
{
    lemma_find_char(v.skip(i), c);
    if b <= k {
        let s = whole.skip(i - a);
        assert forall|j: int| 0 <= j < s.len() implies s[j] != c by {
            assert(s[j] == v[i + j]);
            assert(v.skip(i)[j] == v[i + j]);
        }
        lemma_find_char_none(s, c);
    }
}


/// The attribute view of an attribute list.
pub open spec fn attrs_v(list: Seq<(String, String)>) -> Seq<(Seq<char>, Seq<char>)> {
    list.map_values(|p: (String, String)| (p.0@, p.1@))
}

/// The attributes of a tag body, after the element name: whitespace,
/// then `key="value"` pairs (single or double quoted), repeated.
pub open spec fn parse_attrs(s: Seq<char>) -> Result<Seq<(Seq<char>, Seq<char>)>, MarcErrV>
    decreases s.len(),
{
    let w = ws_count(s);
    if !(0 <= w <= s.len()) {
        Err(MarcErrV::InvalidXml)
    } else if w == s.len() {
        Ok(Seq::empty())
    } else {
        let t = s.skip(w);
        let e = find_char(t, '=');
        if !(0 <= e < t.len()) {
            Err(MarcErrV::InvalidXml)
        } else {
            let key = trim_ws_end(t.take(e));
            let u = t.skip(e + 1);
            let w2 = ws_count(u);
            if !(0 <= w2 < u.len()) {
                Err(MarcErrV::InvalidXml)
            } else {
                let q = u[w2];
                if q != '"' && q != '\'' {
                    Err(MarcErrV::InvalidXml)
                } else {
                    let u2 = u.skip(w2 + 1);
                    let j = find_char(u2, q);
                    if !(0 <= j < u2.len()) {
                        Err(MarcErrV::InvalidXml)
                    } else {
                        match unesc_xml(u2.take(j)) {
                            Err(e2) => Err(e2),
                            Ok(val) => match parse_attrs(u2.skip(j + 1)) {
                                Err(e3) => Err(e3),
                                Ok(others) => Ok(seq![(key, val)] + others),
                            },
                        }
                    }
                }
            }
        }
    }
}

/// Parses the attributes written in `v` within `[a, b)`.
#[verifier::loop_isolation(false)]
#[verifier::rlimit(100)]
fn parse_attrs_exec(v: &Vec<char>, a: usize, b: usize) -> (r: Result<Vec<(String, String)>, MarcError>)
    requires
        a <= b <= v@.len(),
    ensures
        r matches Ok(list) ==> (parse_attrs(v@.subrange(a as int, b as int)) matches Ok(l)
            && attrs_v(list@) == l),
        r matches Err(e) ==> (parse_attrs(v@.subrange(a as int, b as int)) matches Err(l) && e@
            == l),
    decreases b - a,
{
    let ghost sub = v@.subrange(a as int, b as int);
    let mut t: usize = a;
    while t < b && (v[t] == ' ' || v[t] == '\t' || v[t] == '\n' || v[t] == '\r')
        invariant
            a <= t <= b,
            forall|j: int| a <= j < t ==> is_ws(v@[j]),
        decreases b - t,
    {
        t += 1;
    }
    proof {
        assert forall|j: int| 0 <= j < t - a implies is_ws(sub[j]) by {
            assert(sub[j] == v@[a + j]);
        }
        if t < b {
            assert(sub[t - a] == v@[t as int]);
            assert(!is_ws(sub[t - a]));
        }
        lemma_ws_count_is(sub, t - a);
    }
    if t == b {
        let r: Vec<(String, String)> = Vec::new();
        proof {
            assert(attrs_v(r@) =~= Seq::<(Seq<char>, Seq<char>)>::empty());
            assert(parse_attrs(sub) == Ok::<Seq<(Seq<char>, Seq<char>)>, MarcErrV>(Seq::empty()));
        }
        return Ok(r);
    }
    let ghost tseq = sub.skip(t - a);
    proof {
        assert(tseq =~= v@.subrange(t as int, b as int));
    }
    let eq = match find_char_from(v, '=', t) {
        Some(e) if e < b => e,
        _ => {
            proof {
                lemma_no_eq_in_window(v@, tseq, t as int, b as int, '=');
            }
            return Err(MarcError::InvalidXml);
        },
    };
    proof {
        lemma_find_char(v@.skip(t as int), '=');
        assert(v@.skip(t as int)[eq - t] == '=');
        assert(v@[eq as int] == '=');
        assert forall|j: int| 0 <= j < eq - t implies tseq[j] != '=' by {
            assert(tseq[j] == v@[t + j]);
            assert(v@.skip(t as int)[j] == v@[t + j]);
        }
        assert(tseq[eq - t] == '=');
        lemma_find_char_is_first(tseq, '=', eq - t);
    }
    let mut ke: usize = eq;
    while ke > t && (v[ke - 1] == ' ' || v[ke - 1] == '\t' || v[ke - 1] == '\n' || v[ke - 1]
        == '\r')
        invariant
            t <= ke <= eq,
            forall|j: int| ke <= j < eq ==> is_ws(v@[j]),
        decreases ke,
    {
        ke -= 1;
    }
    let ghost key_raw = tseq.take(eq - t);
    proof {
        assert(key_raw =~= v@.subrange(t as int, eq as int));
        assert forall|j: int| ke - t <= j < key_raw.len() implies is_ws(key_raw[j]) by {
            assert(key_raw[j] == v@[t + j]);
        }
        if ke > t {
            assert(key_raw[ke - t - 1] == v@[ke - 1]);
        }
        lemma_trim_ws_end_is(key_raw, ke - t);
        assert(key_raw.take(ke - t) =~= v@.subrange(t as int, ke as int));
    }
    let keyv = vec_range(v, t, ke);
    let key_s = chars_to_string(&keyv);
    let mut q0: usize = eq + 1;
    while q0 < b && (v[q0] == ' ' || v[q0] == '\t' || v[q0] == '\n' || v[q0] == '\r')
        invariant
            eq + 1 <= q0 <= b,
            forall|j: int| eq + 1 <= j < q0 ==> is_ws(v@[j]),
        decreases b - q0,
    {
        q0 += 1;
    }
    let ghost useq = tseq.skip(eq - t + 1);
    proof {
        assert(useq =~= v@.subrange(eq + 1, b as int));
        assert forall|j: int| 0 <= j < q0 - eq - 1 implies is_ws(useq[j]) by {
            assert(useq[j] == v@[eq + 1 + j]);
        }
        if q0 < b {
            assert(useq[q0 - eq - 1] == v@[q0 as int]);
        }
        lemma_ws_count_is(useq, q0 - eq - 1);
    }
    if q0 == b {
        return Err(MarcError::InvalidXml);
    }
    let qc = v[q0];
    proof {
        assert(useq[q0 - eq - 1] == qc);
    }
    if qc != '"' && qc != '\'' {
        return Err(MarcError::InvalidXml);
    }
    let ghost u2 = useq.skip(q0 - eq);
    proof {
        assert(u2 =~= v@.subrange(q0 + 1, b as int));
    }
    let qe = match find_char_from(v, qc, q0 + 1) {
        Some(k) if k < b => k,
        _ => {
            proof {
                lemma_no_eq_in_window(v@, u2, q0 + 1, b as int, qc);
            }
            return Err(MarcError::InvalidXml);
        },
    };
    proof {
        lemma_find_char(v@.skip(q0 + 1), qc);
        assert(v@.skip(q0 + 1)[qe - q0 - 1] == qc);
        assert(v@[qe as int] == qc);
        assert forall|j: int| 0 <= j < qe - q0 - 1 implies u2[j] != qc by {
            assert(u2[j] == v@[q0 + 1 + j]);
            assert(v@.skip(q0 + 1)[j] == v@[q0 + 1 + j]);
        }
        assert(u2[qe - q0 - 1] == qc);
        lemma_find_char_is_first(u2, qc, qe - q0 - 1);
        assert(u2.take(qe - q0 - 1) =~= v@.subrange(q0 + 1, qe as int));
    }
    let val_s = match unescape_xml_range(v, q0 + 1, qe) {
        Ok(t2) => t2,
        Err(e) => {
            return Err(e);
        },
    };
    proof {
        assert(u2.skip(qe - q0) =~= v@.subrange(qe + 1, b as int));
    }
    let mut rest = match parse_attrs_exec(v, qe + 1, b) {
        Ok(list) => list,
        Err(e) => {
            return Err(e);
        },
    };
    let mut out: Vec<(String, String)> = Vec::new();
    out.push((key_s, val_s));
    out.append(&mut rest);
    proof {
        let ghost expect = parse_attrs(sub)->Ok_0;
        assert(attrs_v(out@) =~= expect);
    }
    Ok(out)
}

/// When the searched character does not occur inside the window, the
/// window has no first occurrence of it.
proof fn lemma_no_eq_in_window(v: Seq<char>, win: Seq<char>, a: int, b: int, c: char)
    requires
        0 <= a <= b <= v.len(),
        win == v.subrange(a, b),
        match find_char(v.skip(a), c) {
            r => r == -1 || r + a >= b,
        },
    ensures
        find_char(win, c) == -1,
{
    lemma_find_char(v.skip(a), c);
    assert forall|j: int| 0 <= j < win.len() implies win[j] != c by {
        assert(win[j] == v[a + j]);
        assert(v.skip(a)[j] == v[a + j]);
    }
    lemma_find_char_none(win, c);
}

/// A tag body split into its element name and attributes.
pub open spec fn parse_tag_body(body: Seq<char>) -> Result<
    (Seq<char>, Seq<(Seq<char>, Seq<char>)>),
    MarcErrV,
> {
    let fw = find_ws(body);
    let k = if 0 <= fw < body.len() {
        fw
    } else {
        body.len() as int
    };
    match parse_attrs(body.skip(k)) {
        Err(e) => Err(e),
        Ok(attrs) => Ok((body.take(k), attrs)),
    }
}

/// One parsed XML event: an element start with its attributes, an
/// element end, or a run of character data.
pub enum EvV {
    Start(Seq<char>, Seq<(Seq<char>, Seq<char>)>),
    End(Seq<char>),
    Text(Seq<char>),
}

/// One step of tokenization: the end of input, a failure, or some
/// events together with how much input they consumed and the new
/// element stack.
pub enum TokStep {
    Fail(MarcErrV),
    Finish,
    Step(Seq<EvV>, int, Seq<Seq<char>>),
}

/// The next tokenization step on input `s` with open elements `stack`:
/// text runs end at `<`; declarations and comments are skipped to the
/// next `>`; end tags must match the innermost open element; start tags
/// carry attributes and may be self-closing.
pub open spec fn next_tok(s: Seq<char>, stack: Seq<Seq<char>>) -> TokStep {
    if s.len() == 0 {
        if stack.len() == 0 {
            TokStep::Finish
        } else {
            TokStep::Fail(MarcErrV::InvalidXml)
        }
    } else if s[0] != '<' {
        let i = find_char(s, '<');
        let k = if 0 <= i < s.len() {
            i
        } else {
            s.len() as int
        };
        match unesc_xml(s.take(k)) {
            Err(e) => TokStep::Fail(e),
            Ok(t) => TokStep::Step(seq![EvV::Text(t)], k, stack),
        }
    } else if s.len() >= 2 && (s[1] == '?' || s[1] == '!') {
        let i = find_char(s, '>');
        if 0 <= i < s.len() {
            TokStep::Step(Seq::empty(), i + 1, stack)
        } else {
            TokStep::Fail(MarcErrV::InvalidXml)
        }
    } else if s.len() >= 2 && s[1] == '/' {
        let i = find_char(s, '>');
        if !(2 <= i < s.len()) {
            TokStep::Fail(MarcErrV::InvalidXml)
        } else {
            let name = s.subrange(2, i);
            if stack.len() > 0 && stack.last() == name {
                TokStep::Step(seq![EvV::End(name)], i + 1, stack.drop_last())
            } else {
                TokStep::Fail(MarcErrV::InvalidXml)
            }
        }
    } else {
        let i = find_char(s, '>');
        if !(0 <= i < s.len()) {
            TokStep::Fail(MarcErrV::InvalidXml)
        } else {
            let inner = s.subrange(1, i);
            let selfc = inner.len() > 0 && inner[inner.len() - 1] == '/';
            let body = if selfc {
                inner.take(inner.len() - 1)
            } else {
                inner
            };
            match parse_tag_body(body) {
                Err(e) => TokStep::Fail(e),
                Ok(na) => {
                    if na.0.len() == 0 {
                        TokStep::Fail(MarcErrV::InvalidXml)
                    } else if selfc {
                        TokStep::Step(
                            seq![EvV::Start(na.0, na.1), EvV::End(na.0)],
                            i + 1,
                            stack,
                        )
                    } else {
                        TokStep::Step(seq![EvV::Start(na.0, na.1)], i + 1, stack.push(na.0))
                    }
                },
            }
        }
    }
}

/// The event sequence of the XML text `s`, starting with the given open
/// elements; every element opened must be closed by the end of input.
pub open spec fn xml_events(s: Seq<char>, stack: Seq<Seq<char>>) -> Result<Seq<EvV>, MarcErrV>
    decreases s.len(),
{
    match next_tok(s, stack) {
        TokStep::Fail(e) => Err(e),
        TokStep::Finish => Ok(Seq::empty()),
        TokStep::Step(evs, d, st2) => {
            if 1 <= d <= s.len() {
                match xml_events(s.skip(d), st2) {
                    Ok(rest) => Ok(evs + rest),
                    Err(e) => Err(e),
                }
            } else {
                Err(MarcErrV::InvalidXml)
            }
        },
    }
}

/// One parsed XML event, executable form.
pub enum XmlEv {
    Start(String, Vec<(String, String)>),
    End(String),
    Text(String),
}

impl View for XmlEv {
    type V = EvV;

    open spec fn view(&self) -> EvV {
        match self {
            XmlEv::Start(n, a) => EvV::Start(n@, attrs_v(a@)),
            XmlEv::End(n) => EvV::End(n@),
            XmlEv::Text(t) => EvV::Text(t@),
        }
    }
}

/// The event views of an event list.
pub open spec fn evs_v(evs: Seq<XmlEv>) -> Seq<EvV> {
    evs.map_values(|e: XmlEv| e@)
}

/// The name views of an element stack.
pub open spec fn stack_v(st: Seq<String>) -> Seq<Seq<char>> {
    st.map_values(|s: String| s@)
}

/// Handles one end tag beginning at `pos`, whose `>` stands at `g`.
#[verifier::loop_isolation(false)]
#[verifier::rlimit(60)]
fn tok_end_tag(cs: &Vec<char>, pos: usize, g: usize, stack: &mut Vec<String>) -> (r: Result<
    XmlEv,
    MarcError,
>)
    requires
        pos + 1 < cs@.len(),
        pos + 1 <= g < cs@.len(),
        cs@[pos as int] == '<',
        cs@[pos + 1] == '/',
        find_char(cs@.skip(pos as int), '>') == g - pos,
    ensures
        r matches Ok(ev) ==> (next_tok(cs@.skip(pos as int), stack_v(old(stack)@))
            matches TokStep::Step(evs, d, st2) && evs == seq![ev@] && d == g + 1 - pos && st2
            == stack_v(final(stack)@)),
        r matches Err(e) ==> (next_tok(cs@.skip(pos as int), stack_v(old(stack)@))
            matches TokStep::Fail(e2) && e2 == e@),
{
    let n = cs.len();
    assert(n == cs@.len());
    let ghost s = cs@.skip(pos as int);
    let ghost stv = stack_v(stack@);
    proof {
        assert(s[0] == '<');
        assert(s[1] == cs@[pos + 1]);
    }
    if g < pos + 2 {
        return Err(MarcError::InvalidXml);
    }
    let namev = vec_range(cs, pos + 2, g);
    proof {
        assert(namev@ =~= s.subrange(2, g - pos));
    }
    if stack.len() == 0 {
        return Err(MarcError::InvalidXml);
    }
    let top = &stack[stack.len() - 1];
    let topc = str_chars(top.as_str());
    proof {
        assert(stv.last() == stack@[stack@.len() - 1]@);
    }
    if !crate::text::chars_eq(&topc, &namev) {
        return Err(MarcError::InvalidXml);
    }
    let name_s = chars_to_string(&namev);
    stack.pop();
    proof {
        assert(stack_v(stack@) =~= stv.drop_last());
    }
    let ev = XmlEv::End(name_s);
    proof {
        assert(next_tok(s, stv) matches TokStep::Step(evs, d, st2) && evs == seq![EvV::End(namev@)]
            && d == g + 1 - pos && st2 == stv.drop_last());
        assert(seq![ev@] =~= seq![EvV::End(namev@)]);
    }
    Ok(ev)
}

/// Handles one start tag beginning at `pos`, whose `>` stands at `g`.
#[verifier::loop_isolation(false)]
#[verifier::rlimit(100)]
fn tok_start_tag(cs: &Vec<char>, pos: usize, g: usize, stack: &mut Vec<String>) -> (r: Result<
    Vec<XmlEv>,
    MarcError,
>)
    requires
        pos + 1 <= g < cs@.len(),
        cs@[pos as int] == '<',
        cs@[pos + 1] != '?' && cs@[pos + 1] != '!' && cs@[pos + 1] != '/',
        find_char(cs@.skip(pos as int), '>') == g - pos,
    ensures
        r matches Ok(evs) ==> (next_tok(cs@.skip(pos as int), stack_v(old(stack)@))
            matches TokStep::Step(evsv, d, st2) && evsv == evs_v(evs@) && d == g + 1 - pos && st2
            == stack_v(final(stack)@)),
        r matches Err(e) ==> (next_tok(cs@.skip(pos as int), stack_v(old(stack)@))
            matches TokStep::Fail(e2) && e2 == e@),
{
    let ghost s = cs@.skip(pos as int);
    let ghost stv = stack_v(stack@);
    proof {
        assert(s[0] == '<');
        assert(s[1] == cs@[pos + 1]);
    }
    let ghost inner = s.subrange(1, g - pos);
    proof {
        assert(inner =~= cs@.subrange(pos + 1, g as int));
    }
    let selfc = g > pos + 1 && cs[g - 1] == '/';
    let body_end: usize = if selfc {
        g - 1
    } else {
        g
    };
    let ghost body = if selfc {
        inner.take(inner.len() - 1)
    } else {
        inner
    };
    proof {
        if inner.len() > 0 {
            assert(inner[inner.len() - 1] == cs@[g - 1]);
        }
        assert(body =~= cs@.subrange(pos + 1, body_end as int));
    }
    let mut ne: usize = pos + 1;
    while ne < body_end && !(cs[ne] == ' ' || cs[ne] == '\t' || cs[ne] == '\n' || cs[ne] == '\r')
        invariant
            pos + 1 <= ne <= body_end,
            forall|j: int| pos + 1 <= j < ne ==> !is_ws(cs@[j]),
        decreases body_end - ne,
    {
        ne += 1;
    }
    proof {
        assert forall|j: int| 0 <= j < ne - pos - 1 implies !is_ws(body[j]) by {
            assert(body[j] == cs@[pos + 1 + j]);
        }
        if ne < body_end {
            assert(body[ne - pos - 1] == cs@[ne as int]);
            lemma_find_ws_is(body, ne - pos - 1);
        } else {
            lemma_find_ws_none(body);
        }
    }
    let namev = vec_range(cs, pos + 1, ne);
    proof {
        assert(namev@ =~= body.take(ne - pos - 1));
    }
    if namev.len() == 0 {
        proof {
            assert(body.skip(ne - pos - 1) =~= cs@.subrange(ne as int, body_end as int));
        }
        match parse_attrs_exec(cs, ne, body_end) {
            Ok(_) => {
                proof {
                    assert(parse_tag_body(body) matches Ok(na) && na.0 == namev@);
                    assert(next_tok(s, stv) matches TokStep::Fail(e2) && e2
                        == MarcErrV::InvalidXml);
                }
                return Err(MarcError::InvalidXml);
            },
            Err(e) => {
                proof {
                    assert(parse_tag_body(body) matches Err(e2) && e2 == e@);
                    assert(next_tok(s, stv) matches TokStep::Fail(e3) && e3 == e@);
                }
                return Err(e);
            },
        }
    }
    proof {
        assert(body.skip(ne - pos - 1) =~= cs@.subrange(ne as int, body_end as int));
    }
    let attrs = match parse_attrs_exec(cs, ne, body_end) {
        Ok(list) => list,
        Err(e) => {
            proof {
                assert(parse_tag_body(body) matches Err(e2) && e2 == e@);
                assert(next_tok(s, stv) matches TokStep::Fail(e3) && e3 == e@);
            }
            return Err(e);
        },
    };
    let name_s = chars_to_string(&namev);
    let name_s2 = name_s.clone();
    proof {
        assert(parse_tag_body(body) matches Ok(na) && na.0 == namev@ && na.1 == attrs_v(attrs@));
    }
    let mut out: Vec<XmlEv> = Vec::new();
    if selfc {
        out.push(XmlEv::Start(name_s, attrs));
        out.push(XmlEv::End(name_s2));
        proof {
            assert(next_tok(s, stv) matches TokStep::Step(evsv, d, st2) && evsv == seq![
                EvV::Start(namev@, attrs_v(out@[0]->Start_1@)),
                EvV::End(namev@),
            ] && d == g + 1 - pos && st2 == stv);
            assert(evs_v(out@) =~= next_tok(s, stv)->Step_0);
        }
    } else {
        out.push(XmlEv::Start(name_s, attrs));
        stack.push(name_s2);
        proof {
            assert(stack_v(stack@) =~= stv.push(namev@));
            assert(next_tok(s, stv) matches TokStep::Step(evsv, d, st2) && evsv == seq![
                EvV::Start(namev@, attrs_v(out@[0]->Start_1@)),
            ] && d == g + 1 - pos && st2 == stv.push(namev@));
            assert(evs_v(out@) =~= next_tok(s, stv)->Step_0);
        }
    }
    Ok(out)
}

/// One tokenization step carries the accumulated-events relation from
/// `pos` to `pos + d`.
proof fn lemma_tok_inv_step(
    cs: Seq<char>,
    pos: int,
    stv: Seq<Seq<char>>,
    outv: Seq<EvV>,
    evs: Seq<EvV>,
    d: int,
    st2: Seq<Seq<char>>,
)
    requires
        0 <= pos,
        pos + d <= cs.len(),
        1 <= d,
        next_tok(cs.skip(pos), stv) == TokStep::Step(evs, d, st2),
        match xml_events(cs.skip(pos), stv) {
            Ok(rest) => xml_events(cs, Seq::empty()) matches Ok(all) && all == outv + rest,
            Err(e) => xml_events(cs, Seq::empty()) matches Err(e2) && e2 == e,
        },
    ensures
        match xml_events(cs.skip(pos + d), st2) {
            Ok(rest) => xml_events(cs, Seq::empty()) matches Ok(all) && all == (outv + evs) + rest,
            Err(e) => xml_events(cs, Seq::empty()) matches Err(e2) && e2 == e,
        },
{
    assert(cs.skip(pos).skip(d) =~= cs.skip(pos + d));
    match xml_events(cs.skip(pos + d), st2) {
        Ok(rest) => {
            assert((outv + evs) + rest =~= outv + (evs + rest));
        },
        Err(e) => {},
    }
}

/// A failing tokenization step makes the whole tokenization fail.
proof fn lemma_tok_inv_fail(
    cs: Seq<char>,
    pos: int,
    stv: Seq<Seq<char>>,
    outv: Seq<EvV>,
    e: MarcErrV,
)
    requires
        0 <= pos <= cs.len(),
        next_tok(cs.skip(pos), stv) == TokStep::Fail(e),
        match xml_events(cs.skip(pos), stv) {
            Ok(rest) => xml_events(cs, Seq::empty()) matches Ok(all) && all == outv + rest,
            Err(e3) => xml_events(cs, Seq::empty()) matches Err(e2) && e2 == e3,
        },
    ensures
        xml_events(cs, Seq::empty()) matches Err(e2) && e2 == e,
{
}

/// Tokenizes a whole XML text.
#[verifier::loop_isolation(false)]
#[verifier::rlimit(100)]
fn tokenize_xml(cs: &Vec<char>) -> (r: Result<Vec<XmlEv>, MarcError>)
    ensures
        r matches Ok(evs) ==> (xml_events(cs@, Seq::empty()) matches Ok(l) && evs_v(evs@) == l),
        r matches Err(e) ==> (xml_events(cs@, Seq::empty()) matches Err(l) && e@ == l),
{
    let mut out: Vec<XmlEv> = Vec::new();
    let mut stack: Vec<String> = Vec::new();
    let mut pos: usize = 0;
    proof {
        assert(cs@.skip(0) =~= cs@);
        assert(stack_v(stack@) =~= Seq::<Seq<char>>::empty());
        assert(evs_v(out@) =~= Seq::<EvV>::empty());
    }
    while pos < cs.len()
        invariant
            pos <= cs@.len(),
            match xml_events(cs@.skip(pos as int), stack_v(stack@)) {
                Ok(rest) => xml_events(cs@, Seq::empty()) matches Ok(all) && all == evs_v(out@)
                    + rest,
                Err(e) => xml_events(cs@, Seq::empty()) matches Err(e2) && e2 == e,
            },
        decreases cs@.len() - pos,
    {
        let ghost s = cs@.skip(pos as int);
        let ghost stv = stack_v(stack@);
        let c = cs[pos];
        proof {
            assert(s[0] == c);
        }
        if c != '<' {
            let k: usize = match find_char_from(cs, '<', pos) {
                Some(k) => k,
                None => cs.len(),
            };
            proof {
                if k < cs@.len() {
                    assert(find_char(s, '<') == k - pos);
                } else {
                    assert(find_char(s, '<') == -1);
                }
                assert(s.take(k - pos) =~= cs@.subrange(pos as int, k as int));
            }
            let t = match unescape_xml_range(cs, pos, k) {
                Ok(t) => t,
                Err(e) => {
                    proof {
                        assert(next_tok(s, stv) matches TokStep::Fail(e2) && e2 == e@);
                        lemma_tok_inv_fail(cs@, pos as int, stv, evs_v(out@), e@);
                    }
                    return Err(e);
                },
            };
            proof {
                assert(next_tok(s, stv) matches TokStep::Step(evs, d, st2) && evs == seq![
                    EvV::Text(t@),
                ] && d == k - pos && st2 == stv);
                assert(k - pos >= 1) by {
                    if k == pos {
                        assert(s[0] == '<');
                    }
                }
                lemma_tok_inv_step(cs@, pos as int, stv, evs_v(out@), seq![EvV::Text(t@)], k - pos, stv);
            }
            out.push(XmlEv::Text(t));
            proof {
                assert(evs_v(out@) =~= evs_v(out@.drop_last()) + seq![out@.last()@]);
            }
            pos = k;
        } else {
            let g: usize = match find_char_from(cs, '>', pos) {
                Some(g) => g,
                None => {
                    proof {
                        assert(find_char(s, '>') == -1);
                        assert(next_tok(s, stv) matches TokStep::Fail(e2) && e2
                            == MarcErrV::InvalidXml);
                        lemma_tok_inv_fail(cs@, pos as int, stv, evs_v(out@), MarcErrV::InvalidXml);
                    }
                    return Err(MarcError::InvalidXml);
                },
            };
            proof {
                assert(find_char(s, '>') == g - pos);
                lemma_find_char(s, '>');
                assert(s[g - pos] == '>');
                assert(g > pos);
            }
            if pos + 1 < cs.len() && (cs[pos + 1] == '?' || cs[pos + 1] == '!') {
                proof {
                    assert(s[1] == cs@[pos + 1]);
                    assert(next_tok(s, stv) matches TokStep::Step(evs, d, st2) && evs
                        == Seq::<EvV>::empty() && d == g + 1 - pos && st2 == stv);
                    lemma_tok_inv_step(
                        cs@,
                        pos as int,
                        stv,
                        evs_v(out@),
                        Seq::empty(),
                        g + 1 - pos,
                        stv,
                    );
                    assert(evs_v(out@) + Seq::<EvV>::empty() =~= evs_v(out@));
                }
                pos = g + 1;
            } else if pos + 1 < cs.len() && cs[pos + 1] == '/' {
                proof {
                    assert(s[1] == cs@[pos + 1]);
                }
                let ev = match tok_end_tag(cs, pos, g, &mut stack) {
                    Ok(ev) => ev,
                    Err(e) => {
                        proof {
                            lemma_tok_inv_fail(cs@, pos as int, stv, evs_v(out@), e@);
                        }
                        return Err(e);
                    },
                };
                proof {
                    lemma_tok_inv_step(
                        cs@,
                        pos as int,
                        stv,
                        evs_v(out@),
                        seq![ev@],
                        g + 1 - pos,
                        stack_v(stack@),
                    );
                }
                out.push(ev);
                proof {
                    assert(evs_v(out@) =~= evs_v(out@.drop_last()) + seq![out@.last()@]);
                }
                pos = g + 1;
            } else {
                proof {
                    if pos + 1 < cs@.len() {
                        assert(s[1] == cs@[pos + 1]);
                    } else {
                        assert(g > pos);
                        assert(g < cs@.len());
                        assert(false);
                    }
                }
                let mut evs = match tok_start_tag(cs, pos, g, &mut stack) {
                    Ok(evs) => evs,
                    Err(e) => {
                        proof {
                            lemma_tok_inv_fail(cs@, pos as int, stv, evs_v(out@), e@);
                        }
                        return Err(e);
                    },
                };
                let ghost evsv = evs_v(evs@);
                let ghost out_before = evs_v(out@);
                proof {
                    lemma_tok_inv_step(
                        cs@,
                        pos as int,
                        stv,
                        out_before,
                        evsv,
                        g + 1 - pos,
                        stack_v(stack@),
                    );
                }
                out.append(&mut evs);
                proof {
                    assert(evs_v(out@) =~= out_before + evsv);
                }
                pos = g + 1;
            }
        }
    }
    proof {
        assert(cs@.skip(cs@.len() as int) =~= Seq::<char>::empty());
    }
    if stack.len() != 0 {
        proof {
            assert(stack_v(stack@).len() != 0);
            assert(next_tok(Seq::<char>::empty(), stack_v(stack@)) matches TokStep::Fail(e) && e
                == MarcErrV::InvalidXml);
        }
        return Err(MarcError::InvalidXml);
    }
    proof {
        assert(stack_v(stack@) =~= Seq::<Seq<char>>::empty());
        assert(xml_events(cs@, Seq::empty()) matches Ok(all) && all == evs_v(out@));
    }
    Ok(out)
}


/// The routing state of the MARCXML reader: which text-bearing element
/// is currently open, and whether a whole record has been read.
#[derive(Clone, Copy)]
pub struct XmlParseContext {
    pub in_cfield: bool,
    pub in_subfield: bool,
    pub in_leader: bool,
    pub record_complete: bool,
}

/// The initial routing state.
pub open spec fn ctx0() -> XmlParseContext {
    XmlParseContext {
        in_cfield: false,
        in_subfield: false,
        in_leader: false,
        record_complete: false,
    }
}

/// The value of the first attribute whose local name is `name`.
pub open spec fn find_attr(attrs: Seq<(Seq<char>, Seq<char>)>, name: Seq<char>) -> Option<
    Seq<char>,
>
    decreases attrs.len(),
{
    if attrs.len() == 0 {
        None
    } else if local_name(attrs[0].0) == name {
        Some(attrs[0].1)
    } else {
        find_attr(attrs.drop_first(), name)
    }
}

/// Looks up the first attribute whose local name is `name`.
fn find_attr_exec(attrs: &Vec<(String, String)>, name: &Vec<char>) -> (r: Option<String>)
    ensures
        match r {
            Some(v) => find_attr(attrs_v(attrs@), name@) == Some(v@),
            None => find_attr(attrs_v(attrs@), name@) is None,
        },
{
    let ghost whole = attrs_v(attrs@);
    let mut i: usize = 0;
    proof {
        assert(whole.skip(0) =~= whole);
    }
    while i < attrs.len()
        invariant
            i <= attrs@.len(),
            whole == attrs_v(attrs@),
            find_attr(whole.skip(i as int), name@) == find_attr(whole, name@),
        decreases attrs@.len() - i,
    {
        let keyc = str_chars(attrs[i].0.as_str());
        let ln = local_name_chars(&keyc);
        proof {
            assert(whole.skip(i as int)[0] == whole[i as int]);
            assert(whole[i as int] == (attrs@[i as int].0@, attrs@[i as int].1@));
            assert(whole.skip(i as int).drop_first() =~= whole.skip(i + 1));
        }
        if crate::text::chars_eq(&ln, name) {
            return Some(attrs[i].1.clone());
        }
        i += 1;
    }
    proof {
        assert(whole.skip(whole.len() as int) =~= Seq::<(Seq<char>, Seq<char>)>::empty());
    }
    None
}

/// Whether the characters of `v` spell the word `w`.
fn is_word(v: &Vec<char>, w: &str) -> (r: bool)
    ensures
        r <==> v@ == w@,
{
    let wc = str_chars(w);
    crate::text::chars_eq(v, &wc)
}

/// How one XML event extends a record under the current routing state:
/// element starts open contexts and add fields, character data fills the
/// open context, and element ends close contexts; the end of the
/// `record` element marks the record complete.
pub open spec fn handle_ev(rv: RecordV, ctx: XmlParseContext, ev: EvV) -> Result<
    (RecordV, XmlParseContext),
    MarcErrV,
> {
    match ev {
        EvV::Start(name, attrs) => {
            let ln = local_name(name);
            if ln == "leader"@ {
                Ok((rv, XmlParseContext { in_leader: true, ..ctx }))
            } else if ln == "controlfield"@ {
                match find_attr(attrs, "tag"@) {
                    None => Err(MarcErrV::MissingTag),
                    Some(t) => {
                        if tag_wf(t) {
                            Ok(
                                (
                                    RecordV {
                                        cfs: rv.cfs.push(ControlfieldV { tag: t, content: None }),
                                        ..rv
                                    },
                                    XmlParseContext { in_cfield: true, ..ctx },
                                ),
                            )
                        } else {
                            Err(MarcErrV::InvalidLength(t))
                        }
                    },
                }
            } else if ln == "datafield"@ {
                match find_attr(attrs, "tag"@) {
                    None => Err(MarcErrV::MissingTag),
                    Some(t) => {
                        if !tag_wf(t) {
                            Err(MarcErrV::InvalidLength(t))
                        } else {
                            let i1 = find_attr(attrs, "ind1"@);
                            let i2 = find_attr(attrs, "ind2"@);
                            if i1 matches Some(v1) && !(v1.len() == 0 || byte_len(v1) == 1) {
                                Err(MarcErrV::InvalidLength(i1->Some_0))
                            } else if i2 matches Some(v2) && !(v2.len() == 0 || byte_len(v2)
                                == 1) {
                                Err(MarcErrV::InvalidLength(i2->Some_0))
                            } else {
                                let f = FieldV {
                                    tag: t,
                                    ind1: match i1 {
                                        Some(v) => norm_ind(v),
                                        None => None,
                                    },
                                    ind2: match i2 {
                                        Some(v) => norm_ind(v),
                                        None => None,
                                    },
                                    sfs: Seq::empty(),
                                };
                                Ok((RecordV { fields: rv.fields.push(f), ..rv }, ctx))
                            }
                        }
                    },
                }
            } else if ln == "subfield"@ {
                if rv.fields.len() > 0 {
                    match find_attr(attrs, "code"@) {
                        Some(c) => {
                            if code_wf(c) {
                                let last = rv.fields.len() - 1;
                                let lf = rv.fields[last];
                                Ok(
                                    (
                                        RecordV {
                                            fields: rv.fields.update(
                                                last,
                                                FieldV {
                                                    sfs: lf.sfs.push(
                                                        SubfieldV { code: c, content: None },
                                                    ),
                                                    ..lf
                                                },
                                            ),
                                            ..rv
                                        },
                                        XmlParseContext { in_subfield: true, ..ctx },
                                    ),
                                )
                            } else {
                                Ok((rv, ctx))
                            }
                        },
                        None => Ok((rv, ctx)),
                    }
                } else {
                    Ok((rv, ctx))
                }
            } else {
                Ok((rv, ctx))
            }
        },
        EvV::Text(t) => {
            if ctx.in_leader {
                if leader_wf(t) {
                    Ok(
                        (
                            RecordV { leader: Some(t), ..rv },
                            XmlParseContext { in_leader: false, ..ctx },
                        ),
                    )
                } else {
                    Err(MarcErrV::InvalidLength(t))
                }
            } else if ctx.in_cfield {
                let c2 = XmlParseContext { in_cfield: false, ..ctx };
                if rv.cfs.len() > 0 {
                    let last = rv.cfs.len() - 1;
                    let lc = rv.cfs[last];
                    Ok(
                        (
                            RecordV {
                                cfs: rv.cfs.update(
                                    last,
                                    ControlfieldV { content: Some(t), ..lc },
                                ),
                                ..rv
                            },
                            c2,
                        ),
                    )
                } else {
                    Ok((rv, c2))
                }
            } else if ctx.in_subfield {
                let c2 = XmlParseContext { in_subfield: false, ..ctx };
                if rv.fields.len() > 0 && rv.fields[rv.fields.len() - 1].sfs.len() > 0 {
                    let last = rv.fields.len() - 1;
                    let lf = rv.fields[last];
                    let slast = lf.sfs.len() - 1;
                    let sf = lf.sfs[slast];
                    Ok(
                        (
                            RecordV {
                                fields: rv.fields.update(
                                    last,
                                    FieldV {
                                        sfs: lf.sfs.update(
                                            slast,
                                            SubfieldV { content: Some(t), ..sf },
                                        ),
                                        ..lf
                                    },
                                ),
                                ..rv
                            },
                            c2,
                        ),
                    )
                } else {
                    Ok((rv, c2))
                }
            } else {
                Ok((rv, ctx))
            }
        },
        EvV::End(name) => {
            let ln = local_name(name);
            if ln == "record"@ {
                Ok((rv, XmlParseContext { record_complete: true, ..ctx }))
            } else if ln == "leader"@ {
                Ok((rv, XmlParseContext { in_leader: false, ..ctx }))
            } else if ln == "controlfield"@ {
                Ok((rv, XmlParseContext { in_cfield: false, ..ctx }))
            } else if ln == "subfield"@ {
                Ok((rv, XmlParseContext { in_subfield: false, ..ctx }))
            } else {
                Ok((rv, ctx))
            }
        },
    }
}

/// Folds XML events onto a record, stopping after the record completes.
pub open spec fn fold_events(rv: RecordV, ctx: XmlParseContext, evs: Seq<EvV>) -> Result<
    RecordV,
    MarcErrV,
>
    decreases evs.len(),
{
    if evs.len() == 0 {
        Ok(rv)
    } else {
        match handle_ev(rv, ctx, evs[0]) {
            Err(e) => Err(e),
            Ok(p) => {
                if p.1.record_complete {
                    Ok(p.0)
                } else {
                    fold_events(p.0, p.1, evs.drop_first())
                }
            },
        }
    }
}

/// What a MARCXML text parses to: its first `record` element, or the
/// whole document's fields when no `record` end tag appears.
pub open spec fn parse_xml(s: Seq<char>) -> Result<RecordV, MarcErrV> {
    match xml_events(s, Seq::empty()) {
        Err(e) => Err(e),
        Ok(evs) => fold_events(empty_record(), ctx0(), evs),
    }
}

impl Record {
    /// Applies one XML event to this record.
    #[verifier::loop_isolation(false)]
    #[verifier::rlimit(100)]
    fn handle_xml_read_event(
        record: &mut Record,
        context: &mut XmlParseContext,
        evt: &XmlEv,
    ) -> (r: Result<(), MarcError>)
        ensures
            r is Ok ==> (handle_ev(old(record)@, *old(context), evt@) matches Ok(p)
                && final(record)@ == p.0 && *final(context) == p.1),
            r matches Err(e) ==> (handle_ev(old(record)@, *old(context), evt@) matches Err(v)
                && e@ == v),
    {
        match evt {
            XmlEv::Start(name, attrs) => {
                let namec = str_chars(name.as_str());
                let ln = local_name_chars(&namec);
                let mut tagword = str_chars("tag");
                if is_word(&ln, "leader") {
                    context.in_leader = true;
                    return Ok(());
                }
                if is_word(&ln, "controlfield") {
                    let t = match find_attr_exec(attrs, &tagword) {
                        Some(t) => t,
                        None => {
                            return Err(MarcError::MissingTag);
                        },
                    };
                    let cf = match Controlfield::new(t.as_str()) {
                        Ok(cf) => cf,
                        Err(e) => {
                            return Err(e);
                        },
                    };
                    record.control_fields.push(cf);
                    context.in_cfield = true;
                    proof {
                        let p = handle_ev(old(record)@, *old(context), evt@)->Ok_0;
                        assert(record@.cfs =~= old(record)@.cfs.push(cf@));
                        assert(record@ =~= p.0);
                    }
                    return Ok(());
                }
                if is_word(&ln, "datafield") {
                    let t = match find_attr_exec(attrs, &tagword) {
                        Some(t) => t,
                        None => {
                            return Err(MarcError::MissingTag);
                        },
                    };
                    let mut field = match Field::new(t.as_str()) {
                        Ok(f) => f,
                        Err(e) => {
                            return Err(e);
                        },
                    };
                    let i1word = str_chars("ind1");
                    match find_attr_exec(attrs, &i1word) {
                        Some(v) => {
                            match field.set_ind1(v.as_str()) {
                                Ok(()) => {},
                                Err(e) => {
                                    return Err(e);
                                },
                            }
                        },
                        None => {},
                    }
                    let i2word = str_chars("ind2");
                    match find_attr_exec(attrs, &i2word) {
                        Some(v) => {
                            match field.set_ind2(v.as_str()) {
                                Ok(()) => {},
                                Err(e) => {
                                    return Err(e);
                                },
                            }
                        },
                        None => {},
                    }
                    record.fields.push(field);
                    proof {
                        let p = handle_ev(old(record)@, *old(context), evt@)->Ok_0;
                        assert(record@.fields =~= old(record)@.fields.push(field@));
                        assert(record@ =~= p.0);
                    }
                    return Ok(());
                }
                if is_word(&ln, "subfield") {
                    if record.fields.len() == 0 {
                        return Ok(());
                    }
                    let codeword = str_chars("code");
                    let c = match find_attr_exec(attrs, &codeword) {
                        Some(c) => c,
                        None => {
                            return Ok(());
                        },
                    };
                    match Subfield::new(c.as_str()) {
                        Ok(sf) => {
                            let mut lf = match record.fields.pop() {
                                Some(lf) => lf,
                                None => {
                                    return Ok(());
                                },
                            };
                            lf.subfields.push(sf);
                            record.fields.push(lf);
                            context.in_subfield = true;
                            proof {
                                let p = handle_ev(old(record)@, *old(context), evt@)->Ok_0;
                                assert(lf@.sfs =~= old(record)@.fields.last().sfs.push(sf@));
                                assert(lf@ =~= (FieldV {
                                    sfs: old(record)@.fields.last().sfs.push(sf@),
                                    ..old(record)@.fields.last()
                                }));
                                assert(record@.fields =~= old(record)@.fields.update(
                                    old(record)@.fields.len() - 1,
                                    lf@,
                                ));
                                assert(record@ =~= p.0);
                            }
                            return Ok(());
                        },
                        Err(_) => {
                            return Ok(());
                        },
                    }
                }
                Ok(())
            },
            XmlEv::Text(t) => {
                if context.in_leader {
                    match record.set_leader(t.as_str()) {
                        Ok(()) => {},
                        Err(e) => {
                            return Err(e);
                        },
                    }
                    context.in_leader = false;
                    return Ok(());
                }
                if context.in_cfield {
                    context.in_cfield = false;
                    match record.control_fields.pop() {
                        Some(mut cf) => {
                            cf.set_content(t.as_str());
                            record.control_fields.push(cf);
                            proof {
                                let p = handle_ev(old(record)@, *old(context), evt@)->Ok_0;
                                assert(record@.cfs =~= old(record)@.cfs.update(
                                    old(record)@.cfs.len() - 1,
                                    ControlfieldV {
                                        content: Some(t@),
                                        ..old(record)@.cfs.last()
                                    },
                                ));
                                assert(record@ =~= p.0);
                            }
                        },
                        None => {},
                    }
                    return Ok(());
                }
                if context.in_subfield {
                    context.in_subfield = false;
                    match record.fields.pop() {
                        Some(mut lf) => {
                            match lf.subfields.pop() {
                                Some(mut sf) => {
                                    sf.set_content(t.as_str());
                                    lf.subfields.push(sf);
                                    record.fields.push(lf);
                                    proof {
                                        let p = handle_ev(old(record)@, *old(context), evt@)
                                            ->Ok_0;
                                        let ghost of = old(record)@.fields.last();
                                        assert(lf@.sfs =~= of.sfs.update(
                                            of.sfs.len() - 1,
                                            SubfieldV { content: Some(t@), ..of.sfs.last() },
                                        ));
                                        assert(record@.fields =~= old(record)@.fields.update(
                                            old(record)@.fields.len() - 1,
                                            lf@,
                                        ));
                                        assert(record@ =~= p.0);
                                    }
                                },
                                None => {
                                    record.fields.push(lf);
                                    proof {
                                        assert(record@.fields =~= old(record)@.fields);
                                        assert(record@ =~= old(record)@);
                                    }
                                },
                            }
                        },
                        None => {},
                    }
                    return Ok(());
                }
                Ok(())
            },
            XmlEv::End(name) => {
                let namec = str_chars(name.as_str());
                let ln = local_name_chars(&namec);
                if is_word(&ln, "record") {
                    context.record_complete = true;
                } else if is_word(&ln, "leader") {
                    context.in_leader = false;
                } else if is_word(&ln, "controlfield") {
                    context.in_cfield = false;
                } else if is_word(&ln, "subfield") {
                    context.in_subfield = false;
                }
                Ok(())
            },
        }
    }

    /// Builds one record from a MARCXML string; with several `record`
    /// elements present, the first is returned.
    #[verifier::loop_isolation(false)]
    pub fn from_xml(xml: &str) -> (r: Result<Self, MarcError>)
        ensures
            r matches Ok(rec) ==> (parse_xml(xml@) matches Ok(v) && rec@ == v),
            r matches Err(e) ==> (parse_xml(xml@) matches Err(v) && e@ == v),
    {
        let cs = str_chars(xml);
        let evs = match tokenize_xml(&cs) {
            Ok(evs) => evs,
            Err(e) => {
                return Err(e);
            },
        };
        let ghost evsv = evs_v(evs@);
        let mut record = Record::new();
        let mut context = XmlParseContext {
            in_cfield: false,
            in_subfield: false,
            in_leader: false,
            record_complete: false,
        };
        let mut i: usize = 0;
        proof {
            assert(evsv.skip(0) =~= evsv);
        }
        while i < evs.len() && !context.record_complete
            invariant
                i <= evs@.len(),
                evsv == evs_v(evs@),
                !context.record_complete ==> fold_events(record@, *&context, evsv.skip(i as int))
                    == fold_events(empty_record(), ctx0(), evsv),
                context.record_complete ==> fold_events(empty_record(), ctx0(), evsv) == Ok::<
                    RecordV,
                    MarcErrV,
                >(record@),
            decreases evs@.len() - i,
        {
            proof {
                assert(evsv.skip(i as int)[0] == evs@[i as int]@);
                assert(evsv.skip(i as int).drop_first() =~= evsv.skip(i + 1));
            }
            match Record::handle_xml_read_event(&mut record, &mut context, &evs[i]) {
                Ok(()) => {},
                Err(e) => {
                    return Err(e);
                },
            }
            i += 1;
        }
        proof {
            if !context.record_complete {
                assert(evsv.skip(evsv.len() as int) =~= Seq::<EvV>::empty());
            }
        }
        Ok(record)
    }

    /// Builds every record of a MARCXML string, one per complete
    /// `record` element, in order.
    #[verifier::loop_isolation(false)]
    pub fn from_xml_all(xml: &str) -> (r: Result<Vec<Record>, MarcError>)
        ensures
            r matches Ok(recs) ==> (parse_xml_all(xml@) matches Ok(v) && recs@.map_values(
                |rec: Record| rec@,
            ) == v),
            r matches Err(e) ==> (parse_xml_all(xml@) matches Err(v) && e@ == v),
    {
        let cs = str_chars(xml);
        let evs = match tokenize_xml(&cs) {
            Ok(evs) => evs,
            Err(e) => {
                return Err(e);
            },
        };
        let ghost evsv = evs_v(evs@);
        let mut out: Vec<Record> = Vec::new();
        let mut record = Record::new();
        let mut context = XmlParseContext {
            in_cfield: false,
            in_subfield: false,
            in_leader: false,
            record_complete: false,
        };
        let mut i: usize = 0;
        proof {
            assert(evsv.skip(0) =~= evsv);
            assert(out@.map_values(|rec: Record| rec@) =~= Seq::<RecordV>::empty());
        }
        while i < evs.len()
            invariant
                i <= evs@.len(),
                evsv == evs_v(evs@),
                !context.record_complete,
                fold_all(out@.map_values(|rec: Record| rec@), record@, *&context, evsv.skip(
                    i as int,
                )) == fold_all(Seq::empty(), empty_record(), ctx0(), evsv),
            decreases evs@.len() - i,
        {
            proof {
                assert(evsv.skip(i as int)[0] == evs@[i as int]@);
                assert(evsv.skip(i as int).drop_first() =~= evsv.skip(i + 1));
            }
            match Record::handle_xml_read_event(&mut record, &mut context, &evs[i]) {
                Ok(()) => {},
                Err(e) => {
                    return Err(e);
                },
            }
            if context.record_complete {
                let ghost outv0 = out@.map_values(|rec: Record| rec@);
                out.push(record);
                record = Record::new();
                context = XmlParseContext {
                    in_cfield: false,
                    in_subfield: false,
                    in_leader: false,
                    record_complete: false,
                };
                proof {
                    assert(out@.map_values(|rec: Record| rec@) =~= outv0.push(
                        out@.last()@,
                    ));
                }
            }
            i += 1;
        }
        proof {
            assert(evsv.skip(evsv.len() as int) =~= Seq::<EvV>::empty());
        }
        Ok(out)
    }
}

/// Folds XML events into a sequence of records, starting a fresh record
/// after each complete one; a trailing incomplete record is dropped.
pub open spec fn fold_all(
    rvs: Seq<RecordV>,
    rv: RecordV,
    ctx: XmlParseContext,
    evs: Seq<EvV>,
) -> Result<Seq<RecordV>, MarcErrV>
    decreases evs.len(),
{
    if evs.len() == 0 {
        Ok(rvs)
    } else {
        match handle_ev(rv, ctx, evs[0]) {
            Err(e) => Err(e),
            Ok(p) => {
                if p.1.record_complete {
                    fold_all(rvs.push(p.0), empty_record(), ctx0(), evs.drop_first())
                } else {
                    fold_all(rvs, p.0, p.1, evs.drop_first())
                }
            },
        }
    }
}

/// What a MARCXML text parses to as a record sequence.
pub open spec fn parse_xml_all(s: Seq<char>) -> Result<Seq<RecordV>, MarcErrV> {
    match xml_events(s, Seq::empty()) {
        Err(e) => Err(e),
        Ok(evs) => fold_all(Seq::empty(), empty_record(), ctx0(), evs),
    }
}


/// Hexadecimal rendering produces only hexadecimal digit characters,
/// and parsing it back returns the value.
pub proof fn lemma_hex_digits_value(n: nat)
    ensures
        forall|j: int|
            0 <= j < hex_digits(n).len() ==> hex_char_val(#[trigger] hex_digits(n)[j]) >= 0,
        hexv(hex_digits(n)) == Some(n),
        hex_digits(n).len() >= 1,
    decreases n,
{
    if n < 16 {
        let d = hex_digit(n);
        assert(hex_char_val(d) == n);
        assert(hex_digits(n) == seq![d]);
        let w = seq![d];
        assert(w[0] == d);
        assert(w.len() == 1);
        assert(w.take(w.len() - 1) =~= Seq::<char>::empty());
        assert(hexv(Seq::<char>::empty()) == Some(0nat));
        assert(hexv(w.take(w.len() - 1)) == Some(0nat));
        assert(hexv(w) == Some((16 * 0 + hex_char_val(d)) as nat));
        assert(hexv(hex_digits(n)) == Some(n));
    } else {
        lemma_hex_digits_value(n / 16);
        let head = hex_digits(n / 16);
        let d = hex_digit(n % 16);
        assert(hex_char_val(d) == n % 16);
        assert(hex_digits(n) == head + seq![d]);
        assert(hex_digits(n).take(hex_digits(n).len() - 1) =~= head);
        assert(n == 16 * (n / 16) + n % 16) by {
            vstd::arithmetic::div_mod::lemma_fundamental_div_mod(n as int, 16);
        }
        assert forall|j: int|
            0 <= j < hex_digits(n).len() implies hex_char_val(#[trigger] hex_digits(n)[j])
            >= 0 by {
            if j < head.len() {
                assert(hex_digits(n)[j] == head[j]);
            } else {
                assert(hex_digits(n)[j] == d);
            }
        }
        assert(hex_digits(n)[hex_digits(n).len() - 1] == d);
        assert(hexv(head) == Some(n / 16));
        assert(hex_char_val(d) == n % 16);
        let w = hex_digits(n);
        assert(w.len() > 0);
        assert(hexv(w.take(w.len() - 1)) == Some(n / 16));
        assert(hexv(w) == Some((16 * (n / 16) + (n % 16)) as nat));
        assert(16 * (n / 16) + (n % 16) == n);
    }
}

/// Unescaping undoes XML escaping: every escaped text parses back to
/// the original characters. This is the textual core of the XML
/// round trip.
pub proof fn lemma_unesc_esc_xml(s: Seq<char>)
    ensures
        unesc_xml(esc_xml(s)) == Ok::<Seq<char>, MarcErrV>(s),
    decreases s.len(),
{
    if s.len() == 0 {
        assert(esc_xml(s) =~= Seq::<char>::empty());
        assert(s =~= Seq::<char>::empty());
        assert(unesc_xml(esc_xml(s)) == Ok::<Seq<char>, MarcErrV>(s));
    } else {
        lemma_unesc_esc_xml(s.drop_first());
        lemma_unesc_esc_char_step(s);
    }
}

/// One escaped character at the head of escaped text unescapes to that
/// character.
#[verifier::rlimit(100)]
proof fn lemma_unesc_esc_char_step(s: Seq<char>)
    requires
        s.len() > 0,
        unesc_xml(esc_xml(s.drop_first())) == Ok::<Seq<char>, MarcErrV>(s.drop_first()),
    ensures
        unesc_xml(esc_xml(s)) == Ok::<Seq<char>, MarcErrV>(s),
{
    {
        let c = s[0];
        let rest = s.drop_first();
        let piece = esc_xml_char(c);
        let e = esc_xml(s);
        assert(e == piece + esc_xml(rest));
        assert(forall|j: int| 0 <= j < piece.len() ==> e[j] == piece[j]);
        assert(e.skip(piece.len() as int) =~= esc_xml(rest));
        if c == '&' || c == '\'' || c == '"' || c == '>' || c == '<' {
            let semi = piece.len() - 1;
            assert(piece[0] == '&');
            assert(e[semi] == ';');
            assert(forall|j: int| 0 <= j < semi ==> e[j] != ';');
            lemma_find_char_is_first(e, ';', semi);
            let ent = e.subrange(1, semi);
            assert(ent =~= piece.subrange(1, semi));
            if c == '&' {
                assert(ent =~= seq!['a', 'm', 'p']);
            } else if c == '\'' {
                assert(ent =~= seq!['a', 'p', 'o', 's']);
            } else if c == '"' {
                assert(ent =~= seq!['q', 'u', 'o', 't']);
            } else if c == '>' {
                assert(ent =~= seq!['g', 't']);
            } else {
                assert(ent =~= seq!['l', 't']);
            }
            assert(entity_char(ent) == Some(c));
            assert(e.skip(semi + 1) =~= esc_xml(rest));
            assert(unesc_xml(e) == Ok::<Seq<char>, MarcErrV>(seq![c] + rest));
            assert(seq![c] + rest =~= s);
        } else if (c as u32) > 126 {
            let v = (c as u32) as nat;
            lemma_hex_digits_value(v);
            let hd = hex_digits(v);
            assert(piece == seq!['&', '#', 'x'] + hd + seq![';']);
            let semi = piece.len() - 1;
            assert(piece[0] == '&');
            assert(e[semi] == ';') by {
                assert(piece[semi] == ';');
            }
            assert(forall|j: int| 0 <= j < semi ==> e[j] != ';') by {
                assert(piece[1] == '#' && piece[2] == 'x');
                assert(forall|j: int| 3 <= j < semi ==> piece[j] == hd[j - 3]);
                assert(forall|j: int| 0 <= j < hd.len() ==> hex_char_val(#[trigger] hd[j]) >= 0);
                assert(hex_char_val(';') == -1);
                assert(forall|j: int| 3 <= j < semi ==> hex_char_val(e[j]) >= 0);
            }
            lemma_find_char_is_first(e, ';', semi);
            let ent = e.subrange(1, semi);
            assert(ent =~= seq!['#', 'x'] + hd);
            assert(ent.len() >= 3);
            assert(ent[0] == '#' && ent[1] == 'x');
            assert(ent != seq!['a', 'm', 'p'] && ent != seq!['a', 'p', 'o', 's'] && ent != seq![
                'q',
                'u',
                'o',
                't',
            ] && ent != seq!['l', 't'] && ent != seq!['g', 't']) by {
                assert(ent[0] == '#');
            }
            assert(ent.skip(2) =~= hd);
            assert(hexv(ent.skip(2)) == Some(v));
            vstd::utf8::char_is_scalar(c);
            assert(vstd::utf8::is_scalar(c as u32));
            assert(v < 0x110000);
            assert((v as u32) == c as u32);
            assert(entity_char(ent) == Some((v as u32) as char));
            assert((v as u32) as char == c) by {
                vstd::utf8::char_u32_cast(c, v as u32);
            }
            assert(e.skip(semi + 1) =~= esc_xml(rest));
            assert(unesc_xml(e) == Ok::<Seq<char>, MarcErrV>(seq![c] + rest));
            assert(seq![c] + rest =~= s);
        } else {
            assert(piece == seq![c]);
            assert(e[0] == c);
            assert(c != '&');
            assert(e.drop_first() =~= esc_xml(rest));
            assert(unesc_xml(e) == Ok::<Seq<char>, MarcErrV>(seq![c] + rest));
            assert(seq![c] + rest =~= s);
        }
    }
}

/// Cross-format equivalence: when a MARCXML document is the canonical
/// rendering of the well-formed, breaker-safe record it parses to, then
/// taking that record through its breaker text and back, and rendering
/// XML again, reproduces the document byte for byte.
pub proof fn lemma_cross_format(x: Seq<char>, rv: RecordV)
    requires
        parse_xml(x) == Ok::<RecordV, MarcErrV>(rv),
        crate::record::record_wf(rv),
        crate::breaker::breaker_round_trip_safe(rv),
        record_xml(rv, false) == x,
    ensures
        crate::breaker::parse_breaker(crate::breaker::record_breaker(rv)) matches Ok(rv2)
            && record_xml(rv2, false) == x,
{
    crate::breaker::lemma_breaker_round_trip(rv);
}

} // verus!
