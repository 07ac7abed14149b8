//! The ISO 2709 binary codec: a 24-byte leader, a directory of 12-byte
//! entries (3-byte tag, 4-digit length, 5-digit offset), field data with
//! terminator bytes, and exact byte-offset arithmetic throughout.

use vstd::prelude::*;
use vstd::utf8::encode_utf8;
use vstd::utf8::decode_utf8;
use vstd::utf8::valid_utf8;

use crate::record::Controlfield;
use crate::record::ControlfieldV;
use crate::record::Field;
use crate::record::FieldV;
use crate::record::MarcError;
use crate::record::MarcErrV;
use crate::record::Record;
use crate::record::RecordV;
use crate::record::Subfield;
use crate::record::SubfieldV;
use crate::record::byte_len;
use crate::record::record_wf;
use crate::record::tag_wf;
use crate::text::chars_lt;
use crate::text::chars_to_string;
use crate::text::find_char;
use crate::text::find_char_from;
use crate::text::push_char;
use crate::text::seq_str_lt;
use crate::text::str_chars;
use crate::text::string_from_utf8;
use crate::text::vec_range;
use crate::text::lemma_find_char_is_first;
use crate::text::lemma_find_char_none;
use crate::record::sf_wf;
use crate::record::norm_ind;
use crate::breaker::tag_bound;

verus! {

/// The field terminator byte.
pub open spec fn fterm() -> u8 {
    30
}

/// The record terminator byte.
pub open spec fn rterm() -> u8 {
    29
}

/// The subfield delimiter character.
pub open spec fn sf_delim() -> char {
    '\u{1f}'
}

/// Ten to the `w`.
pub open spec fn pow10(w: nat) -> nat
    decreases w,
{
    if w == 0 {
        1
    } else {
        10 * pow10((w - 1) as nat)
    }
}

/// The low `w` decimal digits of `n`, as zero-padded ASCII bytes.
pub open spec fn dec_bytes(n: nat, w: nat) -> Seq<u8>
    decreases w,
{
    if w == 0 {
        Seq::empty()
    } else {
        dec_bytes(n / 10, (w - 1) as nat) + seq![(48 + (n % 10)) as u8]
    }
}

/// Whether every byte is an ASCII digit.
pub open spec fn all_digits(s: Seq<u8>) -> bool {
    forall|i: int| 0 <= i < s.len() ==> 48 <= #[trigger] s[i] <= 57
}

/// The numeric value of a digit-byte sequence.
pub open spec fn dec_value(s: Seq<u8>) -> nat
    decreases s.len(),
{
    if s.len() == 0 {
        0
    } else {
        dec_value(s.take(s.len() - 1)) * 10 + (if s[s.len() - 1] >= 48 {
            (s[s.len() - 1] - 48) as nat
        } else {
            0
        })
    }
}

/// What a fixed-width numeric field parses to: its value, provided every
/// byte is a digit and the field is not empty.
pub open spec fn parse_dec(s: Seq<u8>) -> Option<nat> {
    if s.len() > 0 && all_digits(s) {
        Some(dec_value(s))
    } else {
        None
    }
}

/// Rendering `n` in `w` digits and parsing it back returns `n`, as long
/// as `n` fits.
pub proof fn lemma_dec_bytes_value(n: nat, w: nat)
    requires
        n < pow10(w),
    ensures
        dec_bytes(n, w).len() == w,
        all_digits(dec_bytes(n, w)),
        dec_value(dec_bytes(n, w)) == n,
        w > 0 ==> parse_dec(dec_bytes(n, w)) == Some(n),
    decreases w,
{
    if w == 0 {
        assert(n == 0);
    } else {
        let q = n / 10;
        let d = n % 10;
        assert(n == q * 10 + d) by {
            vstd::arithmetic::div_mod::lemma_fundamental_div_mod(n as int, 10);
        }
        assert(q < pow10((w - 1) as nat)) by (nonlinear_arith)
            requires
                n < pow10(w),
                pow10(w) == 10 * pow10((w - 1) as nat),
                q == n / 10,
                n >= 0,
        ;
        lemma_dec_bytes_value(q, (w - 1) as nat);
        let s = dec_bytes(n, w);
        let head = dec_bytes(q, (w - 1) as nat);
        assert(s == head + seq![(48 + d) as u8]);
        assert(s.take(s.len() - 1) =~= head);
        assert(s[s.len() - 1] == (48 + d) as u8);
        assert(dec_value(s) == dec_value(head) * 10 + d);
        assert(all_digits(s)) by {
            assert(forall|i: int|
                0 <= i < head.len() ==> s[i] == #[trigger] head[i] && 48 <= head[i] <= 57);
        }
    }
}

/// Renders the low `w` decimal digits of `n` as zero-padded ASCII bytes.
fn dec_render(n: usize, w: usize) -> (r: Vec<u8>)
    ensures
        r@ == dec_bytes(n as nat, w as nat),
    decreases w,
{
    if w == 0 {
        let r: Vec<u8> = Vec::new();
        proof {
            assert(r@ =~= dec_bytes(n as nat, 0));
        }
        r
    } else {
        let mut r = dec_render(n / 10, w - 1);
        r.push(48 + (n % 10) as u8);
        proof {
            assert(r@ =~= dec_bytes(n as nat, w as nat));
        }
        r
    }
}

/// Parses the digit bytes of `v` in `[a, b)` as an unsigned number.
fn parse_dec_range(v: &[u8], a: usize, b: usize) -> (r: Option<usize>)
    requires
        a <= b <= v@.len(),
        b - a <= 5,
    ensures
        match r {
            Some(x) => parse_dec(v@.subrange(a as int, b as int)) == Some(x as nat),
            None => parse_dec(v@.subrange(a as int, b as int)) is None,
        },
{
    let ghost s = v@.subrange(a as int, b as int);
    if a == b {
        return None;
    }
    let mut val: usize = 0;
    let mut i: usize = a;
    proof {
        assert(s.take(0) =~= Seq::<u8>::empty());
    }
    while i < b
        invariant
            a <= i <= b <= v@.len(),
            b - a <= 5,
            s == v@.subrange(a as int, b as int),
            all_digits(s.take(i - a)),
            val == dec_value(s.take(i - a)),
        decreases b - i,
    {
        let c = v[i];
        if c < 48 || c > 57 {
            proof {
                assert(s[i - a] == c);
                assert(!all_digits(s));
            }
            return None;
        }
        proof {
            lemma_dec_value_bound(s.take(i - a));
            lemma_pow10_mono((i - a) as nat, 5);
            lemma_pow10_vals();
            assert(val < 100000);
            assert(s.take(i - a + 1) =~= s.take(i - a) + seq![s[i - a]]);
            assert(s.take(i - a + 1).take(i - a) =~= s.take(i - a));
        }
        val = val * 10 + (c - 48) as usize;
        i += 1;
        proof {
            assert(s.take(i - a).len() == i - a);
            assert(s.take(i - a)[i - a - 1] == c);
            assert(dec_value(s.take(i - a)) == dec_value(s.take(i - a - 1)) * 10 + (c - 48));
        }
    }
    proof {
        assert(s.take(b - a) =~= s);
    }
    Some(val)
}

/// A digit string's value is below ten to its length.
pub proof fn lemma_dec_value_bound(s: Seq<u8>)
    requires
        all_digits(s),
    ensures
        dec_value(s) < pow10(s.len()),
    decreases s.len(),
{
    if s.len() == 0 {
    } else {
        let head = s.take(s.len() - 1);
        assert(all_digits(head));
        lemma_dec_value_bound(head);
        let d = (s[s.len() - 1] - 48) as nat;
        assert(d <= 9);
        assert(dec_value(head) * 10 + d < pow10(s.len())) by (nonlinear_arith)
            requires
                dec_value(head) < pow10(head.len()),
                pow10(s.len()) == 10 * pow10(head.len()),
                head.len() == s.len() - 1,
                d <= 9,
        ;
    }
}

/// The concrete small powers of ten used by the fixed-width fields.
pub proof fn lemma_pow10_vals()
    ensures
        pow10(4) == 10000,
        pow10(5) == 100000,
{
    reveal_with_fuel(pow10, 6);
}

/// `pow10` is monotone in its exponent.
pub proof fn lemma_pow10_mono(a: nat, b: nat)
    requires
        a <= b,
    ensures
        pow10(a) <= pow10(b),
        pow10(a) >= 1,
    decreases b,
{
    if b > 0 {
        if a == b {
            lemma_pow10_mono((a - 1) as nat, (b - 1) as nat);
        } else {
            lemma_pow10_mono(a, (b - 1) as nat);
        }
    }
}

/// The indicator character written into binary field data: the value's
/// character, or a space when absent.
pub open spec fn ind_chars(i: Option<Seq<char>>) -> Seq<char> {
    match i {
        Some(s) => s,
        None => seq![' '],
    }
}

/// The text of a field's subfields in binary form: a delimiter, the
/// code, and the content, for each subfield in order.
pub open spec fn sfs_bin_text(sfs: Seq<SubfieldV>) -> Seq<char>
    decreases sfs.len(),
{
    if sfs.len() == 0 {
        Seq::empty()
    } else {
        seq![sf_delim()] + sfs[0].code + (match sfs[0].content {
            Some(c) => c,
            None => Seq::empty(),
        }) + sfs_bin_text(sfs.drop_first())
    }
}

pub proof fn lemma_sfs_bin_text_concat(a: Seq<SubfieldV>, b: Seq<SubfieldV>)
    ensures
        sfs_bin_text(a + b) == sfs_bin_text(a) + sfs_bin_text(b),
    decreases a.len(),
{
    if a.len() == 0 {
        assert(a + b =~= b);
        assert(sfs_bin_text(a) + sfs_bin_text(b) =~= sfs_bin_text(b));
    } else {
        assert((a + b).drop_first() =~= a.drop_first() + b);
        lemma_sfs_bin_text_concat(a.drop_first(), b);
        assert(sfs_bin_text(a + b) =~= sfs_bin_text(a) + sfs_bin_text(b));
    }
}

pub proof fn lemma_sfs_bin_text_take_step(s: Seq<SubfieldV>, i: int)
    requires
        0 <= i < s.len(),
    ensures
        sfs_bin_text(s.take(i + 1)) == sfs_bin_text(s.take(i)) + seq![sf_delim()] + s[i].code
            + (match s[i].content {
            Some(c) => c,
            None => Seq::<char>::empty(),
        }),
{
    let single = seq![s[i]];
    assert(single.drop_first() =~= Seq::<SubfieldV>::empty());
    assert(sfs_bin_text(single.drop_first()) =~= Seq::<char>::empty());
    assert(sfs_bin_text(single) =~= seq![sf_delim()] + s[i].code + (match s[i].content {
        Some(c) => c,
        None => Seq::<char>::empty(),
    }));
    assert(s.take(i + 1) =~= s.take(i) + single);
    lemma_sfs_bin_text_concat(s.take(i), single);
    assert(sfs_bin_text(s.take(i)) + sfs_bin_text(single) =~= sfs_bin_text(s.take(i)) + seq![
        sf_delim(),
    ] + s[i].code + (match s[i].content {
        Some(c) => c,
        None => Seq::<char>::empty(),
    }));
}

/// The full text of a data field in binary form: both indicator
/// characters, then the subfields.
pub open spec fn field_text(f: FieldV) -> Seq<char> {
    ind_chars(f.ind1) + ind_chars(f.ind2) + sfs_bin_text(f.sfs)
}

/// The data bytes of a control field, terminator included.
pub open spec fn cf_data(c: ControlfieldV) -> Seq<u8> {
    encode_utf8(match c.content {
        Some(ct) => ct,
        None => Seq::empty(),
    }) + seq![fterm()]
}

/// The data bytes of a data field, terminator included.
pub open spec fn field_data(f: FieldV) -> Seq<u8> {
    encode_utf8(field_text(f)) + seq![fterm()]
}

/// The record's fields in serialization order, each as its tag and its
/// data bytes: control fields first, then data fields.
pub open spec fn entry_list(r: RecordV) -> Seq<(Seq<char>, Seq<u8>)> {
    r.cfs.map_values(|c: ControlfieldV| (c.tag, cf_data(c))) + r.fields.map_values(
        |f: FieldV| (f.tag, field_data(f)),
    )
}

/// The concatenated field data of the given entries.
pub open spec fn data_concat(es: Seq<(Seq<char>, Seq<u8>)>) -> Seq<u8>
    decreases es.len(),
{
    if es.len() == 0 {
        Seq::empty()
    } else {
        es[0].1 + data_concat(es.drop_first())
    }
}

/// The directory bytes of the given entries, with `off` the relative
/// offset of the first: tag, 4-digit length, 5-digit offset, each entry
/// twelve bytes.
pub open spec fn dir_bytes(es: Seq<(Seq<char>, Seq<u8>)>, off: nat) -> Seq<u8>
    decreases es.len(),
{
    if es.len() == 0 {
        Seq::empty()
    } else {
        encode_utf8(es[0].0) + dec_bytes(es[0].1.len(), 4) + dec_bytes(off, 5) + dir_bytes(
            es.drop_first(),
            off + es[0].1.len(),
        )
    }
}

/// Walks the entries checking each length against four digits and each
/// offset against five; returns the total data length.
pub open spec fn entries_ok(es: Seq<(Seq<char>, Seq<u8>)>, off: nat) -> Result<nat, MarcErrV>
    decreases es.len(),
{
    if es.len() == 0 {
        Ok(off)
    } else if es[0].1.len() >= 10000 {
        Err(MarcErrV::ValueTooLarge(es[0].1.len() as int))
    } else if off >= 100000 {
        Err(MarcErrV::ValueTooLarge(off as int))
    } else {
        entries_ok(es.drop_first(), off + es[0].1.len())
    }
}

/// The leader bytes that the encoder starts from: the record's leader,
/// or 24 spaces when it has none.
pub open spec fn leader_bytes_of(r: RecordV) -> Seq<u8> {
    match r.leader {
        Some(l) => encode_utf8(l),
        None => Seq::new(24, |i: int| 32u8),
    }
}

/// What a record encodes to in the binary form: the 5-digit total
/// length and 5-digit base address spliced into the leader, the
/// directory, a terminator, the field data, and the record terminator —
/// or the first fixed-width field whose value does not fit.
pub open spec fn bin_encode(r: RecordV) -> Result<Seq<u8>, MarcErrV> {
    let es = entry_list(r);
    if r.cfs.len() > 8331 {
        Err(MarcErrV::ValueTooLarge(r.cfs.len() as int))
    } else if r.fields.len() > 8331 {
        Err(MarcErrV::ValueTooLarge(r.fields.len() as int))
    } else if es.len() > 8331 {
        Err(MarcErrV::ValueTooLarge(es.len() as int))
    } else {
        match entries_ok(es, 0) {
            Err(e) => Err(e),
            Ok(dtotal) => {
                let base = 25 + 12 * es.len();
                let total = base + dtotal + 1;
                if total >= 100000 {
                    Err(MarcErrV::ValueTooLarge(total as int))
                } else {
                    let lb = leader_bytes_of(r);
                    Ok(
                        dec_bytes(total, 5) + lb.subrange(5, 12) + dec_bytes(base, 5) + lb.subrange(
                            17,
                            24,
                        ) + dir_bytes(es, 0) + seq![fterm()] + data_concat(es) + seq![rterm()],
                    )
                }
            },
        }
    }
}

/// The data bytes of one control field, terminator included.
fn cf_piece(cf: &Controlfield) -> (r: Vec<u8>)
    ensures
        r@ == cf_data(cf@),
{
    let mut piece: Vec<u8> = Vec::new();
    match cf.content {
        Some(ref c) => {
            piece.extend_from_slice(c.as_str().as_bytes());
        },
        None => {},
    }
    piece.push(30u8);
    proof {
        assert(piece@ =~= cf_data(cf@));
    }
    piece
}

/// The data bytes of one data field, terminator included.
fn field_piece(f: &Field) -> (r: Vec<u8>)
    ensures
        r@ == field_data(f@),
{
    let mut text = String::new();
    match f.ind1.content {
        Some(ref s) => {
            text.append(s.as_str());
        },
        None => {
            push_char(&mut text, ' ');
        },
    }
    match f.ind2.content {
        Some(ref s) => {
            text.append(s.as_str());
        },
        None => {
            push_char(&mut text, ' ');
        },
    }
    proof {
        assert(text@ =~= ind_chars(f@.ind1) + ind_chars(f@.ind2));
    }
    let ghost head = text@;
    let mut k: usize = 0;
    while k < f.subfields.len()
        invariant
            k <= f.subfields.len(),
            text@ == head + sfs_bin_text(f@.sfs.take(k as int)),
        decreases f.subfields.len() - k,
    {
        proof {
            lemma_sfs_bin_text_take_step(f@.sfs, k as int);
        }
        let sf = &f.subfields[k];
        push_char(&mut text, '\u{1f}');
        text.append(sf.code.as_str());
        match sf.content {
            Some(ref c) => {
                text.append(c.as_str());
            },
            None => {},
        }
        proof {
            assert(sf@ == f@.sfs[k as int]);
            assert(text@ =~= head + sfs_bin_text(f@.sfs.take(k + 1)));
        }
        k += 1;
    }
    proof {
        assert(f@.sfs.take(f.subfields.len() as int) =~= f@.sfs);
        assert(text@ =~= field_text(f@));
    }
    let mut piece: Vec<u8> = Vec::new();
    piece.extend_from_slice(text.as_str().as_bytes());
    piece.push(30u8);
    proof {
        assert(piece@ =~= field_data(f@));
    }
    piece
}

impl Record {
    /// Encodes this record in the binary form; fails only when a length,
    /// offset, or count is too large for its fixed-width numeric field.
    #[verifier::loop_isolation(false)]
    #[verifier::rlimit(60)]
    pub fn to_binary(&self) -> (r: Result<Vec<u8>, MarcError>)
        requires
            record_wf(self@),
        ensures
            r matches Ok(bytes) ==> (bin_encode(self@) matches Ok(v) && bytes@ == v),
            r matches Err(e) ==> (bin_encode(self@) matches Err(v) && e@ == v),
    {
        proof {
            broadcast use vstd::slice::axiom_spec_len;
        }
        let ghost es = entry_list(self@);
        let n1 = self.control_fields.len();
        let n2 = self.fields.len();
        if n1 > 8331 {
            return Err(MarcError::ValueTooLarge(n1));
        }
        if n2 > 8331 {
            return Err(MarcError::ValueTooLarge(n2));
        }
        let count = n1 + n2;
        if count > 8331 {
            return Err(MarcError::ValueTooLarge(count));
        }
        assert(es.len() == count);

        // Field data and directory, built side by side.
        let mut dir: Vec<u8> = Vec::new();
        let mut data: Vec<u8> = Vec::new();
        let mut off: usize = 0;
        proof {
            assert(es.skip(0) =~= es);
            assert(dir@ + dir_bytes(es, 0) =~= dir_bytes(es, 0));
            assert(data@ + data_concat(es) =~= data_concat(es));
        }
        let mut i: usize = 0;
        while i < n1
            invariant
                i <= n1,
                n1 == self.control_fields.len(),
                n2 == self.fields.len(),
                es == entry_list(self@),
                es.len() == n1 + n2,
                off < 110000,
                entries_ok(es.skip(i as int), off as nat) == entries_ok(es, 0),
                dir@ + dir_bytes(es.skip(i as int), off as nat) == dir_bytes(es, 0),
                data@ + data_concat(es.skip(i as int)) == data_concat(es),
                data@.len() == off,
            decreases n1 - i,
        {
            proof {
                assert(es[i as int] == (self@.cfs[i as int].tag, cf_data(self@.cfs[i as int])));
                assert(es.skip(i as int)[0] == es[i as int]);
                assert(es.skip(i as int).drop_first() =~= es.skip(i + 1));
            }
            let cf = &self.control_fields[i];
            let piece = cf_piece(cf);
            proof {
                assert(piece@ == cf_data(self@.cfs[i as int]));
            }
            if piece.len() >= 10000 {
                proof {
                    assert(entries_ok(es.skip(i as int), off as nat) == Err::<nat, MarcErrV>(
                        MarcErrV::ValueTooLarge(piece@.len() as int),
                    ));
                }
                return Err(MarcError::ValueTooLarge(piece.len()));
            }
            if off >= 100000 {
                proof {
                    assert(entries_ok(es.skip(i as int), off as nat) == Err::<nat, MarcErrV>(
                        MarcErrV::ValueTooLarge(off as int),
                    ));
                }
                return Err(MarcError::ValueTooLarge(off));
            }
            proof {
                lemma_pow10_vals();
            }
            dir.extend_from_slice(cf.tag.content.as_str().as_bytes());
            let lenb = dec_render(piece.len(), 4);
            dir.extend_from_slice(lenb.as_slice());
            let offb = dec_render(off, 5);
            dir.extend_from_slice(offb.as_slice());
            data.extend_from_slice(piece.as_slice());
            proof {
                lemma_dec_bytes_value(piece@.len(), 4);
                lemma_dec_bytes_value(off as nat, 5);
                assert(dir@ + dir_bytes(es.skip(i + 1), (off + piece@.len()) as nat) =~= dir_bytes(
                    es,
                    0,
                ));
                assert(data@ + data_concat(es.skip(i + 1)) =~= data_concat(es));
            }
            off = off + piece.len();
            i += 1;
        }
        let mut j: usize = 0;
        while j < n2
            invariant
                j <= n2,
                n1 == self.control_fields.len(),
                n2 == self.fields.len(),
                es == entry_list(self@),
                es.len() == n1 + n2,
                off < 110000,
                entries_ok(es.skip(n1 + j), off as nat) == entries_ok(es, 0),
                dir@ + dir_bytes(es.skip(n1 + j), off as nat) == dir_bytes(es, 0),
                data@ + data_concat(es.skip(n1 + j)) == data_concat(es),
                data@.len() == off,
            decreases n2 - j,
        {
            proof {
                assert(es[n1 + j] == (self@.fields[j as int].tag, field_data(
                    self@.fields[j as int],
                )));
                assert(es.skip(n1 + j)[0] == es[n1 + j]);
                assert(es.skip(n1 + j).drop_first() =~= es.skip(n1 + j + 1));
            }
            let f = &self.fields[j];
            let piece = field_piece(f);
            proof {
                assert(piece@ == field_data(self@.fields[j as int]));
            }
            if piece.len() >= 10000 {
                proof {
                    assert(entries_ok(es.skip(n1 + j), off as nat) == Err::<nat, MarcErrV>(
                        MarcErrV::ValueTooLarge(piece@.len() as int),
                    ));
                }
                return Err(MarcError::ValueTooLarge(piece.len()));
            }
            if off >= 100000 {
                proof {
                    assert(entries_ok(es.skip(n1 + j), off as nat) == Err::<nat, MarcErrV>(
                        MarcErrV::ValueTooLarge(off as int),
                    ));
                }
                return Err(MarcError::ValueTooLarge(off));
            }
            proof {
                lemma_pow10_vals();
            }
            dir.extend_from_slice(f.tag.content.as_str().as_bytes());
            let lenb = dec_render(piece.len(), 4);
            dir.extend_from_slice(lenb.as_slice());
            let offb = dec_render(off, 5);
            dir.extend_from_slice(offb.as_slice());
            data.extend_from_slice(piece.as_slice());
            proof {
                lemma_dec_bytes_value(piece@.len(), 4);
                lemma_dec_bytes_value(off as nat, 5);
                assert(dir@ + dir_bytes(es.skip(n1 + j + 1), (off + piece@.len()) as nat)
                    =~= dir_bytes(es, 0));
                assert(data@ + data_concat(es.skip(n1 + j + 1)) =~= data_concat(es));
            }
            off = off + piece.len();
            j += 1;
        }
        proof {
            assert(es.skip(n1 + n2) =~= Seq::<(Seq<char>, Seq<u8>)>::empty());
            assert(entries_ok(es, 0) == Ok::<nat, MarcErrV>(off as nat));
            assert(dir@ =~= dir_bytes(es, 0));
            assert(data@ =~= data_concat(es));
        }

        // Leader, with length and base address overwritten.
        let base = 25 + 12 * count;
        let total = base + off + 1;
        if total >= 100000 {
            return Err(MarcError::ValueTooLarge(total));
        }
        let lb: Vec<u8> = match self.leader {
            Some(ref l) => {
                let b = l.content.as_str().as_bytes_vec();
                proof {
                    assert(b@ == leader_bytes_of(self@));
                }
                b
            },
            None => {
                let mut b: Vec<u8> = Vec::new();
                let mut s: usize = 0;
                while s < 24
                    invariant
                        s <= 24,
                        b@ =~= Seq::new(s as nat, |i: int| 32u8),
                    decreases 24 - s,
                {
                    b.push(32u8);
                    proof {
                        assert(b@ =~= Seq::new((s + 1) as nat, |i: int| 32u8));
                    }
                    s += 1;
                }
                proof {
                    assert(b@ == leader_bytes_of(self@));
                }
                b
            },
        };
        proof {
            assert(lb@.len() == 24) by {
                match self@.leader {
                    Some(l) => {
                        assert(byte_len(l) == 24);
                    },
                    None => {},
                }
            }
        }

        let mut out: Vec<u8> = Vec::new();
        let totalb = dec_render(total, 5);
        out.extend_from_slice(totalb.as_slice());
        let mid = vec_range(&lb, 5, 12);
        out.extend_from_slice(mid.as_slice());
        let baseb = dec_render(base, 5);
        out.extend_from_slice(baseb.as_slice());
        let tail = vec_range(&lb, 17, 24);
        out.extend_from_slice(tail.as_slice());
        out.extend_from_slice(dir.as_slice());
        out.push(30u8);
        out.extend_from_slice(data.as_slice());
        out.push(29u8);
        proof {
            assert(out@ =~= bin_encode(self@)->Ok_0);
        }
        Ok(out)
    }
}


/// The segments of `s` between subfield delimiters, in order; without a
/// delimiter the whole of `s` is the one segment.
pub open spec fn split_us(s: Seq<char>) -> Seq<Seq<char>>
    decreases s.len(),
{
    let i = find_char(s, sf_delim());
    if 0 <= i < s.len() {
        seq![s.take(i)] + split_us(s.skip(i + 1))
    } else {
        seq![s]
    }
}

/// Folds binary subfield segments onto a field: empty segments are
/// skipped, a non-ASCII code character is an error, and otherwise the
/// first character is the code and the rest the content.
pub open spec fn bin_sfs(f: FieldV, segs: Seq<Seq<char>>) -> Result<FieldV, MarcErrV>
    decreases segs.len(),
{
    if segs.len() == 0 {
        Ok(f)
    } else {
        let seg = segs[0];
        if seg.len() == 0 {
            bin_sfs(f, segs.drop_first())
        } else if (seg[0] as u32) >= 128 {
            Err(MarcErrV::InvalidLength(seq![seg[0]]))
        } else {
            bin_sfs(
                FieldV {
                    sfs: f.sfs.push(
                        SubfieldV {
                            code: seq![seg[0]],
                            content: if seg.len() > 1 {
                                Some(seg.skip(1))
                            } else {
                                None
                            },
                        },
                    ),
                    ..f
                },
                segs.drop_first(),
            )
        }
    }
}

/// What one 12-byte directory entry holds: its tag text, field length,
/// and relative field offset -- or why it is malformed.
pub open spec fn parse_entry(dir: Seq<u8>, which: int) -> Result<(Seq<char>, nat, nat), MarcErrV> {
    let e = dir.subrange(12 * which, 12 * which + 12);
    let tagb = e.subrange(0, 3);
    if !valid_utf8(tagb) {
        Err(MarcErrV::InvalidDirectoryEntry(which))
    } else {
        match parse_dec(e.subrange(3, 7)) {
            None => Err(MarcErrV::InvalidDirectoryEntry(which)),
            Some(flen) => match parse_dec(e.subrange(7, 12)) {
                None => Err(MarcErrV::InvalidDirectoryEntry(which)),
                Some(fpos) => Ok((decode_utf8(tagb), flen, fpos)),
            },
        }
    }
}

/// How the field bytes `[start, last)` of `b` extend a record under the
/// given tag: the final byte at `last` (the field terminator) is dropped,
/// the bytes must decode as text, and the tag classifies the result as a
/// control field or a data field.
pub open spec fn process_entry(
    rv: RecordV,
    b: Seq<u8>,
    tag: Seq<char>,
    start: int,
    last: int,
) -> Result<RecordV, MarcErrV> {
    if last >= b.len() {
        Err(MarcErrV::FieldOutOfBounds(tag))
    } else if start > last {
        Err(MarcErrV::FieldOutOfBounds(tag))
    } else {
        let fb = b.subrange(start, last);
        if !valid_utf8(fb) {
            Err(MarcErrV::InvalidEncoding)
        } else {
            let text = decode_utf8(fb);
            if seq_str_lt(tag, tag_bound()) {
                Ok(
                    RecordV {
                        cfs: rv.cfs.push(
                            ControlfieldV {
                                tag: tag,
                                content: if text.len() > 0 {
                                    Some(text)
                                } else {
                                    None
                                },
                            },
                        ),
                        ..rv
                    },
                )
            } else if text.len() < 2 {
                Err(MarcErrV::InvalidLength(text))
            } else if (text[0] as u32) >= 128 {
                Err(MarcErrV::InvalidLength(seq![text[0]]))
            } else if (text[1] as u32) >= 128 {
                Err(MarcErrV::InvalidLength(seq![text[1]]))
            } else {
                let f0 = FieldV {
                    tag: tag,
                    ind1: crate::record::norm_ind(seq![text[0]]),
                    ind2: crate::record::norm_ind(seq![text[1]]),
                    sfs: Seq::empty(),
                };
                match bin_sfs(f0, split_us(text.skip(2)).drop_first()) {
                    Ok(f) => Ok(RecordV { fields: rv.fields.push(f), ..rv }),
                    Err(e) => Err(e),
                }
            }
        }
    }
}

/// Folds directory entries `idx` through `n` onto a record.
pub open spec fn bin_entries(rv: RecordV, b: Seq<u8>, base: int, n: int, idx: int) -> Result<
    RecordV,
    MarcErrV,
>
    decreases n - idx,
{
    if idx >= n {
        Ok(rv)
    } else {
        match parse_entry(b.subrange(24, base - 1), idx) {
            Err(e) => Err(e),
            Ok(t) => match process_entry(rv, b, t.0, base + t.2, base + t.2 + t.1 - 1) {
                Ok(rv2) => bin_entries(rv2, b, base, n, idx + 1),
                Err(e) => Err(e),
            },
        }
    }
}

/// What a binary record decodes to: the declared size must be numeric
/// and match the actual size, the leader must decode as text, the base
/// address must delimit a directory of whole 12-byte entries, and each
/// entry must point at a well-formed field.
pub open spec fn bin_decode(b: Seq<u8>) -> Result<RecordV, MarcErrV> {
    if b.len() < 5 {
        Err(MarcErrV::InvalidSize)
    } else {
        match parse_dec(b.subrange(0, 5)) {
            None => Err(MarcErrV::InvalidSize),
            Some(sz) => {
                if sz != b.len() {
                    Err(MarcErrV::SizeMismatch(sz as int, b.len() as int))
                } else if b.len() < 25 {
                    Err(MarcErrV::InvalidSize)
                } else if !valid_utf8(b.subrange(0, 24)) {
                    Err(MarcErrV::InvalidEncoding)
                } else {
                    match parse_dec(b.subrange(12, 17)) {
                        None => Err(MarcErrV::InvalidDirectory),
                        Some(base) => {
                            if base < 25 || base - 1 > b.len() {
                                Err(MarcErrV::InvalidDirectory)
                            } else if base - 25 == 0 || (base - 25) % 12 != 0 {
                                Err(MarcErrV::InvalidDirectory)
                            } else {
                                bin_entries(
                                    RecordV {
                                        leader: Some(decode_utf8(b.subrange(0, 24))),
                                        cfs: Seq::empty(),
                                        fields: Seq::empty(),
                                    },
                                    b,
                                    base as int,
                                    ((base - 25) / 12) as int,
                                    0,
                                )
                            }
                        },
                    }
                }
            },
        }
    }
}

/// The mathematical image of a [`DirectoryEntry`]: its tag and the
/// absolute first and last byte positions of its field.
pub struct DirEntryV {
    pub tag: Seq<char>,
    pub start: int,
    pub end: int,
}

/// One decoded directory entry: a tag and the absolute bounds of its
/// field data within the record buffer.
#[derive(Debug, Clone)]
pub struct DirectoryEntry {
    tag: String,
    field_start_idx: usize,
    field_end_idx: usize,
}

impl View for DirectoryEntry {
    type V = DirEntryV;

    closed spec fn view(&self) -> DirEntryV {
        DirEntryV {
            tag: self.tag@,
            start: self.field_start_idx as int,
            end: self.field_end_idx as int,
        }
    }
}

impl DirectoryEntry {
    /// Decodes the 12-byte directory entry `which` (zero-based) out of
    /// `dir_bytes`, with `data_start_idx` the record's data base address.
    pub fn new(which: usize, data_start_idx: usize, dir_bytes: &[u8]) -> (r: Result<
        Self,
        MarcError,
    >)
        requires
            12 * (which as int + 1) <= dir_bytes@.len(),
            25 <= data_start_idx < 100000,
        ensures
            match parse_entry(dir_bytes@, which as int) {
                Ok(t) => r matches Ok(de) && de@.tag == t.0 && tag_wf(de@.tag) && de@.start
                    == data_start_idx + t.2 && de@.end == data_start_idx + t.2 + t.1 - 1,
                Err(e) => r matches Err(er) && er@ == e,
            },
    {
        proof {
            broadcast use vstd::slice::axiom_spec_len;
        }
        let dl = dir_bytes.len();
        assert(dl == dir_bytes@.len());
        let start = which * 12;
        let ghost e = dir_bytes@.subrange(12 * (which as int), 12 * (which as int) + 12);
        let mut tbv: Vec<u8> = Vec::new();
        tbv.push(dir_bytes[start]);
        tbv.push(dir_bytes[start + 1]);
        tbv.push(dir_bytes[start + 2]);
        proof {
            assert(tbv@ =~= e.subrange(0, 3));
        }
        let tag_s = match string_from_utf8(tbv.as_slice()) {
            Some(t) => t,
            None => {
                return Err(MarcError::InvalidDirectoryEntry(which));
            },
        };
        proof {
            vstd::utf8::decode_utf8_encode_utf8(tbv@);
            assert(byte_len(tag_s@) == 3);
        }
        let flen = match parse_dec_range(dir_bytes, start + 3, start + 7) {
            Some(x) => x,
            None => {
                proof {
                    assert(dir_bytes@.subrange(start + 3, start + 7) =~= e.subrange(3, 7));
                }
                return Err(MarcError::InvalidDirectoryEntry(which));
            },
        };
        let fpos = match parse_dec_range(dir_bytes, start + 7, start + 12) {
            Some(x) => x,
            None => {
                proof {
                    assert(dir_bytes@.subrange(start + 7, start + 12) =~= e.subrange(7, 12));
                }
                return Err(MarcError::InvalidDirectoryEntry(which));
            },
        };
        proof {
            assert(dir_bytes@.subrange(start + 3, start + 7) =~= e.subrange(3, 7));
            assert(dir_bytes@.subrange(start + 7, start + 12) =~= e.subrange(7, 12));
            lemma_dec_value_bound(e.subrange(3, 7));
            lemma_dec_value_bound(e.subrange(7, 12));
            lemma_pow10_vals();
            lemma_pow10_mono(4, 5);
        }
        let field_start_idx = data_start_idx + fpos;
        let field_end_idx = if flen == 0 {
            field_start_idx - 1
        } else {
            field_start_idx + flen - 1
        };
        Ok(DirectoryEntry { tag: tag_s, field_start_idx, field_end_idx })
    }
}

impl Record {
    /// Unpacks the field that one directory entry points at and appends
    /// it to this record.
    #[verifier::loop_isolation(false)]
    fn process_directory_entry(
        &mut self,
        rec_bytes: &Vec<u8>,
        dir_entry: &DirectoryEntry,
        rec_byte_count: usize,
    ) -> (r: Result<(), MarcError>)
        requires
            rec_byte_count == rec_bytes@.len(),
            tag_wf(dir_entry@.tag),
        ensures
            r is Ok ==> (process_entry(
                old(self)@,
                rec_bytes@,
                dir_entry@.tag,
                dir_entry@.start,
                dir_entry@.end,
            ) matches Ok(v) && final(self)@ == v),
            r matches Err(e) ==> (process_entry(
                old(self)@,
                rec_bytes@,
                dir_entry@.tag,
                dir_entry@.start,
                dir_entry@.end,
            ) matches Err(v) && e@ == v),
    {
        if dir_entry.field_end_idx >= rec_byte_count {
            return Err(MarcError::FieldOutOfBounds(dir_entry.tag.clone()));
        }
        if dir_entry.field_start_idx > dir_entry.field_end_idx {
            return Err(MarcError::FieldOutOfBounds(dir_entry.tag.clone()));
        }
        let fb = vec_range(rec_bytes, dir_entry.field_start_idx, dir_entry.field_end_idx);
        let text = match string_from_utf8(fb.as_slice()) {
            Some(t) => t,
            None => {
                return Err(MarcError::InvalidEncoding);
            },
        };
        let ghost spec_text = decode_utf8(rec_bytes@.subrange(dir_entry@.start, dir_entry@.end));
        proof {
            assert(text@ == spec_text);
        }
        let tagchars = str_chars(dir_entry.tag.as_str());
        let mut bound_v: Vec<char> = Vec::new();
        bound_v.push('0');
        bound_v.push('1');
        bound_v.push('0');
        proof {
            assert(bound_v@ =~= tag_bound());
        }
        if chars_lt(&tagchars, &bound_v) {
            let mut cf = match Controlfield::new(dir_entry.tag.as_str()) {
                Ok(c) => c,
                Err(e) => {
                    return Err(e);
                },
            };
            proof {
                crate::record::lemma_byte_len_ge_len(text@);
                if text@.len() == 0 {
                    assert(vstd::utf8::encode_utf8(text@) =~= Seq::<u8>::empty());
                    assert(byte_len(text@) == 0);
                }
            }
            if crate::record::byte_count(text.as_str()) != 0 {
                cf.set_content(text.as_str());
            }
            self.control_fields.push(cf);
            proof {
                let pe = process_entry(
                    old(self)@,
                    rec_bytes@,
                    dir_entry@.tag,
                    dir_entry@.start,
                    dir_entry@.end,
                );
                assert(pe is Ok);
                let v = pe->Ok_0;
                assert(cf@.tag == dir_entry@.tag);
                assert(text@ == spec_text);
                assert(cf@.content == (if spec_text.len() > 0 {
                    Some(spec_text)
                } else {
                    None::<Seq<char>>
                }));
                assert(cf@ =~= (ControlfieldV {
                    tag: dir_entry@.tag,
                    content: if spec_text.len() > 0 {
                        Some(spec_text)
                    } else {
                        None
                    },
                }));
                assert(self@.cfs =~= old(self)@.cfs.push(cf@));
                assert(self@.fields =~= v.fields);
                assert(self@.cfs =~= v.cfs);
                assert(self@ =~= v);
            }
            return Ok(());
        }
        let tchars = str_chars(text.as_str());
        if tchars.len() < 2 {
            return Err(MarcError::InvalidLength(text));
        }
        let c0 = tchars[0];
        if c0 as u32 >= 128 {
            let mut cstr = String::new();
            push_char(&mut cstr, c0);
            return Err(MarcError::InvalidLength(cstr));
        }
        let c1 = tchars[1];
        if c1 as u32 >= 128 {
            let mut cstr = String::new();
            push_char(&mut cstr, c1);
            return Err(MarcError::InvalidLength(cstr));
        }
        let mut field = match Field::new(dir_entry.tag.as_str()) {
            Ok(f) => f,
            Err(e) => {
                return Err(e);
            },
        };
        proof {
            crate::breaker::lemma_byte_len_char(c0);
            crate::breaker::lemma_byte_len_char(c1);
        }
        let mut s0 = String::new();
        push_char(&mut s0, c0);
        let _ = field.set_ind1(s0.as_str());
        let mut s1 = String::new();
        push_char(&mut s1, c1);
        let _ = field.set_ind2(s1.as_str());
        let ghost f0 = field@;
        proof {
            assert(f0 == (FieldV {
                tag: dir_entry@.tag,
                ind1: crate::record::norm_ind(seq![spec_text[0]]),
                ind2: crate::record::norm_ind(seq![spec_text[1]]),
                sfs: Seq::empty(),
            }));
        }
        let ghost segs = split_us(spec_text.skip(2));
        let first = find_char_from(&tchars, '\u{1f}', 2);
        match first {
            None => {
                proof {
                    assert(find_char(spec_text.skip(2), sf_delim()) == -1);
                    assert(segs == seq![spec_text.skip(2)]);
                    assert(segs.drop_first() =~= Seq::<Seq<char>>::empty());
                    assert(bin_sfs(f0, segs.drop_first()) == Ok::<FieldV, MarcErrV>(f0));
                }
            },
            Some(k0) => {
                proof {
                    let s2 = spec_text.skip(2);
                    assert(find_char(s2, sf_delim()) == k0 - 2);
                    assert(segs == seq![s2.take(k0 - 2)] + split_us(s2.skip(k0 - 2 + 1)));
                    assert(s2.skip(k0 - 2 + 1) =~= spec_text.skip(k0 + 1));
                    assert(segs.drop_first() =~= split_us(spec_text.skip(k0 + 1)));
                }
                let mut pos: usize = k0 + 1;
                let mut done = false;
                while !done
                    invariant
                        2 <= pos,
                        !done ==> pos <= tchars@.len(),
                        !done ==> bin_sfs(field@, split_us(spec_text.skip(pos as int))) == bin_sfs(
                            f0,
                            segs.drop_first(),
                        ),
                        done ==> Ok::<FieldV, MarcErrV>(field@) == bin_sfs(f0, segs.drop_first()),
                        field@.tag == f0.tag,
                        field@.ind1 == f0.ind1,
                        field@.ind2 == f0.ind2,
                    decreases (if done {
                        0int
                    } else {
                        tchars@.len() - pos + 1int
                    }),
                {
                    let tlen = tchars.len();
                    let ghost s = spec_text.skip(pos as int);
                    let nd = find_char_from(&tchars, '\u{1f}', pos);
                    let seg_end: usize = match nd {
                        Some(k) => k,
                        None => tlen,
                    };
                    proof {
                        match nd {
                            Some(k) => {
                                assert(find_char(s, sf_delim()) == k - pos);
                                assert(split_us(s) == seq![s.take(k - pos)] + split_us(
                                    s.skip(k - pos + 1),
                                ));
                                assert(s.take(k - pos) =~= spec_text.subrange(pos as int, k as int));
                                assert(s.skip(k - pos + 1) =~= spec_text.skip(k + 1));
                                assert(split_us(s)[0] =~= spec_text.subrange(pos as int, k as int));
                                assert(split_us(s).drop_first() =~= split_us(spec_text.skip(k + 1)));
                            },
                            None => {
                                assert(find_char(s, sf_delim()) == -1);
                                assert(split_us(s) == seq![s]);
                                assert(split_us(s)[0] =~= spec_text.subrange(
                                    pos as int,
                                    spec_text.len() as int,
                                ));
                                assert(split_us(s).drop_first() =~= Seq::<Seq<char>>::empty());
                            },
                        }
                    }
                    if seg_end > pos {
                        let sc = tchars[pos];
                        if sc as u32 >= 128 {
                            let mut cstr = String::new();
                            push_char(&mut cstr, sc);
                            proof {
                                assert(split_us(s)[0][0] == sc);
                                assert(bin_sfs(field@, split_us(s)) == Err::<FieldV, MarcErrV>(
                                    MarcErrV::InvalidLength(seq![sc]),
                                ));
                            }
                            return Err(MarcError::InvalidLength(cstr));
                        }
                        proof {
                            crate::breaker::lemma_byte_len_char(sc);
                        }
                        let mut cstr = String::new();
                        push_char(&mut cstr, sc);
                        let mut sf = match Subfield::new(cstr.as_str()) {
                            Ok(sf) => sf,
                            Err(e) => {
                                return Err(e);
                            },
                        };
                        if seg_end - pos > 1 {
                            let rest = vec_range(&tchars, pos + 1, seg_end);
                            proof {
                                assert(rest@ =~= split_us(s)[0].skip(1));
                            }
                            let content = chars_to_string(&rest);
                            sf.set_content(content.as_str());
                        }
                        let ghost field_before = field@;
                        field.subfields.push(sf);
                        proof {
                            assert(field@.sfs =~= field_before.sfs.push(sf@));
                            assert(sf@ =~= (SubfieldV {
                                code: seq![split_us(s)[0][0]],
                                content: if split_us(s)[0].len() > 1 {
                                    Some(split_us(s)[0].skip(1))
                                } else {
                                    None
                                },
                            }));
                            assert(field@ =~= (FieldV {
                                sfs: field_before.sfs.push(sf@),
                                ..field_before
                            }));
                            assert(bin_sfs(field_before, split_us(s)) == bin_sfs(
                                field@,
                                split_us(s).drop_first(),
                            ));
                        }
                    } else {
                        proof {
                            assert(split_us(s)[0].len() == 0);
                            assert(bin_sfs(field@, split_us(s)) == bin_sfs(
                                field@,
                                split_us(s).drop_first(),
                            ));
                        }
                    }
                    match nd {
                        Some(k) => {
                            pos = k + 1;
                        },
                        None => {
                            done = true;
                            proof {
                                assert(bin_sfs(field@, Seq::<Seq<char>>::empty()) == Ok::<
                                    FieldV,
                                    MarcErrV,
                                >(field@));
                            }
                        },
                    }
                }
            },
        }
        self.fields.push(field);
        proof {
            let v = process_entry(
                old(self)@,
                rec_bytes@,
                dir_entry@.tag,
                dir_entry@.start,
                dir_entry@.end,
            )->Ok_0;
            assert(self@.fields =~= old(self)@.fields.push(field@));
            assert(bin_sfs(f0, segs.drop_first()) == Ok::<FieldV, MarcErrV>(field@));
            assert(self@ =~= v);
        }
        Ok(())
    }

    /// Decodes one binary record out of its byte buffer.
    #[verifier::loop_isolation(false)]
    pub fn from_binary(bytes: &Vec<u8>) -> (r: Result<Record, MarcError>)
        ensures
            r matches Ok(rec) ==> (bin_decode(bytes@) matches Ok(v) && rec@ == v),
            r matches Err(e) ==> (bin_decode(bytes@) matches Err(v) && e@ == v),
    {
        let n = bytes.len();
        if n < 5 {
            return Err(MarcError::InvalidSize);
        }
        let sz = match parse_dec_range(bytes.as_slice(), 0, 5) {
            Some(x) => x,
            None => {
                return Err(MarcError::InvalidSize);
            },
        };
        if sz != n {
            return Err(MarcError::SizeMismatch(sz, n));
        }
        if n < 25 {
            return Err(MarcError::InvalidSize);
        }
        let lb = vec_range(bytes, 0, 24);
        let leader_s = match string_from_utf8(lb.as_slice()) {
            Some(s) => s,
            None => {
                return Err(MarcError::InvalidEncoding);
            },
        };
        let mut record = Record::new();
        proof {
            vstd::utf8::decode_utf8_encode_utf8(lb@);
            assert(byte_len(leader_s@) == 24);
        }
        match record.set_leader(leader_s.as_str()) {
            Ok(()) => {},
            Err(e) => {
                return Err(e);
            },
        }
        let base = match parse_dec_range(bytes.as_slice(), 12, 17) {
            Some(x) => x,
            None => {
                return Err(MarcError::InvalidDirectory);
            },
        };
        proof {
            lemma_dec_value_bound(bytes@.subrange(12, 17));
            lemma_pow10_vals();
            assert(base < 100000);
        }
        if base < 25 || base - 1 > n {
            return Err(MarcError::InvalidDirectory);
        }
        let dlen = base - 25;
        if dlen == 0 || dlen % 12 != 0 {
            return Err(MarcError::InvalidDirectory);
        }
        let dir = vec_range(bytes, 24, base - 1);
        let nentries = dlen / 12;
        let ghost rv0 = record@;
        proof {
            assert(rv0 == (RecordV {
                leader: Some(decode_utf8(bytes@.subrange(0, 24))),
                cfs: Seq::<ControlfieldV>::empty(),
                fields: Seq::<FieldV>::empty(),
            }));
            assert(bin_decode(bytes@) == bin_entries(rv0, bytes@, base as int, nentries as int, 0));
        }
        let mut idx: usize = 0;
        while idx < nentries
            invariant
                idx <= nentries,
                bin_entries(record@, bytes@, base as int, nentries as int, idx as int)
                    == bin_entries(rv0, bytes@, base as int, nentries as int, 0),
            decreases nentries - idx,
        {
            proof {
                assert(12 * (idx as int + 1) <= dlen) by (nonlinear_arith)
                    requires
                        idx < nentries,
                        dlen == 12 * nentries,
                ;
            }
            let de = match DirectoryEntry::new(idx, base, dir.as_slice()) {
                Ok(de) => de,
                Err(e) => {
                    return Err(e);
                },
            };
            match record.process_directory_entry(bytes, &de, n) {
                Ok(()) => {},
                Err(e) => {
                    return Err(e);
                },
            }
            idx += 1;
        }
        Ok(record)
    }
}



/// The total data length of an entry list.
pub open spec fn sum_lens(es: Seq<(Seq<char>, Seq<u8>)>) -> nat
    decreases es.len(),
{
    if es.len() == 0 {
        0
    } else {
        es[0].1.len() + sum_lens(es.drop_first())
    }
}

pub proof fn lemma_sum_lens_concat(a: Seq<(Seq<char>, Seq<u8>)>, b: Seq<(Seq<char>, Seq<u8>)>)
    ensures
        sum_lens(a + b) == sum_lens(a) + sum_lens(b),
    decreases a.len(),
{
    if a.len() == 0 {
        assert(a + b =~= b);
    } else {
        assert((a + b).drop_first() =~= a.drop_first() + b);
        lemma_sum_lens_concat(a.drop_first(), b);
    }
}

/// The concatenated data of an entry list has its total length.
pub proof fn lemma_data_concat_len(es: Seq<(Seq<char>, Seq<u8>)>)
    ensures
        data_concat(es).len() == sum_lens(es),
    decreases es.len(),
{
    if es.len() > 0 {
        lemma_data_concat_len(es.drop_first());
    }
}

/// Directory bytes occupy twelve bytes per entry, provided every tag is
/// three bytes.
pub proof fn lemma_dir_bytes_len(es: Seq<(Seq<char>, Seq<u8>)>, off: nat)
    requires
        forall|k: int| 0 <= k < es.len() ==> byte_len(#[trigger] es[k].0) == 3,
    ensures
        dir_bytes(es, off).len() == 12 * es.len(),
    decreases es.len(),
{
    if es.len() > 0 {
        assert(byte_len(es[0].0) == 3);
        assert(forall|k: int|
            0 <= k < es.drop_first().len() ==> byte_len(#[trigger] es.drop_first()[k].0) == 3);
        lemma_dir_bytes_len(es.drop_first(), off + es[0].1.len());
        lemma_dec_bytes_value_len(es[0].1.len(), 4);
        lemma_dec_bytes_value_len(off, 5);
    }
}

/// A rendered number always has exactly its width in bytes.
pub proof fn lemma_dec_bytes_value_len(n: nat, w: nat)
    ensures
        dec_bytes(n, w).len() == w,
    decreases w,
{
    if w > 0 {
        lemma_dec_bytes_value_len(n / 10, (w - 1) as nat);
    }
}

/// Splitting the directory at entry `k`: the head is the directory of
/// the first `k` entries, the tail the directory of the rest at the
/// accumulated offset.
pub proof fn lemma_dir_bytes_split(es: Seq<(Seq<char>, Seq<u8>)>, off: nat, k: int)
    requires
        0 <= k <= es.len(),
    ensures
        dir_bytes(es, off) == dir_bytes(es.take(k), off) + dir_bytes(
            es.skip(k),
            off + sum_lens(es.take(k)),
        ),
    decreases k,
{
    if k == 0 {
        assert(es.take(0) =~= Seq::<(Seq<char>, Seq<u8>)>::empty());
        assert(es.skip(0) =~= es);
        assert(dir_bytes(es.take(0), off) =~= Seq::<u8>::empty());
        assert(dir_bytes(es.take(0), off) + dir_bytes(es.skip(0), off) =~= dir_bytes(es, off));
    } else {
        assert(es.len() > 0);
        let tail = es.drop_first();
        lemma_dir_bytes_split(tail, off + es[0].1.len(), k - 1);
        assert(tail.take(k - 1) =~= es.take(k).drop_first());
        assert(tail.skip(k - 1) =~= es.skip(k));
        assert(es.take(k)[0] == es[0]);
        assert(sum_lens(es.take(k)) == es[0].1.len() + sum_lens(tail.take(k - 1)));
        assert(dir_bytes(es, off) =~= dir_bytes(es.take(k), off) + dir_bytes(
            es.skip(k),
            off + sum_lens(es.take(k)),
        ));
    }
}

/// Splitting the field data at entry `k`.
pub proof fn lemma_data_concat_split(es: Seq<(Seq<char>, Seq<u8>)>, k: int)
    requires
        0 <= k <= es.len(),
    ensures
        data_concat(es) == data_concat(es.take(k)) + data_concat(es.skip(k)),
    decreases k,
{
    if k == 0 {
        assert(es.take(0) =~= Seq::<(Seq<char>, Seq<u8>)>::empty());
        assert(es.skip(0) =~= es);
        assert(data_concat(es.take(0)) + data_concat(es.skip(0)) =~= data_concat(es));
    } else {
        let tail = es.drop_first();
        lemma_data_concat_split(tail, k - 1);
        assert(tail.take(k - 1) =~= es.take(k).drop_first());
        assert(tail.skip(k - 1) =~= es.skip(k));
        assert(es.take(k)[0] == es[0]);
        assert(data_concat(es) =~= data_concat(es.take(k)) + data_concat(es.skip(k)));
    }
}

/// Walking an entry list that passes its size checks: the result is the
/// accumulated total, and every length and offset is in range.
pub proof fn lemma_entries_ok_props(es: Seq<(Seq<char>, Seq<u8>)>, off: nat)
    requires
        entries_ok(es, off) is Ok,
    ensures
        entries_ok(es, off) == Ok::<nat, MarcErrV>((off + sum_lens(es)) as nat),
        forall|k: int|
            0 <= k < es.len() ==> #[trigger] es[k].1.len() < 10000 && off + sum_lens(es.take(k))
                < 100000,
    decreases es.len(),
{
    if es.len() > 0 {
        lemma_entries_ok_props(es.drop_first(), off + es[0].1.len());
        assert forall|k: int|
            0 <= k < es.len() implies #[trigger] es[k].1.len() < 10000 && off + sum_lens(
            es.take(k),
        ) < 100000 by {
            if k == 0 {
                assert(es.take(0) =~= Seq::<(Seq<char>, Seq<u8>)>::empty());
            } else {
                let tail = es.drop_first();
                assert(tail[k - 1] == es[k]);
                assert(tail.take(k - 1) =~= es.take(k).drop_first());
                assert(es.take(k)[0] == es[0]);
                assert(sum_lens(es.take(k)) == es[0].1.len() + sum_lens(tail.take(k - 1)));
            }
        }
    }
}

/// A sequence of ASCII bytes is valid UTF-8 and decodes byte for byte.
pub proof fn lemma_ascii_bytes_decode(bs: Seq<u8>)
    requires
        forall|i: int| 0 <= i < bs.len() ==> #[trigger] bs[i] < 128,
    ensures
        valid_utf8(bs),
        decode_utf8(bs).len() == bs.len(),
        forall|i: int| 0 <= i < bs.len() ==> (#[trigger] decode_utf8(bs)[i]) as u32 == bs[i],
    decreases bs.len(),
{
    if bs.len() > 0 {
        let b0 = bs[0];
        assert(vstd::utf8::is_leading_byte_width_1(b0)) by (bit_vector)
            requires
                b0 < 128,
        ;
        assert(vstd::utf8::codepoint_width_1(b0) == b0 as u32) by (bit_vector)
            requires
                b0 < 128,
        ;
        assert(vstd::utf8::valid_first_scalar(bs));
        assert(vstd::utf8::length_of_first_scalar(bs) == 1);
        let tail = vstd::utf8::pop_first_scalar(bs);
        assert(tail =~= bs.drop_first());
        assert(forall|i: int| 0 <= i < tail.len() ==> #[trigger] tail[i] < 128);
        lemma_ascii_bytes_decode(tail);
        assert(valid_utf8(bs));
        let d = decode_utf8(bs);
        assert(d == seq![vstd::utf8::decode_first_scalar(bs) as char] + decode_utf8(tail));
        assert(vstd::utf8::decode_first_scalar(bs) == b0 as u32);
        assert((d[0] as u32) == b0) by {
            vstd::utf8::char_u32_cast(d[0], b0 as u32);
            assert(vstd::utf8::is_scalar(b0 as u32));
        }
        assert forall|i: int| 0 <= i < bs.len() implies (#[trigger] d[i]) as u32 == bs[i] by {
            if i > 0 {
                assert(d[i] == decode_utf8(tail)[i - 1]);
                assert(tail[i - 1] == bs[i]);
            }
        }
    }
}


/// Safety conditions for the binary round trip: an ASCII (or absent)
/// leader, at least one field, control-field tags below the boundary and
/// data-field tags above it, non-empty contents where present, and no
/// subfield delimiter inside subfield codes or contents.
pub open spec fn bin_round_trip_safe(r: RecordV) -> bool {
    &&& match r.leader {
        Some(l) => vstd::utf8::is_ascii_chars(l),
        None => true,
    }
    &&& r.cfs.len() + r.fields.len() > 0
    &&& forall|i: int|
        0 <= i < r.cfs.len() ==> seq_str_lt(#[trigger] r.cfs[i].tag, tag_bound()) && (
        r.cfs[i].content matches Some(c) ==> c.len() > 0)
    &&& forall|i: int|
        0 <= i < r.fields.len() ==> !seq_str_lt(#[trigger] r.fields[i].tag, tag_bound())
            && sfs_safe(r.fields[i].sfs)
}

/// Safety conditions on one field's subfields.
pub open spec fn sfs_safe(sfs: Seq<SubfieldV>) -> bool {
    forall|k: int|
        0 <= k < sfs.len() ==> (#[trigger] sfs[k]).code != seq![sf_delim()] && (
        sfs[k].content matches Some(c) ==> c.len() > 0 && !c.contains(sf_delim()))
}

/// Splitting the binary text of a subfield list on the delimiter and
/// folding the segments back recovers the subfields exactly.
#[verifier::rlimit(100)]
pub proof fn lemma_sfs_split_fold(f: FieldV, sfs: Seq<SubfieldV>)
    requires
        forall|k: int| 0 <= k < sfs.len() ==> sf_wf(#[trigger] sfs[k]),
        sfs_safe(sfs),
    ensures
        bin_sfs(f, split_us(sfs_bin_text(sfs)).drop_first()) == Ok::<FieldV, MarcErrV>(
            (FieldV { sfs: f.sfs + sfs, ..f }),
        ),
    decreases sfs.len(),
{
    let text = sfs_bin_text(sfs);
    if sfs.len() == 0 {
        assert(text =~= Seq::<char>::empty());
        lemma_find_char_none(text, sf_delim());
        assert(split_us(text) == seq![text]);
        assert(split_us(text).drop_first() =~= Seq::<Seq<char>>::empty());
        assert(f.sfs + sfs =~= f.sfs);
        assert((FieldV { sfs: f.sfs + sfs, ..f }) =~= f);
    } else {
        let sf0 = sfs[0];
        let code = sf0.code;
        let c0 = match sf0.content {
            Some(c) => c,
            None => Seq::<char>::empty(),
        };
        let rest = sfs.drop_first();
        let rest_text = sfs_bin_text(rest);
        let seg = code + c0;
        assert(text == seq![sf_delim()] + code + c0 + rest_text);
        assert(text =~= seq![sf_delim()] + (seg + rest_text));
        crate::record::lemma_byte_len_single(code);
        assert(code.len() == 1 && (code[0] as u32) < 128);
        assert(code[0] != sf_delim()) by {
            if code[0] == sf_delim() {
                assert(code =~= seq![sf_delim()]);
            }
        }
        assert(forall|j: int| 0 <= j < c0.len() ==> c0[j] != sf_delim()) by {
            match sf0.content {
                Some(c) => {
                    assert(!c.contains(sf_delim()));
                },
                None => {},
            }
        }

        // The delimiter heads the text.
        assert(text[0] == sf_delim());
        lemma_find_char_is_first(text, sf_delim(), 0);
        assert(split_us(text) == seq![text.take(0)] + split_us(text.skip(1)));
        assert(text.skip(1) =~= seg + rest_text);
        assert(split_us(text).drop_first() =~= split_us(seg + rest_text));

        // The first segment ends at the next delimiter (or at the end).
        let st = seg + rest_text;
        assert(forall|j: int| 0 <= j < seg.len() ==> #[trigger] st[j] != sf_delim()) by {
            assert(forall|j: int| 0 <= j < seg.len() ==> st[j] == seg[j]);
            assert(forall|j: int| 0 <= j < c0.len() ==> seg[1 + j] == c0[j]);
            assert(seg[0] == code[0]);
            assert(forall|j: int| 1 <= j < seg.len() ==> seg[j] == c0[j - 1]);
        }
        if rest.len() == 0 {
            assert(rest_text =~= Seq::<char>::empty());
            assert(st =~= seg);
            lemma_find_char_none(st, sf_delim());
            assert(split_us(st) == seq![st]);
            lemma_find_char_none(rest_text, sf_delim());
            assert(split_us(rest_text) == seq![rest_text]);
            assert(split_us(rest_text).drop_first() =~= Seq::<Seq<char>>::empty());
            assert(split_us(st) =~= seq![seg] + split_us(rest_text).drop_first());
        } else {
            assert(rest_text.len() > 0 && rest_text[0] == sf_delim());
            assert(st[seg.len() as int] == sf_delim());
            lemma_find_char_is_first(st, sf_delim(), seg.len() as int);
            assert(split_us(st) == seq![st.take(seg.len() as int)] + split_us(
                st.skip(seg.len() + 1int),
            ));
            assert(st.take(seg.len() as int) =~= seg);
            assert(st.skip(seg.len() + 1int) =~= rest_text.skip(1));
            lemma_find_char_is_first(rest_text, sf_delim(), 0);
            assert(split_us(rest_text) == seq![rest_text.take(0)] + split_us(rest_text.skip(1)));
            assert(split_us(rest_text).drop_first() =~= split_us(rest_text.skip(1)));
            assert(split_us(st) =~= seq![seg] + split_us(rest_text).drop_first());
        }

        // Folding the first segment pushes exactly the first subfield.
        let segs = seq![seg] + split_us(rest_text).drop_first();
        assert(segs[0] == seg);
        assert(seg.len() > 0);
        assert(seg[0] == code[0]);
        let pushed = SubfieldV {
            code: seq![seg[0]],
            content: if seg.len() > 1 {
                Some(seg.skip(1))
            } else {
                None
            },
        };
        assert(seq![seg[0]] =~= code);
        assert(seg.skip(1) =~= c0);
        assert(pushed =~= sf0) by {
            match sf0.content {
                Some(c) => {
                    assert(c.len() > 0);
                    assert(seg.len() > 1);
                },
                None => {
                    assert(c0.len() == 0);
                    assert(seg.len() == 1);
                },
            }
        }
        let f2 = FieldV { sfs: f.sfs.push(sf0), ..f };
        assert(segs.drop_first() =~= split_us(rest_text).drop_first());
        assert(bin_sfs(f, segs) == bin_sfs(f2, split_us(rest_text).drop_first()));
        assert(forall|k: int| 0 <= k < rest.len() ==> sf_wf(#[trigger] rest[k]) && rest[k]
            == sfs[k + 1]);
        assert(sfs_safe(rest)) by {
            assert(forall|k: int| 0 <= k < rest.len() ==> rest[k] == sfs[k + 1]);
        }
        lemma_sfs_split_fold(f2, rest);
        assert(f2.sfs + rest =~= f.sfs + sfs);
        assert((FieldV { sfs: f2.sfs + rest, ..f2 }) =~= (FieldV { sfs: f.sfs + sfs, ..f }));
    }
}


/// A record's binary encoding succeeds and lays its pieces out at the
/// computed offsets.
pub open spec fn bin_setup(r: RecordV, b: Seq<u8>) -> bool {
    &&& record_wf(r)
    &&& bin_round_trip_safe(r)
    &&& bin_encode(r) == Ok::<Seq<u8>, MarcErrV>(b)
}

/// The byte layout that a successful encoding guarantees.
#[verifier::rlimit(100)]
pub proof fn lemma_bin_layout(r: RecordV, b: Seq<u8>)
    requires
        bin_setup(r, b),
    ensures
        ({
            let es = entry_list(r);
            let base = 25 + 12 * es.len();
            let dtotal = sum_lens(es);
            let total = base + dtotal + 1;
            &&& entries_ok(es, 0) == Ok::<nat, MarcErrV>(dtotal)
            &&& 0 < es.len() <= 8331
            &&& total < 100000
            &&& b.len() == total
            &&& b.subrange(0, 5) == dec_bytes(total as nat, 5)
            &&& b.subrange(12, 17) == dec_bytes(base as nat, 5)
            &&& (forall|i: int| 0 <= i < 24 ==> #[trigger] b[i] < 128)
            &&& b.subrange(24, base - 1) == dir_bytes(es, 0)
            &&& b.subrange(base as int, (base + dtotal) as int) == data_concat(es)
            &&& (forall|k: int| 0 <= k < es.len() ==> byte_len(#[trigger] es[k].0) == 3)
        }),
{
    let es = entry_list(r);
    let n1 = r.cfs.len() as int;
    let base = 25 + 12 * es.len();
    let dtotal = sum_lens(es);
    let total = base + dtotal + 1;
    assert(es.len() == r.cfs.len() + r.fields.len());
    assert(entries_ok(es, 0) is Ok) by {
        if entries_ok(es, 0) is Err {
            assert(bin_encode(r) is Err);
        }
    }
    lemma_entries_ok_props(es, 0);
    assert forall|k: int| 0 <= k < es.len() implies byte_len(#[trigger] es[k].0) == 3 by {
        if k < n1 {
            assert(es[k] == (r.cfs[k].tag, cf_data(r.cfs[k])));
            assert(crate::record::cf_wf(r.cfs[k]));
        } else {
            assert(es[k] == (r.fields[k - n1].tag, field_data(r.fields[k - n1])));
            assert(crate::record::field_wf(r.fields[k - n1]));
        }
    }
    lemma_dir_bytes_len(es, 0);
    lemma_data_concat_len(es);
    let lb = leader_bytes_of(r);
    assert(lb.len() == 24) by {
        match r.leader {
            Some(l) => {
                vstd::utf8::is_ascii_chars_encode_utf8(l);
                assert(byte_len(l) == 24);
            },
            None => {},
        }
    }
    assert(forall|i: int| 0 <= i < lb.len() ==> #[trigger] lb[i] < 128) by {
        match r.leader {
            Some(l) => {
                vstd::utf8::is_ascii_chars_encode_utf8(l);
                assert(forall|i: int|
                    0 <= i < l.len() ==> ('\0' <= #[trigger] l[i] <= '\u{7f}'));
                assert forall|i: int| 0 <= i < lb.len() implies #[trigger] lb[i] < 128 by {
                    assert(lb[i] == l[i] as u8);
                    assert(l[i] <= '\u{7f}');
                    assert((l[i] as u32) < 128) by {
                        vstd::utf8::is_ascii_chars_nat_bound(l);
                    }
                }
            },
            None => {},
        }
    }
    let head = dec_bytes(total as nat, 5) + lb.subrange(5, 12) + dec_bytes(base as nat, 5)
        + lb.subrange(17, 24);
    assert(b == head + dir_bytes(es, 0) + seq![fterm()] + data_concat(es) + seq![rterm()]);
    lemma_dec_bytes_value_len(total as nat, 5);
    lemma_dec_bytes_value_len(base as nat, 5);
    assert(head.len() == 24);
    assert(b.len() == 24 + 12 * es.len() + 1 + dtotal + 1);
    assert(b.subrange(0, 5) =~= dec_bytes(total as nat, 5));
    assert(b.subrange(12, 17) =~= dec_bytes(base as nat, 5));
    assert(b.subrange(24, base - 1) =~= dir_bytes(es, 0));
    assert(b.subrange(base as int, (base + dtotal) as int) =~= data_concat(es));
    lemma_pow10_vals();
    lemma_dec_bytes_value(total as nat, 5);
    lemma_dec_bytes_value(base as nat, 5);
    assert forall|i: int| 0 <= i < 24 implies #[trigger] b[i] < 128 by {
        if i < 5 {
            assert(b[i] == dec_bytes(total as nat, 5)[i]);
            assert(all_digits(dec_bytes(total as nat, 5)));
        } else if i < 12 {
            assert(b[i] == lb.subrange(5, 12)[i - 5]);
            assert(lb.subrange(5, 12)[i - 5] == lb[i]);
        } else if i < 17 {
            assert(b[i] == dec_bytes(base as nat, 5)[i - 12]);
            assert(all_digits(dec_bytes(base as nat, 5)));
        } else {
            assert(b[i] == lb.subrange(17, 24)[i - 17]);
            assert(lb.subrange(17, 24)[i - 17] == lb[i]);
        }
    }
}

/// Directory entry `k` of an encoded record parses back to its tag,
/// length, and offset.
#[verifier::rlimit(100)]
pub proof fn lemma_parse_entry_k(r: RecordV, b: Seq<u8>, k: int)
    requires
        bin_setup(r, b),
        0 <= k < entry_list(r).len(),
    ensures
        ({
            let es = entry_list(r);
            let base = 25 + 12 * es.len();
            parse_entry(b.subrange(24, base - 1), k) == Ok::<(Seq<char>, nat, nat), MarcErrV>(
                (es[k].0, es[k].1.len(), sum_lens(es.take(k))),
            )
        }),
{
    let es = entry_list(r);
    let base = 25 + 12 * es.len();
    lemma_bin_layout(r, b);
    let dir = b.subrange(24, base - 1);
    assert(dir == dir_bytes(es, 0));
    lemma_dir_bytes_split(es, 0, k);
    let fpos = sum_lens(es.take(k));
    let head = dir_bytes(es.take(k), 0);
    let tailpart = dir_bytes(es.skip(k), fpos);
    assert(forall|j: int|
        0 <= j < es.take(k).len() ==> byte_len(#[trigger] es.take(k)[j].0) == 3);
    lemma_dir_bytes_len(es.take(k), 0);
    assert(head.len() == 12 * k);
    assert(es.skip(k).len() > 0);
    assert(es.skip(k)[0] == es[k]);
    assert(es.skip(k).drop_first() =~= es.skip(k + 1));
    let tag = es[k].0;
    let dlen = es[k].1.len();
    assert(tailpart == encode_utf8(tag) + dec_bytes(dlen, 4) + dec_bytes(fpos, 5) + dir_bytes(
        es.skip(k + 1),
        fpos + dlen,
    ));
    assert(byte_len(tag) == 3);
    lemma_dec_bytes_value_len(dlen, 4);
    lemma_dec_bytes_value_len(fpos, 5);
    let e = dir.subrange(12 * k, 12 * k + 12);
    assert(e =~= encode_utf8(tag) + dec_bytes(dlen, 4) + dec_bytes(fpos, 5));
    assert(e.subrange(0, 3) =~= encode_utf8(tag));
    assert(e.subrange(3, 7) =~= dec_bytes(dlen, 4));
    assert(e.subrange(7, 12) =~= dec_bytes(fpos, 5));
    vstd::utf8::encode_utf8_valid_utf8(tag);
    vstd::utf8::encode_utf8_decode_utf8(tag);
    lemma_entries_ok_props(es, 0);
    lemma_pow10_vals();
    lemma_dec_bytes_value(dlen, 4);
    lemma_dec_bytes_value(fpos, 5);
}

/// The field bytes of entry `k` of an encoded record sit exactly at
/// their directory offsets and decode to the entry's text.
#[verifier::rlimit(100)]
pub proof fn lemma_field_bytes_k(r: RecordV, b: Seq<u8>, k: int)
    requires
        bin_setup(r, b),
        0 <= k < entry_list(r).len(),
    ensures
        ({
            let es = entry_list(r);
            let base = 25 + 12 * es.len();
            let fpos = sum_lens(es.take(k));
            let dlen = es[k].1.len();
            &&& dlen >= 1
            &&& base + fpos + dlen <= b.len() - 1
            &&& b.subrange((base + fpos) as int, (base + fpos + dlen - 1) as int) == es[k].1.take(dlen - 1)
        }),
{
    let es = entry_list(r);
    let n1 = r.cfs.len() as int;
    let base = 25 + 12 * es.len();
    let dtotal = sum_lens(es);
    lemma_bin_layout(r, b);
    let fpos = sum_lens(es.take(k));
    let dlen = es[k].1.len();
    assert(dlen >= 1) by {
        if k < n1 {
            assert(es[k] == (r.cfs[k].tag, cf_data(r.cfs[k])));
        } else {
            assert(es[k] == (r.fields[k - n1].tag, field_data(r.fields[k - n1])));
        }
    }
    assert(fpos + dlen <= dtotal) by {
        lemma_data_concat_split(es, k + 1);
        lemma_data_concat_len(es.take(k + 1));
        lemma_data_concat_len(es.skip(k + 1));
        lemma_data_concat_len(es);
        assert(es.take(k + 1) =~= es.take(k) + seq![es[k]]);
        lemma_sum_lens_concat(es.take(k), seq![es[k]]);
        assert(seq![es[k]].drop_first() =~= Seq::<(Seq<char>, Seq<u8>)>::empty());
        assert(seq![es[k]][0] == es[k]);
        assert(sum_lens(Seq::<(Seq<char>, Seq<u8>)>::empty()) == 0);
        assert(sum_lens(seq![es[k]]) == es[k].1.len() + sum_lens(seq![es[k]].drop_first()));
        assert(sum_lens(seq![es[k]]) == dlen);
        assert(dtotal == sum_lens(es.take(k + 1)) + sum_lens(es.skip(k + 1))) by {
            lemma_sum_lens_concat(es.take(k + 1), es.skip(k + 1));
            assert(es.take(k + 1) + es.skip(k + 1) =~= es);
        }
    }
    let data = data_concat(es);
    lemma_data_concat_split(es, k);
    assert(data == data_concat(es.take(k)) + data_concat(es.skip(k)));
    lemma_data_concat_len(es.take(k));
    assert(es.skip(k)[0] == es[k]);
    assert(es.skip(k).drop_first() =~= es.skip(k + 1));
    assert(data_concat(es.skip(k)) == es[k].1 + data_concat(es.skip(k + 1)));
    assert(data.subrange(fpos as int, (fpos + dlen) as int) =~= es[k].1);
    assert(b.subrange(base as int, (base + dtotal) as int) == data);
    assert(b.subrange((base + fpos) as int, (base + fpos + dlen) as int) =~= data.subrange(
        fpos as int,
        (fpos + dlen) as int,
    ));
    assert(b.subrange((base + fpos) as int, (base + fpos + dlen - 1) as int) =~= es[k].1.take(dlen - 1));
}


/// Decoding entry `k` of an encoded record appends exactly the record's
/// own `k`-th field.
#[verifier::rlimit(100)]
pub proof fn lemma_process_entry_k(r: RecordV, b: Seq<u8>, k: int, rv: RecordV)
    requires
        bin_setup(r, b),
        0 <= k < entry_list(r).len(),
    ensures
        ({
            let es = entry_list(r);
            let n1 = r.cfs.len() as int;
            let base = 25 + 12 * es.len();
            let fpos = sum_lens(es.take(k));
            let dlen = es[k].1.len();
            process_entry(rv, b, es[k].0, (base + fpos) as int, (base + fpos + dlen - 1) as int) == Ok::<
                RecordV,
                MarcErrV,
            >(
                (if k < n1 {
                    RecordV { cfs: rv.cfs.push(r.cfs[k]), ..rv }
                } else {
                    RecordV { fields: rv.fields.push(r.fields[k - n1]), ..rv }
                }),
            )
        }),
{
    let es = entry_list(r);
    let n1 = r.cfs.len() as int;
    let base = 25 + 12 * es.len();
    let fpos = sum_lens(es.take(k));
    let dlen = es[k].1.len();
    lemma_bin_layout(r, b);
    lemma_field_bytes_k(r, b, k);
    let start = base + fpos;
    let last = base + fpos + dlen - 1;
    assert(last < b.len());
    assert(start <= last);
    let fb = b.subrange(start as int, last as int);
    assert(fb == es[k].1.take(dlen - 1));
    if k < n1 {
        let cf = r.cfs[k];
        assert(es[k] == (cf.tag, cf_data(cf)));
        let ct = match cf.content {
            Some(c) => c,
            None => Seq::<char>::empty(),
        };
        assert(es[k].1 == encode_utf8(ct) + seq![fterm()]);
        assert(fb =~= encode_utf8(ct));
        vstd::utf8::encode_utf8_valid_utf8(ct);
        vstd::utf8::encode_utf8_decode_utf8(ct);
        assert(seq_str_lt(es[k].0, tag_bound()));
        let text = decode_utf8(fb);
        assert(text == ct);
        let built = ControlfieldV {
            tag: es[k].0,
            content: if text.len() > 0 {
                Some(text)
            } else {
                None
            },
        };
        assert(built =~= cf) by {
            match cf.content {
                Some(c) => {
                    assert(c.len() > 0);
                },
                None => {
                    assert(ct.len() == 0);
                },
            }
        }
        assert(process_entry(rv, b, es[k].0, start as int, last as int) == Ok::<
            RecordV,
            MarcErrV,
        >((RecordV { cfs: rv.cfs.push(cf), ..rv })));
    } else {
        let f = r.fields[k - n1];
        assert(es[k] == (f.tag, field_data(f)));
        assert(crate::record::field_wf(f));
        assert(!seq_str_lt(f.tag, tag_bound()) && sfs_safe(f.sfs));
        let text = field_text(f);
        assert(es[k].1 == encode_utf8(text) + seq![fterm()]);
        assert(fb =~= encode_utf8(text));
        vstd::utf8::encode_utf8_valid_utf8(text);
        vstd::utf8::encode_utf8_decode_utf8(text);
        let i1 = ind_chars(f.ind1);
        let i2 = ind_chars(f.ind2);
        assert(i1.len() == 1 && (i1[0] as u32) < 128 && norm_ind(i1) == f.ind1) by {
            lemma_ind_chars_props(f.ind1);
        }
        assert(i2.len() == 1 && (i2[0] as u32) < 128 && norm_ind(i2) == f.ind2) by {
            lemma_ind_chars_props(f.ind2);
        }
        assert(text == i1 + i2 + sfs_bin_text(f.sfs));
        assert(text.len() >= 2);
        assert(text[0] == i1[0]);
        assert(text[1] == i2[0]);
        assert(seq![text[0]] =~= i1);
        assert(seq![text[1]] =~= i2);
        assert(text.skip(2) =~= sfs_bin_text(f.sfs));
        let f0 = FieldV {
            tag: es[k].0,
            ind1: norm_ind(seq![text[0]]),
            ind2: norm_ind(seq![text[1]]),
            sfs: Seq::empty(),
        };
        assert(forall|j: int| 0 <= j < f.sfs.len() ==> sf_wf(#[trigger] f.sfs[j]));
        lemma_sfs_split_fold(f0, f.sfs);
        let folded = FieldV { sfs: f0.sfs + f.sfs, ..f0 };
        assert(f0.sfs + f.sfs =~= f.sfs);
        assert(folded =~= f);
        assert(bin_sfs(f0, split_us(text.skip(2)).drop_first()) == Ok::<FieldV, MarcErrV>(f));
        assert(process_entry(rv, b, es[k].0, start as int, last as int) == Ok::<
            RecordV,
            MarcErrV,
        >((RecordV { fields: rv.fields.push(f), ..rv })));
    }
}

/// A well-formed indicator's binary character is single, ASCII, and
/// normalizes back to the indicator.
pub proof fn lemma_ind_chars_props(i: Option<Seq<char>>)
    requires
        crate::record::ind_wf(i),
    ensures
        ind_chars(i).len() == 1,
        (ind_chars(i)[0] as u32) < 128,
        norm_ind(ind_chars(i)) == i,
{
    match i {
        Some(v) => {
            crate::record::lemma_byte_len_single(v);
            assert(ind_chars(i) =~= v);
            assert(v != seq![' ']);
        },
        None => {
            assert(ind_chars(i) =~= seq![' ']);
            assert(norm_ind(seq![' ']) is None);
        },
    }
}

/// Folding the remaining directory entries from `k` onward yields the
/// whole record.
#[verifier::rlimit(100)]
pub proof fn lemma_bin_entries_suffix(r: RecordV, b: Seq<u8>, k: int, rv: RecordV)
    requires
        bin_setup(r, b),
        0 <= k <= entry_list(r).len(),
        rv.leader == Some(decode_utf8(b.subrange(0, 24))),
        rv.cfs == (if k <= r.cfs.len() {
            r.cfs.take(k)
        } else {
            r.cfs
        }),
        rv.fields == (if k <= r.cfs.len() {
            Seq::<FieldV>::empty()
        } else {
            r.fields.take(k - r.cfs.len())
        }),
    ensures
        ({
            let es = entry_list(r);
            let base = 25 + 12 * es.len();
            bin_entries(rv, b, base as int, es.len() as int, k) == Ok::<RecordV, MarcErrV>(
                (RecordV { leader: rv.leader, cfs: r.cfs, fields: r.fields }),
            )
        }),
    decreases entry_list(r).len() - k,
{
    let es = entry_list(r);
    let n = es.len() as int;
    let n1 = r.cfs.len() as int;
    let base = 25 + 12 * es.len();
    if k == n {
        assert(rv.cfs =~= r.cfs) by {
            if k <= n1 {
                assert(k == n1);
                assert(r.cfs.take(n1) =~= r.cfs);
            }
        }
        assert(rv.fields =~= r.fields) by {
            if k <= n1 {
                assert(n == n1);
                assert(r.fields.len() == 0);
                assert(rv.fields =~= r.fields);
            } else {
                assert(r.fields.take(n - n1) =~= r.fields);
            }
        }
        assert(rv =~= (RecordV { leader: rv.leader, cfs: r.cfs, fields: r.fields }));
    } else {
        lemma_parse_entry_k(r, b, k);
        lemma_process_entry_k(r, b, k, rv);
        let fpos = sum_lens(es.take(k));
        let dlen = es[k].1.len();
        let rv2 = if k < n1 {
            RecordV { cfs: rv.cfs.push(r.cfs[k]), ..rv }
        } else {
            RecordV { fields: rv.fields.push(r.fields[k - n1]), ..rv }
        };
        assert(bin_entries(rv, b, base as int, n, k) == bin_entries(rv2, b, base as int, n, k + 1));
        if k < n1 {
            assert(rv2.cfs =~= r.cfs.take(k + 1));
            assert(rv2.fields =~= Seq::<FieldV>::empty());
        } else {
            assert(rv2.cfs == r.cfs) by {
                if k == n1 {
                    assert(r.cfs.take(n1) =~= r.cfs);
                }
            }
            assert(rv2.fields =~= r.fields.take(k + 1 - n1)) by {
                if k == n1 {
                    assert(rv.fields =~= r.fields.take(0));
                }
            }
        }
        lemma_bin_entries_suffix(r, b, k + 1, rv2);
    }
}

/// Round-trip law for the binary codec: a record that encodes
/// successfully decodes back to a record with exactly the same control
/// fields and data fields; the leader comes back as the 24 bytes the
/// encoder wrote, that is, the original leader (or a blank one) with its
/// record-length and base-address digits recomputed.
#[verifier::rlimit(100)]
pub proof fn lemma_binary_round_trip(r: RecordV)
    requires
        record_wf(r),
        bin_round_trip_safe(r),
        bin_encode(r) is Ok,
    ensures
        ({
            let b = bin_encode(r)->Ok_0;
            &&& bin_decode(b) matches Ok(r2) && r2.cfs == r.cfs && r2.fields == r.fields
                && r2.leader == Some(decode_utf8(b.subrange(0, 24))) && encode_utf8(
                r2.leader->Some_0,
            ) == b.subrange(0, 24)
        }),
{
    let b = bin_encode(r)->Ok_0;
    let es = entry_list(r);
    let n = es.len() as int;
    let base = 25 + 12 * es.len();
    let dtotal = sum_lens(es);
    let total = base + dtotal + 1;
    lemma_bin_layout(r, b);
    lemma_pow10_vals();
    lemma_dec_bytes_value(total as nat, 5);
    lemma_dec_bytes_value(base as nat, 5);
    assert(parse_dec(b.subrange(0, 5)) == Some(total as nat));
    assert(total == b.len());
    assert(b.len() >= 25);
    assert forall|i: int| 0 <= i < b.subrange(0, 24).len() implies #[trigger] b.subrange(
        0,
        24,
    )[i] < 128 by {
        assert(b.subrange(0, 24)[i] == b[i]);
    }
    lemma_ascii_bytes_decode(b.subrange(0, 24));
    assert(valid_utf8(b.subrange(0, 24)));
    assert(parse_dec(b.subrange(12, 17)) == Some(base as nat));
    assert(base >= 25);
    assert(base - 1 <= b.len());
    assert(base - 25 == 12 * n);
    assert(12 * n != 0);
    assert((12 * n) % 12 == 0 && (12 * n) / 12 == n) by (nonlinear_arith)
        requires
            n >= 1,
    ;
    let rv0 = RecordV {
        leader: Some(decode_utf8(b.subrange(0, 24))),
        cfs: Seq::<ControlfieldV>::empty(),
        fields: Seq::<FieldV>::empty(),
    };
    assert(bin_decode(b) == bin_entries(rv0, b, base as int, n, 0));
    assert(rv0.cfs =~= r.cfs.take(0));
    lemma_bin_entries_suffix(r, b, 0, rv0);
    vstd::utf8::decode_utf8_encode_utf8(b.subrange(0, 24));
}

} // verus!
