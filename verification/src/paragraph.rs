//! The RFC822-like paragraph format of Debian control data: fields of
//! `Name: value` lines, where follow-up lines starting with a space
//! continue the previous field's value, and a blank line ends a
//! paragraph.
//!
//! The emitter and the parser are exact inverses on well-formed
//! paragraphs: `lemma_paragraph_round_trip` proves that parsing an
//! emitted paragraph gives the same fields back, so re-emitting yields
//! byte-identical output.

use crate::version::first_colon;
use crate::version::lemma_first_colon_char;
use vstd::prelude::*;

verus! {

/// One field of a paragraph.  A newline inside `value` stands for a
/// continuation line.
pub struct Field {
    pub name: Vec<u8>,
    pub value: Vec<u8>,
}

/// Model of a field.
pub struct FieldModel {
    pub name: Seq<u8>,
    pub value: Seq<u8>,
}

impl View for Field {
    type V = FieldModel;

    open spec fn view(&self) -> FieldModel {
        FieldModel { name: self.name@, value: self.value@ }
    }
}

impl Clone for Field {
    fn clone(&self) -> (res: Self)
        ensures
            res@ == self@,
    {
        Field { name: self.name.clone(), value: self.value.clone() }
    }
}

/// Model of a field list.
pub open spec fn fields_view(s: Seq<Field>) -> Seq<FieldModel> {
    s.map(|_i: int, f: Field| f@)
}

/// The field can be written and read back: a non-empty name without
/// colon or newline that does not look like a continuation line.
pub open spec fn wf_field(f: FieldModel) -> bool {
    &&& f.name.len() > 0
    &&& f.name[0] != 0x20
    &&& f.name[0] != 0x0a
    &&& forall|i: int| 0 <= i < f.name.len() ==> #[trigger] f.name[i] != 0x3a && f.name[i] != 0x0a
}

/// A paragraph that can be written and read back: at least one field,
/// each well-formed.
pub open spec fn wf_paragraph(fs: Seq<FieldModel>) -> bool {
    fs.len() > 0 && forall|i: int| 0 <= i < fs.len() ==> wf_field(#[trigger] fs[i])
}

/// A field value as it appears on disk: each newline is followed by the
/// continuation marker (a space).
pub open spec fn cont_encode(v: Seq<u8>) -> Seq<u8>
    decreases v.len(),
{
    if v.len() == 0 {
        Seq::<u8>::empty()
    } else if v[0] == 0x0a {
        seq![0x0au8, 0x20u8] + cont_encode(v.skip(1))
    } else {
        seq![v[0]] + cont_encode(v.skip(1))
    }
}

/// Encoding distributes over concatenation: each byte is encoded on
/// its own.
pub proof fn lemma_cont_encode_add(a: Seq<u8>, b: Seq<u8>)
    ensures
        cont_encode(a + b) == cont_encode(a) + cont_encode(b),
    decreases a.len(),
{
    if a.len() == 0 {
        assert(a + b =~= b);
        assert(cont_encode(a) + cont_encode(b) =~= cont_encode(b));
    } else {
        assert((a + b).skip(1) =~= a.skip(1) + b);
        lemma_cont_encode_add(a.skip(1), b);
        if a[0] == 0x0a {
            assert(cont_encode(a + b) =~= cont_encode(a) + cont_encode(b));
        } else {
            assert(cont_encode(a + b) =~= cont_encode(a) + cont_encode(b));
        }
    }
}

/// One field as emitted: `name`, a colon and a space, the encoded
/// value, a final newline.
pub open spec fn emit_field(f: FieldModel) -> Seq<u8> {
    f.name + seq![0x3au8, 0x20u8] + cont_encode(f.value) + seq![0x0au8]
}

/// A paragraph as emitted: its fields, one after the other.
pub open spec fn emit_fields(fs: Seq<FieldModel>) -> Seq<u8>
    decreases fs.len(),
{
    if fs.len() == 0 {
        Seq::<u8>::empty()
    } else {
        emit_field(fs[0]) + emit_fields(fs.skip(1))
    }
}

/// Scan a field value from the bytes after `Name: `, decoding
/// continuation lines; yields the value and how many bytes were
/// consumed (the terminating newline included).
pub open spec fn scan_value(s: Seq<u8>) -> (Seq<u8>, int)
    decreases s.len(),
{
    if s.len() == 0 {
        (Seq::<u8>::empty(), 0)
    } else if s[0] == 0x0a {
        if s.len() > 1 && s[1] == 0x20 {
            let r = scan_value(s.skip(2));
            (seq![0x0au8] + r.0, 2 + r.1)
        } else {
            (Seq::<u8>::empty(), 1)
        }
    } else {
        let r = scan_value(s.skip(1));
        (seq![s[0]] + r.0, 1 + r.1)
    }
}

pub proof fn lemma_scan_value_consumed(s: Seq<u8>)
    ensures
        0 <= scan_value(s).1 <= s.len(),
    decreases s.len(),
{
    if s.len() > 0 {
        if s[0] == 0x0a {
            if s.len() > 1 && s[1] == 0x20 {
                lemma_scan_value_consumed(s.skip(2));
            }
        } else {
            lemma_scan_value_consumed(s.skip(1));
        }
    }
}

/// Parse the fields of one paragraph; yields the fields and the bytes
/// consumed.  Parsing stops without consuming at a blank line or the
/// end of the input; a missing colon or an empty name is an error.
pub open spec fn parse_fields(s: Seq<u8>) -> Option<(Seq<FieldModel>, int)>
    decreases s.len(),
{
    if s.len() == 0 || s[0] == 0x0a {
        Some((Seq::<FieldModel>::empty(), 0))
    } else {
        let c = first_colon(s);
        if c == 0 || c >= s.len() {
            None
        } else if !(forall|i: int| 0 <= i < c ==> #[trigger] s[i] != 0x0a) {
            None
        } else {
            let name = s.take(c);
            let after = s.skip(c + 1);
            let vstart: int = if after.len() > 0 && after[0] == 0x20 {
                1
            } else {
                0
            };
            let sv = scan_value(after.skip(vstart));
            let consumed = c + 1 + vstart + sv.1;
            proof {
                crate::version::lemma_first_colon_le(s);
                lemma_scan_value_consumed(after.skip(vstart));
            }
            match parse_fields(s.skip(consumed)) {
                Some(rest) => Some(
                    (seq![FieldModel { name, value: sv.0 }] + rest.0, consumed + rest.1),
                ),
                None => None,
            }
        }
    }
}

/// A successful parse consumes between one byte (per field) and the
/// whole input.
pub proof fn lemma_parse_fields_consumed(s: Seq<u8>)
    requires
        parse_fields(s) is Some,
    ensures
        0 <= parse_fields(s).unwrap().1 <= s.len(),
        s.len() > 0 && s[0] != 0x0a ==> parse_fields(s).unwrap().1 >= 1,
    decreases s.len(),
{
    if s.len() == 0 || s[0] == 0x0a {
    } else {
        let c = first_colon(s);
        let after = s.skip(c + 1);
        let vstart: int = if after.len() > 0 && after[0] == 0x20 {
            1
        } else {
            0
        };
        let sv = scan_value(after.skip(vstart));
        let consumed = c + 1 + vstart + sv.1;
        crate::version::lemma_first_colon_le(s);
        lemma_scan_value_consumed(after.skip(vstart));
        lemma_parse_fields_consumed(s.skip(consumed));
    }
}

/// Parse a whole stream of paragraphs separated by blank lines.
pub open spec fn parse_paragraphs(s: Seq<u8>) -> Option<Seq<Seq<FieldModel>>>
    decreases s.len(),
{
    if s.len() == 0 {
        Some(Seq::<Seq<FieldModel>>::empty())
    } else if s[0] == 0x0a {
        parse_paragraphs(s.skip(1))
    } else {
        match parse_fields(s) {
            Some(p) => {
                if 1 <= p.1 <= s.len() {
                    match parse_paragraphs(s.skip(p.1)) {
                        Some(ps) => Some(seq![p.0] + ps),
                        None => None,
                    }
                } else {
                    None
                }
            },
            None => None,
        }
    }
}

/// Parse a stream of paragraphs.
#[verifier::loop_isolation(false)]
pub fn parse_paragraph_stream(bytes: &Vec<u8>) -> (r: Option<Vec<Vec<Field>>>)
    ensures
        match r {
            Some(ps) => parse_paragraphs(bytes@) == Some(
                ps@.map(|_i: int, p: Vec<Field>| fields_view(p@)),
            ),
            None => parse_paragraphs(bytes@) is None,
        },
{
    let len = bytes.len();
    let mut out: Vec<Vec<Field>> = Vec::new();
    let mut pos: usize = 0;
    proof {
        assert(bytes@.skip(0) =~= bytes@);
        assert(out@.map(|_i: int, p: Vec<Field>| fields_view(p@)) =~= Seq::<
            Seq<FieldModel>,
        >::empty());
    }
    while pos < len
        invariant
            0 <= pos <= len,
            parse_paragraphs(bytes@) == (match parse_paragraphs(bytes@.skip(pos as int)) {
                Some(ps) => Some::<Seq<Seq<FieldModel>>>(
                    out@.map(|_i: int, p: Vec<Field>| fields_view(p@)) + ps,
                ),
                None => None::<Seq<Seq<FieldModel>>>,
            }),
        decreases len - pos,
    {
        let ghost s = bytes@.skip(pos as int);
        if bytes[pos] == 0x0a {
            proof {
                assert(s[0] == 0x0a);
                assert(s.skip(1) =~= bytes@.skip(pos + 1));
            }
            pos = pos + 1;
        } else {
            proof {
                assert(s[0] != 0x0a);
            }
            match parse_fields_at(bytes, pos) {
                Some((fields, stop)) => {
                    proof {
                        lemma_parse_fields_consumed(s);
                        assert(stop - pos >= 1);
                        assert(s.skip(stop - pos as int) =~= bytes@.skip(stop as int));
                    }
                    let ghost before = out@;
                    out.push(fields);
                    proof {
                        assert(out@.map(|_i: int, p: Vec<Field>| fields_view(p@)) =~= before.map(
                            |_i: int, p: Vec<Field>| fields_view(p@),
                        ).push(fields_view(out@[before.len() as int]@)));
                        assert forall|ps: Seq<Seq<FieldModel>>| true implies before.map(
                            |_i: int, p: Vec<Field>| fields_view(p@),
                        ) + (seq![fields_view(out@[before.len() as int]@)] + ps) =~= out@.map(
                            |_i: int, p: Vec<Field>| fields_view(p@),
                        ) + ps by {}
                    }
                    pos = stop;
                },
                None => {
                    return None;
                },
            }
        }
    }
    proof {
        assert(bytes@.skip(len as int).len() == 0);
        assert(out@.map(|_i: int, p: Vec<Field>| fields_view(p@)) + Seq::<
            Seq<FieldModel>,
        >::empty() =~= out@.map(|_i: int, p: Vec<Field>| fields_view(p@)));
    }
    Some(out)
}

/// Scanning an encoded value that ends with its newline terminator
/// recovers the value exactly, whatever follows, provided what follows
/// does not begin with a continuation marker.
proof fn lemma_scan_emitted(v: Seq<u8>, r: Seq<u8>)
    requires
        r.len() == 0 || r[0] != 0x20,
    ensures
        scan_value(cont_encode(v) + seq![0x0au8] + r) == (v, cont_encode(v).len() as int + 1),
    decreases v.len(),
{
    let s = cont_encode(v) + seq![0x0au8] + r;
    if v.len() == 0 {
        assert(s =~= seq![0x0au8] + r);
        assert(s[0] == 0x0a);
        if s.len() > 1 {
            assert(s[1] == r[0]);
        }
        assert(scan_value(s).0 =~= v);
    } else if v[0] == 0x0a {
        assert(s[0] == 0x0a);
        assert(s[1] == 0x20);
        assert(s.skip(2) =~= cont_encode(v.skip(1)) + seq![0x0au8] + r);
        lemma_scan_emitted(v.skip(1), r);
        assert(seq![0x0au8] + v.skip(1) =~= v);
        assert(cont_encode(v).len() == 2 + cont_encode(v.skip(1)).len());
    } else {
        assert(s[0] == v[0]);
        assert(s[0] != 0x0a);
        assert(s.skip(1) =~= cont_encode(v.skip(1)) + seq![0x0au8] + r);
        lemma_scan_emitted(v.skip(1), r);
        assert(seq![v[0]] + v.skip(1) =~= v);
        assert(cont_encode(v).len() == 1 + cont_encode(v.skip(1)).len());
    }
}

/// Parsing an emitted field consumes exactly its bytes and recovers the
/// field, whatever well-placed input follows.
proof fn lemma_parse_emitted_field(f: FieldModel, rest: Seq<u8>)
    requires
        wf_field(f),
        rest.len() == 0 || rest[0] != 0x20,
    ensures
        parse_fields(emit_field(f) + rest) == (match parse_fields(rest) {
            Some(rr) => Some::<(Seq<FieldModel>, int)>(
                (seq![f] + rr.0, emit_field(f).len() + rr.1),
            ),
            None => None::<(Seq<FieldModel>, int)>,
        }),
{
    let s = emit_field(f) + rest;
    let nl = f.name.len() as int;
    assert(s[0] == f.name[0]);
    assert(s[0] != 0x0a);
    assert forall|i: int| 0 <= i < nl implies #[trigger] s[i] != 0x3a && s[i] != 0x0a by {
        assert(s[i] == f.name[i]);
    }
    assert(s[nl] == 0x3a);
    lemma_first_colon_char(s, nl);
    let c = first_colon(s);
    assert(c == nl);
    assert(s.take(c) =~= f.name);
    let after = s.skip(c + 1);
    assert(after =~= seq![0x20u8] + cont_encode(f.value) + seq![0x0au8] + rest);
    assert(after[0] == 0x20);
    assert(after.skip(1) =~= cont_encode(f.value) + seq![0x0au8] + rest);
    lemma_scan_emitted(f.value, rest);
    let sv = scan_value(after.skip(1));
    assert(sv.0 == f.value);
    assert(sv.1 == cont_encode(f.value).len() + 1);
    let consumed = c + 1 + 1 + sv.1;
    assert(consumed == emit_field(f).len());
    assert(s.skip(consumed) =~= rest);
    match parse_fields(rest) {
        Some(rr) => {
            assert(parse_fields(s) == Some::<(Seq<FieldModel>, int)>(
                (seq![FieldModel { name: f.name, value: f.value }] + rr.0, consumed + rr.1),
            ));
            assert(FieldModel { name: f.name, value: f.value } == f);
        },
        None => {},
    }
}

/// Parsing emitted fields followed by a paragraph end recovers the
/// fields exactly.
proof fn lemma_parse_emitted_fields(fs: Seq<FieldModel>, rest: Seq<u8>)
    requires
        forall|i: int| 0 <= i < fs.len() ==> wf_field(#[trigger] fs[i]),
        rest.len() == 0 || rest[0] == 0x0a,
    ensures
        parse_fields(emit_fields(fs) + rest) == Some::<(Seq<FieldModel>, int)>(
            (fs, emit_fields(fs).len() as int),
        ),
    decreases fs.len(),
{
    if fs.len() == 0 {
        assert(emit_fields(fs) + rest =~= rest);
        assert(fs =~= Seq::<FieldModel>::empty());
    } else {
        let f0 = fs[0];
        let tail = fs.skip(1);
        assert(wf_field(f0));
        assert forall|i: int| 0 <= i < tail.len() implies wf_field(#[trigger] tail[i]) by {
            assert(tail[i] == fs[i + 1]);
        }
        lemma_parse_emitted_fields(tail, rest);
        let rest2 = emit_fields(tail) + rest;
        if tail.len() > 0 {
            assert(rest2[0] == emit_field(tail[0])[0]);
            assert(emit_field(tail[0])[0] == tail[0].name[0]);
            assert(rest2[0] != 0x20);
        } else {
            assert(emit_fields(tail) =~= Seq::<u8>::empty());
            assert(rest2 =~= rest);
        }
        lemma_parse_emitted_field(f0, rest2);
        assert(emit_fields(fs) + rest =~= emit_field(f0) + rest2);
        assert(seq![f0] + tail =~= fs);
        assert(emit_fields(fs).len() == emit_field(f0).len() + emit_fields(tail).len());
    }
}

/// Round trip: parsing a paragraph written by the emitter yields the
/// same fields and consumes exactly the written bytes, so re-emitting
/// them gives byte-identical output.
pub proof fn lemma_paragraph_round_trip(fs: Seq<FieldModel>)
    requires
        wf_paragraph(fs),
    ensures
        parse_fields(emit_fields(fs)) == Some::<(Seq<FieldModel>, int)>(
            (fs, emit_fields(fs).len() as int),
        ),
{
    lemma_parse_emitted_fields(fs, Seq::<u8>::empty());
    assert(emit_fields(fs) + Seq::<u8>::empty() =~= emit_fields(fs));
}

/// Emitting distributes over appending a field at the end.
proof fn lemma_emit_fields_push(fs: Seq<FieldModel>, f: FieldModel)
    ensures
        emit_fields(fs.push(f)) == emit_fields(fs) + emit_field(f),
    decreases fs.len(),
{
    if fs.len() == 0 {
        assert(fs =~= Seq::<FieldModel>::empty());
        assert(fs.push(f).skip(1) =~= Seq::<FieldModel>::empty());
        assert(fs.push(f)[0] == f);
        assert(emit_fields(Seq::<FieldModel>::empty()) =~= Seq::<u8>::empty());
        assert(emit_fields(fs.push(f)) =~= emit_fields(fs) + emit_field(f));
    } else {
        assert(fs.push(f).skip(1) =~= fs.skip(1).push(f));
        lemma_emit_fields_push(fs.skip(1), f);
        assert(emit_fields(fs.push(f)) =~= emit_fields(fs) + emit_field(f));
    }
}

/// Write one paragraph in its on-disk form.
#[verifier::loop_isolation(false)]
pub fn emit_paragraph(fields: &Vec<Field>) -> (r: Vec<u8>)
    ensures
        r@ == emit_fields(fields_view(fields@)),
{
    let mut out: Vec<u8> = Vec::new();
    let n = fields.len();
    let mut k: usize = 0;
    proof {
        assert(fields_view(fields@).take(0) =~= Seq::<FieldModel>::empty());
    }
    while k < n
        invariant
            0 <= k <= n,
            out@ == emit_fields(fields_view(fields@).take(k as int)),
        decreases n - k,
    {
        let f = &fields[k];
        out.extend_from_slice(f.name.as_slice());
        out.push(0x3a);
        out.push(0x20);
        // encode the value, marking each newline as a continuation
        let vlen = f.value.len();
        let ghost mid = out@;
        let mut i: usize = 0;
        proof {
            assert(cont_encode(f.value@.take(0)) =~= Seq::<u8>::empty());
            assert(out@ =~= mid + cont_encode(f.value@.take(0)));
        }
        while i < vlen
            invariant
                0 <= i <= vlen,
                out@ == mid + cont_encode(f.value@.take(i as int)),
            decreases vlen - i,
        {
            let b = f.value[i];
            out.push(b);
            if b == 0x0a {
                out.push(0x20);
            }
            proof {
                let pre = f.value@.take(i as int);
                assert(f.value@.take(i + 1) =~= pre + seq![f.value@[i as int]]);
                lemma_cont_encode_add(pre, seq![f.value@[i as int]]);
                assert(seq![f.value@[i as int]].skip(1) =~= Seq::<u8>::empty());
                assert(cont_encode(Seq::<u8>::empty()) =~= Seq::<u8>::empty());
                if b == 0x0a {
                    assert(cont_encode(seq![f.value@[i as int]]) =~= seq![0x0au8, 0x20u8]);
                } else {
                    assert(seq![f.value@[i as int]].skip(1) =~= Seq::<u8>::empty());
                    assert(cont_encode(seq![f.value@[i as int]]) =~= seq![f.value@[i as int]]);
                }
                assert(out@ =~= mid + cont_encode(f.value@.take(i + 1)));
            }
            i = i + 1;
        }
        out.push(0x0a);
        proof {
            assert(f.value@.take(vlen as int) =~= f.value@);
            assert(out@ =~= emit_fields(fields_view(fields@).take(k as int)) + emit_field(
                fields@[k as int]@,
            ));
            assert(fields_view(fields@).take(k + 1) =~= fields_view(fields@).take(k as int).push(
                fields@[k as int]@,
            ));
            lemma_emit_fields_push(fields_view(fields@).take(k as int), fields@[k as int]@);
        }
        k = k + 1;
    }
    proof {
        assert(fields_view(fields@).take(n as int) =~= fields_view(fields@));
    }
    out
}

/// Parse the fields of one paragraph starting at `pos`; on success the
/// returned offset is where parsing stopped (the end of the input or a
/// blank line).
#[verifier::loop_isolation(false)]
#[verifier::rlimit(100)]
pub fn parse_fields_at(bytes: &Vec<u8>, pos: usize) -> (r: Option<(Vec<Field>, usize)>)
    requires
        pos <= bytes@.len(),
    ensures
        match r {
            Some(p) => pos <= p.1 <= bytes@.len() && parse_fields(bytes@.skip(pos as int))
                == Some::<(Seq<FieldModel>, int)>((fields_view(p.0@), p.1 - pos as int)),
            None => parse_fields(bytes@.skip(pos as int)) is None,
        },
{
    let len = bytes.len();
    let mut fields: Vec<Field> = Vec::new();
    let mut cur: usize = pos;
    proof {
        assert(fields_view(fields@) =~= Seq::<FieldModel>::empty());
    }
    while cur < len && bytes[cur] != 0x0a
        invariant
            pos <= cur <= len,
            parse_fields(bytes@.skip(pos as int)) == (match parse_fields(bytes@.skip(cur as int)) {
                Some(rest) => Some::<(Seq<FieldModel>, int)>(
                    (fields_view(fields@) + rest.0, (cur - pos) + rest.1),
                ),
                None => None::<(Seq<FieldModel>, int)>,
            }),
        decreases len - cur,
    {
        let ghost s = bytes@.skip(cur as int);
        // find the colon ending the field name
        let mut ca: usize = cur;
        while ca < len && bytes[ca] != 0x3a && bytes[ca] != 0x0a
            invariant
                cur <= ca <= len,
                forall|m: int| cur <= m < ca ==> #[trigger] bytes@[m] != 0x3a && bytes@[m] != 0x0a,
            decreases len - ca,
        {
            ca = ca + 1;
        }
        if ca == len || bytes[ca] == 0x0a {
            // no colon on this line
            proof {
                if ca == len {
                    assert forall|m: int| 0 <= m < s.len() implies #[trigger] s[m] != 0x3a by {
                        assert(bytes@[cur + m] != 0x3a);
                    }
                    lemma_first_colon_char(s, s.len() as int);
                } else {
                    // a newline stands before any colon
                    crate::version::lemma_first_colon_le(s);
                    crate::version::lemma_first_colon_found(s);
                    let c = first_colon(s);
                    if 0 < c < s.len() {
                        assert(s[c] == 0x3a);
                        assert(s[c] == bytes@[cur + c]);
                        assert(s[ca - cur] == 0x0a);
                        assert(c != ca - cur);
                        if cur + c < ca {
                            assert(bytes@[cur + c] != 0x3a);
                        }
                        assert(cur + c > ca);
                        assert(!(forall|i: int| 0 <= i < c ==> #[trigger] s[i] != 0x0a));
                    }
                }
            }
            return None;
        }
        proof {
            assert forall|m: int| 0 <= m < ca - cur implies #[trigger] s[m] != 0x3a by {
                assert(bytes@[cur + m] != 0x3a);
            }
            assert(s[ca - cur] == 0x3a);
            lemma_first_colon_char(s, ca - cur as int);
        }
        if ca == cur {
            // empty field name
            return None;
        }
        // copy the name
        let mut name: Vec<u8> = Vec::new();
        let mut m: usize = cur;
        while m < ca
            invariant
                cur <= m <= ca <= len,
                name@ == bytes@.subrange(cur as int, m as int),
            decreases ca - m,
        {
            name.push(bytes[m]);
            proof {
                assert(name@ =~= bytes@.subrange(cur as int, m + 1));
            }
            m = m + 1;
        }
        proof {
            assert(s.take(ca - cur) =~= bytes@.subrange(cur as int, ca as int));
        }
        // skip the colon and one optional space
        let mut vpos: usize = ca + 1;
        let ghost after = s.skip((ca - cur) + 1);
        proof {
            assert(after =~= bytes@.skip(vpos as int));
        }
        let ghost vstart: int = if after.len() > 0 && after[0] == 0x20 {
            1
        } else {
            0
        };
        if vpos < len && bytes[vpos] == 0x20 {
            proof {
                assert(after[0] == 0x20);
                assert(vstart == 1);
            }
            vpos = vpos + 1;
        } else {
            proof {
                if after.len() > 0 {
                    assert(after[0] == bytes@[vpos as int]);
                }
                assert(vstart == 0);
            }
        }
        proof {
            assert(after.skip(vstart) =~= bytes@.skip(vpos as int));
        }
        // scan the value, joining continuation lines
        let mut value: Vec<u8> = Vec::new();
        let mut c2: usize = vpos;
        let mut done = false;
        while !done
            invariant
                vpos <= c2 <= len,
                !done ==> scan_value(bytes@.skip(vpos as int)) == (
                value@ + scan_value(bytes@.skip(c2 as int)).0,
                (c2 - vpos) + scan_value(bytes@.skip(c2 as int)).1,
                ),
                done ==> scan_value(bytes@.skip(vpos as int)) == (value@, (c2 - vpos) as int),
            decreases (len - c2) + (if done {
                0int
            } else {
                1int
            }),
        {
            let ghost sv = bytes@.skip(c2 as int);
            if c2 >= len {
                proof {
                    assert(sv.len() == 0);
                    assert(value@ + scan_value(sv).0 =~= value@);
                }
                done = true;
            } else {
                let b = bytes[c2];
                proof {
                    assert(sv[0] == b);
                }
                if b == 0x0a {
                    if c2 + 1 < len && bytes[c2 + 1] == 0x20 {
                        proof {
                            assert(sv[1] == 0x20);
                            assert(sv.skip(2) =~= bytes@.skip(c2 + 2));
                            assert(value@.push(0x0au8) + scan_value(bytes@.skip(c2 + 2)).0
                                =~= value@ + scan_value(sv).0);
                        }
                        value.push(0x0a);
                        c2 = c2 + 2;
                    } else {
                        proof {
                            if sv.len() > 1 {
                                assert(sv[1] == bytes@[c2 + 1]);
                            }
                            assert(scan_value(sv) == (Seq::<u8>::empty(), 1int));
                            assert(value@ + scan_value(sv).0 =~= value@);
                        }
                        c2 = c2 + 1;
                        done = true;
                    }
                } else {
                    proof {
                        assert(sv.skip(1) =~= bytes@.skip(c2 + 1));
                        assert(value@.push(b) + scan_value(bytes@.skip(c2 + 1)).0 =~= value@
                            + scan_value(sv).0);
                    }
                    value.push(b);
                    c2 = c2 + 1;
                }
            }
        }
        let ghost svr = scan_value(after.skip(vstart));
        proof {
            assert(svr.0 == value@);
            assert(svr.1 == c2 - vpos);
        }
        // one field done: align with the specification's step
        let ghost consumed = (ca - cur) + 1 + vstart + svr.1;
        proof {
            assert(consumed == c2 - cur);
            assert(bytes@.skip(cur as int).skip(consumed) =~= bytes@.skip(c2 as int));
        }
        let ghost fv_before = fields_view(fields@);
        fields.push(Field { name, value });
        proof {
            assert(fields_view(fields@) =~= fv_before.push(
                FieldModel {
                    name: bytes@.skip(cur as int).take(ca - cur),
                    value: svr.0,
                },
            ));
            assert forall|rest: (Seq<FieldModel>, int)|
                parse_fields(bytes@.skip(c2 as int)) == Some::<(Seq<FieldModel>, int)>(rest) implies fv_before
                + (seq![
                FieldModel {
                    name: bytes@.skip(cur as int).take(ca - cur),
                    value: svr.0,
                },
            ] + rest.0) =~= fields_view(fields@) + rest.0 by {}
        }
        cur = c2;
    }
    proof {
        assert(parse_fields(bytes@.skip(cur as int)) == Some::<(Seq<FieldModel>, int)>(
            (Seq::<FieldModel>::empty(), 0int),
        ));
        assert(fields_view(fields@) + Seq::<FieldModel>::empty() =~= fields_view(fields@));
    }
    Some((fields, cur))
}

} // verus!
