//! The verified release index: the `SHA256`/`SHA512` field of a
//! clear-signed release document lists `hash size path` lines; this
//! module turns them into (path, size, checksum) records.  SHA-512 is
//! preferred when both fields exist.  Signature verification is the
//! caller's business: only a payload that passed it should be handed
//! in here.

use crate::checksum::{hex_decode, is_hex_byte, wf_hex, Checksum, ChecksumModel};
use crate::version::all_digits;
use crate::ctrl::{
    build_tok_sha256, build_tok_sha512, copy_range, field_value, find_first, lead_ws,
    lemma_find_first_char, lemma_find_first_le, lemma_lead_ws_char, lookup_field, tok_sha256,
    tok_sha512,
};
use crate::paragraph::{fields_view, Field, FieldModel};
use crate::version::{digits_val, lemma_digits_val_prefix_mono, lemma_digits_val_push, pow10};
use vstd::prelude::*;

verus! {

/// One artifact the release index vouches for.
pub struct ReleaseEntry {
    pub path: Vec<u8>,
    pub size: u64,
    pub checksum: Checksum,
}

/// Model of a release entry.
pub struct ReleaseEntryModel {
    pub path: Seq<u8>,
    pub size: nat,
    pub checksum: ChecksumModel,
}

impl View for ReleaseEntry {
    type V = ReleaseEntryModel;

    open spec fn view(&self) -> ReleaseEntryModel {
        ReleaseEntryModel { path: self.path@, size: self.size as nat, checksum: self.checksum@ }
    }
}

impl Clone for ReleaseEntry {
    fn clone(&self) -> (res: Self)
        ensures
            res@ == self@,
    {
        ReleaseEntry { path: self.path.clone(), size: self.size, checksum: self.checksum.clone() }
    }
}

/// One `hash size path` line: the hash a hex string of the field's
/// width, the size a decimal that fits 64 bits, the path everything
/// after the second gap.
pub open spec fn parse_hash_line(line: Seq<u8>, wide: bool) -> Option<ReleaseEntryModel> {
    let h = find_first(line, 0x20);
    if h <= 0 || h >= line.len() {
        None
    } else if !wf_hex(line.take(h), if wide {
        128int
    } else {
        64int
    }) {
        None
    } else {
        let after1 = line.skip(h);
        let rest1 = after1.skip(lead_ws(after1));
        let g = find_first(rest1, 0x20);
        if g <= 0 || g >= rest1.len() {
            None
        } else if !all_digits(rest1.take(g)) || digits_val(rest1.take(g)) > u64::MAX {
            None
        } else {
            let after2 = rest1.skip(g);
            let path = after2.skip(lead_ws(after2));
            if path.len() == 0 {
                None
            } else {
                Some(
                    ReleaseEntryModel {
                        path,
                        size: digits_val(rest1.take(g)),
                        checksum: if wide {
                            ChecksumModel::Sha512(hex_decode(line.take(h)))
                        } else {
                            ChecksumModel::Sha256(hex_decode(line.take(h)))
                        },
                    },
                )
            }
        }
    }
}

/// All lines of a hash field's value; empty lines are skipped, a
/// malformed line spoils the whole field.
pub open spec fn parse_hash_lines(s: Seq<u8>, wide: bool) -> Option<Seq<ReleaseEntryModel>>
    decreases s.len(),
{
    if s.len() == 0 {
        Some(Seq::<ReleaseEntryModel>::empty())
    } else {
        let e = find_first(s, 0x0a);
        let line = s.take(e);
        let rest = if e < s.len() {
            s.skip(e + 1)
        } else {
            Seq::<u8>::empty()
        };
        proof {
            lemma_find_first_le(s, 0x0a);
        }
        if line.len() == 0 {
            parse_hash_lines(rest, wide)
        } else {
            match parse_hash_line(line, wide) {
                Some(entry) => match parse_hash_lines(rest, wide) {
                    Some(es) => Some(seq![entry] + es),
                    None => None,
                },
                None => None,
            }
        }
    }
}

/// A release document gone wrong.
#[derive(Clone, Copy, Debug, PartialEq, Eq, Structural)]
pub enum ReleaseError {
    /// No paragraph carries a SHA256 or SHA512 field.
    NoHashField,
    /// A line of the hash field does not read `hash size path`.
    Malformed,
}

/// The powers of ten framing 64- and 128-bit sizes.
proof fn lemma_pow10_bounds()
    ensures
        pow10(20) > u64::MAX as nat,
        pow10(21) == 10 * pow10(20),
        pow10(21) < u128::MAX as nat,
{
    reveal_with_fuel(pow10, 22);
}

/// Parse a decimal size token.
#[verifier::loop_isolation(false)]
#[verifier::rlimit(100)]
pub fn parse_size_token(tok: &Vec<u8>) -> (r: Option<u64>)
    requires
        tok@.len() > 0,
        all_digits(tok@),
    ensures
        match r {
            Some(v) => digits_val(tok@) == v as nat,
            None => digits_val(tok@) > u64::MAX,
        },
{
    // skip leading zeros
    let n = tok.len();
    let mut z: usize = 0;
    while z < n && tok[z] == 0x30
        invariant
            0 <= z <= n,
            forall|m: int| 0 <= m < z ==> #[trigger] tok@[m] == 0x30,
        decreases n - z,
    {
        z = z + 1;
    }
    proof {
        crate::version::lemma_digits_val_strip_zeros(tok@, z as int);
    }
    if n - z > 20 {
        proof {
            lemma_pow10_bounds();
            let stripped = tok@.skip(z as int);
            assert(all_digits(stripped)) by {
                assert forall|m: int| 0 <= m < stripped.len() implies crate::version::is_digit_byte(
                    #[trigger] stripped[m],
                ) by {
                    assert(crate::version::is_digit_byte(tok@[z + m]));
                }
            }
            assert(stripped[0] != 0x30) by {
                assert(stripped[0] == tok@[z as int]);
            }
            crate::version::lemma_digits_val_lower(stripped);
            crate::version::lemma_pow10_mono(20, (stripped.len() - 1) as nat);
            assert(pow10(20) > u64::MAX as nat);
        }
        return None;
    }
    let mut val: u128 = 0;
    let mut i: usize = z;
    proof {
        assert(tok@.skip(z as int).take(0) =~= Seq::<u8>::empty());
    }
    while i < n
        invariant
            z <= i <= n,
            n - z <= 20,
            val as nat == digits_val(tok@.skip(z as int).take(i - z)),
            (val as nat) < pow10((i - z) as nat),
        decreases n - i,
    {
        let d = tok[i];
        proof {
            let stripped = tok@.skip(z as int);
            assert(stripped.take(i - z + 1) =~= stripped.take(i - z).push(tok@[i as int]));
            assert(all_digits(stripped.take(i - z))) by {
                assert forall|m: int|
                    0 <= m < stripped.take(i - z).len() implies crate::version::is_digit_byte(
                    #[trigger] stripped.take(i - z)[m],
                ) by {
                    assert(crate::version::is_digit_byte(tok@[z + m]));
                }
            }
            assert(crate::version::is_digit_byte(tok@[i as int]));
            lemma_digits_val_push(stripped.take(i - z), tok@[i as int]);
            lemma_pow10_bounds();
            crate::version::lemma_pow10_mono(((i - z) + 1) as nat, 21);
            assert(pow10(((i - z) + 1) as nat) == 10 * pow10((i - z) as nat));
        }
        val = val * 10 + ((d - 0x30) as u128);
        i = i + 1;
    }
    proof {
        assert(tok@.skip(z as int).take(n - z) =~= tok@.skip(z as int));
    }
    if val <= 0xffff_ffff_ffff_ffff {
        Some(val as u64)
    } else {
        None
    }
}

/// Parse one `hash size path` line.
#[verifier::loop_isolation(false)]
#[verifier::rlimit(100)]
fn exec_parse_hash_line(line: &Vec<u8>, wide: bool) -> (r: Option<ReleaseEntry>)
    ensures
        match r {
            Some(entry) => parse_hash_line(line@, wide) == Some(entry@),
            None => parse_hash_line(line@, wide) is None,
        },
{
    let n = line.len();
    // the hash token
    let mut h: usize = 0;
    while h < n && line[h] != 0x20
        invariant
            0 <= h <= n,
            forall|m: int| 0 <= m < h ==> #[trigger] line@[m] != 0x20,
        decreases n - h,
    {
        h = h + 1;
    }
    proof {
        lemma_find_first_char(line@, 0x20, h as int);
    }
    if h == 0 || h >= n {
        return None;
    }
    let hash_tok = copy_range(line, 0, h);
    proof {
        assert(hash_tok@ =~= line@.take(h as int));
    }
    let want: usize = if wide {
        128
    } else {
        64
    };
    if hash_tok.len() != want {
        return None;
    }
    let mut m: usize = 0;
    while m < want
        invariant
            0 <= m <= want,
            want == hash_tok@.len(),
            forall|x: int| 0 <= x < m ==> is_hex_byte(#[trigger] hash_tok@[x]),
        decreases want - m,
    {
        let b = hash_tok[m];
        if !((0x30 <= b && b <= 0x39) || (0x61 <= b && b <= 0x66) || (0x41 <= b && b <= 0x46)) {
            return None;
        }
        m = m + 1;
    }
    // the gap, then the size token
    let mut w1: usize = h;
    while w1 < n && line[w1] == 0x20
        invariant
            h <= w1 <= n,
            forall|m2: int| h <= m2 < w1 ==> #[trigger] line@[m2] == 0x20,
        decreases n - w1,
    {
        w1 = w1 + 1;
    }
    proof {
        let after1 = line@.skip(h as int);
        assert forall|m2: int| 0 <= m2 < w1 - h implies #[trigger] after1[m2] == 0x20 by {
            assert(line@[h + m2] == 0x20);
        }
        if w1 < n {
            assert(after1[w1 - h] == line@[w1 as int]);
        }
        lemma_lead_ws_char(after1, w1 - h as int);
        assert(after1.skip(w1 - h as int) =~= line@.skip(w1 as int));
    }
    let mut g: usize = w1;
    while g < n && line[g] != 0x20
        invariant
            w1 <= g <= n,
            forall|m2: int| w1 <= m2 < g ==> #[trigger] line@[m2] != 0x20,
        decreases n - g,
    {
        g = g + 1;
    }
    proof {
        let rest1 = line@.skip(w1 as int);
        assert forall|m2: int| 0 <= m2 < g - w1 implies #[trigger] rest1[m2] != 0x20 by {
            assert(line@[w1 + m2] != 0x20);
        }
        if g < n {
            assert(rest1[g - w1] == line@[g as int]);
        }
        lemma_find_first_char(rest1, 0x20, g - w1 as int);
    }
    if g == w1 || g >= n {
        return None;
    }
    let size_tok = copy_range(line, w1, g);
    proof {
        assert(size_tok@ =~= line@.skip(w1 as int).take(g - w1 as int));
    }
    let mut m2: usize = 0;
    while m2 < size_tok.len()
        invariant
            0 <= m2 <= size_tok@.len(),
            forall|x: int| 0 <= x < m2 ==> crate::version::is_digit_byte(#[trigger] size_tok@[x]),
        decreases size_tok@.len() - m2,
    {
        let b = size_tok[m2];
        if !(0x30 <= b && b <= 0x39) {
            return None;
        }
        m2 = m2 + 1;
    }
    let size = match parse_size_token(&size_tok) {
        Some(v) => v,
        None => {
            return None;
        },
    };
    // the second gap, then the path
    let mut w2: usize = g;
    while w2 < n && line[w2] == 0x20
        invariant
            g <= w2 <= n,
            forall|m3: int| g <= m3 < w2 ==> #[trigger] line@[m3] == 0x20,
        decreases n - w2,
    {
        w2 = w2 + 1;
    }
    proof {
        let after2 = line@.skip(w1 as int).skip(g - w1 as int);
        assert(after2 =~= line@.skip(g as int));
        assert forall|m3: int| 0 <= m3 < w2 - g implies #[trigger] after2[m3] == 0x20 by {
            assert(line@[g + m3] == 0x20);
        }
        if w2 < n {
            assert(after2[w2 - g] == line@[w2 as int]);
        }
        lemma_lead_ws_char(after2, w2 - g as int);
        assert(after2.skip(w2 - g as int) =~= line@.skip(w2 as int));
    }
    if w2 >= n {
        return None;
    }
    let path = copy_range(line, w2, n);
    proof {
        assert(path@ =~= line@.skip(w2 as int));
    }
    let checksum = if wide {
        Checksum::Sha512(crate::checksum::decode_hex_digits(&hash_tok))
    } else {
        Checksum::Sha256(crate::checksum::decode_hex_digits(&hash_tok))
    };
    Some(ReleaseEntry { path, size, checksum })
}

/// Parse a whole hash field value.
#[verifier::loop_isolation(false)]
pub fn parse_release_field(value: &Vec<u8>, wide: bool) -> (r: Option<Vec<ReleaseEntry>>)
    ensures
        match r {
            Some(es) => parse_hash_lines(value@, wide) == Some(
                es@.map(|_i: int, e: ReleaseEntry| e@),
            ),
            None => parse_hash_lines(value@, wide) is None,
        },
{
    let n = value.len();
    let mut out: Vec<ReleaseEntry> = Vec::new();
    let mut pos: usize = 0;
    proof {
        assert(value@.skip(0) =~= value@);
        assert(out@.map(|_i: int, e: ReleaseEntry| e@) =~= Seq::<ReleaseEntryModel>::empty());
    }
    while pos < n
        invariant
            0 <= pos <= n,
            parse_hash_lines(value@, wide) == (match parse_hash_lines(
                value@.skip(pos as int),
                wide,
            ) {
                Some(es) => Some(out@.map(|_i: int, e: ReleaseEntry| e@) + es),
                None => None::<Seq<ReleaseEntryModel>>,
            }),
        decreases n - pos,
    {
        let ghost s = value@.skip(pos as int);
        // the current line
        let mut e: usize = pos;
        while e < n && value[e] != 0x0a
            invariant
                pos <= e <= n,
                forall|m: int| pos <= m < e ==> #[trigger] value@[m] != 0x0a,
            decreases n - e,
        {
            e = e + 1;
        }
        proof {
            assert forall|m: int| 0 <= m < e - pos implies #[trigger] s[m] != 0x0a by {
                assert(value@[pos + m] != 0x0a);
            }
            if e < n {
                assert(s[e - pos] == value@[e as int]);
            }
            lemma_find_first_char(s, 0x0a, e - pos as int);
            assert(s.take(e - pos as int) =~= value@.subrange(pos as int, e as int));
            if e < n {
                assert(s.skip(e - pos + 1) =~= value@.skip(e + 1));
            }
        }
        let next = if e < n {
            e + 1
        } else {
            n
        };
        proof {
            if e >= n {
                assert(value@.skip(n as int).len() == 0);
            }
        }
        if e > pos {
            let line = copy_range(value, pos, e);
            proof {
                assert(line@ == s.take(e - pos as int));
            }
            match exec_parse_hash_line(&line, wide) {
                Some(entry) => {
                    let ghost entm = entry@;
                    let ghost before = out@;
                    out.push(entry);
                    proof {
                        assert(parse_hash_line(s.take(e - pos as int), wide) == Some(entm));
                        assert(parse_hash_lines(s, wide) == (match parse_hash_lines(
                            value@.skip(next as int),
                            wide,
                        ) {
                            Some(es) => Some(seq![entm] + es),
                            None => None::<Seq<ReleaseEntryModel>>,
                        })) by {
                            if e >= n {
                                assert(value@.skip(next as int) =~= Seq::<u8>::empty());
                            }
                        }
                        assert(out@.map(|_i: int, e2: ReleaseEntry| e2@) =~= before.map(
                            |_i: int, e2: ReleaseEntry| e2@,
                        ).push(entm));
                        assert forall|es: Seq<ReleaseEntryModel>| true implies before.map(
                            |_i: int, e2: ReleaseEntry| e2@,
                        ) + (seq![entm] + es) =~= out@.map(
                            |_i: int, e2: ReleaseEntry| e2@,
                        ) + es by {}
                    }
                },
                None => {
                    proof {
                        assert(parse_hash_lines(s, wide) is None);
                    }
                    return None;
                },
            }
        } else {
            proof {
                assert(parse_hash_lines(s, wide) == parse_hash_lines(
                    value@.skip(next as int),
                    wide,
                )) by {
                    assert(s.take(0) =~= Seq::<u8>::empty());
                    if e >= n {
                        assert(value@.skip(next as int) =~= Seq::<u8>::empty());
                    }
                }
            }
        }
        pos = next;
    }
    proof {
        assert(value@.skip(n as int).len() == 0);
        assert(out@.map(|_i: int, e2: ReleaseEntry| e2@) + Seq::<ReleaseEntryModel>::empty()
            =~= out@.map(|_i: int, e2: ReleaseEntry| e2@));
    }
    Some(out)
}

/// Index of the first paragraph carrying a hash field.
pub open spec fn first_hash_para(ps: Seq<Seq<FieldModel>>) -> int
    decreases ps.len(),
{
    if ps.len() == 0 {
        0
    } else if field_value(ps[0], tok_sha512()) is Some || field_value(ps[0], tok_sha256())
        is Some {
        0
    } else {
        1 + first_hash_para(ps.skip(1))
    }
}

/// What the whole release payload yields: the entries of the first
/// paragraph with a hash field, SHA-512 preferred.
pub open spec fn spec_parse_inrelease(ps: Seq<Seq<FieldModel>>) -> Result<
    Seq<ReleaseEntryModel>,
    ReleaseError,
> {
    let i = first_hash_para(ps);
    if i >= ps.len() {
        Err(ReleaseError::NoHashField)
    } else {
        let fs = ps[i];
        let parsed = match field_value(fs, tok_sha512()) {
            Option::Some(v) => parse_hash_lines(v, true),
            Option::None => parse_hash_lines(field_value(fs, tok_sha256()).unwrap(), false),
        };
        match parsed {
            Option::Some(es) => Ok(es),
            Option::None => Err(ReleaseError::Malformed),
        }
    }
}

/// Read the artifact list out of a verified release payload.
#[verifier::loop_isolation(false)]
pub fn parse_inrelease(paragraphs: &Vec<Vec<Field>>) -> (r: Result<Vec<ReleaseEntry>, ReleaseError>)
    ensures
        match r {
            Ok(es) => spec_parse_inrelease(
                paragraphs@.map(|_i: int, p: Vec<Field>| fields_view(p@)),
            ) == Ok::<Seq<ReleaseEntryModel>, ReleaseError>(
                es@.map(|_i: int, e: ReleaseEntry| e@),
            ),
            Err(e) => spec_parse_inrelease(
                paragraphs@.map(|_i: int, p: Vec<Field>| fields_view(p@)),
            ) == Err::<Seq<ReleaseEntryModel>, ReleaseError>(e),
        },
{
    let ghost ps = paragraphs@.map(|_i: int, p: Vec<Field>| fields_view(p@));
    let n = paragraphs.len();
    let mut i: usize = 0;
    proof {
        assert(ps.skip(0) =~= ps);
    }
    while i < n
        invariant
            0 <= i <= n,
            n == ps.len(),
            first_hash_para(ps) == i + first_hash_para(ps.skip(i as int)),
        decreases n - i,
    {
        let ghost rest = ps.skip(i as int);
        proof {
            assert(rest[0] == ps[i as int]);
            assert(rest.skip(1) =~= ps.skip(i + 1));
        }
        let wide_val = lookup_field(&paragraphs[i], &build_tok_sha512());
        let narrow_val = lookup_field(&paragraphs[i], &build_tok_sha256());
        match wide_val {
            Some(v) => {
                proof {
                    assert(first_hash_para(ps) == i);
                }
                match parse_release_field(&v, true) {
                    Some(es) => {
                        return Ok(es);
                    },
                    None => {
                        return Err(ReleaseError::Malformed);
                    },
                }
            },
            None => {
                match narrow_val {
                    Some(v) => {
                        proof {
                            assert(first_hash_para(ps) == i);
                        }
                        match parse_release_field(&v, false) {
                            Some(es) => {
                                return Ok(es);
                            },
                            None => {
                                return Err(ReleaseError::Malformed);
                            },
                        }
                    },
                    None => {},
                }
            },
        }
        i = i + 1;
    }
    proof {
        assert(ps.skip(n as int).len() == 0);
        assert(first_hash_para(ps) == n);
    }
    Err(ReleaseError::NoHashField)
}

} // verus!
