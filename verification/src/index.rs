//! The package-index importer: paragraphs of a decompressed `Packages`
//! catalog become pool records.  A paragraph missing a required field
//! is skipped (the catalog's quality degrades, nothing corrupts); the
//! pool refuses a second record with the same name and version.

use crate::checksum::{checksum_from_hex_bytes, hex_decode, wf_hex, Checksum, ChecksumModel};
use crate::ctrl::{
    build_tok_breaks, build_tok_conflicts, build_tok_depends, build_tok_description,
    build_tok_essential, build_tok_filename, build_tok_installed_size, build_tok_package,
    build_tok_provides, build_tok_recommends, build_tok_replaces, build_tok_section,
    build_tok_sha256, build_tok_sha512, build_tok_size, build_tok_suggests, build_tok_version,
    build_tok_yes, bytes_eq, exec_trim_ws, field_value, find_first, lemma_find_first_char,
    lemma_find_first_le, lookup_field, tok_breaks, tok_conflicts, tok_depends, tok_description,
    tok_essential, tok_filename, tok_installed_size, tok_package, tok_provides, tok_recommends,
    tok_replaces, tok_section, tok_sha256, tok_sha512, tok_size, tok_suggests, tok_version,
    tok_yes, trim_ws,
};
use crate::paragraph::{fields_view, Field, FieldModel};
use crate::pool::{PackagePool, PkgMeta, PkgMetaModel, PkgSource};
use crate::release::parse_size_token;
use crate::text::{all_ascii, ascii_to_string, bytes_as_chars};
use crate::version::{
    all_digits, digits_val, req_within, spec_parse_version, version_cmp, version_compare,
    PkgVersion, ReqModel, VersionModel, VersionRequirement,
};
use vstd::prelude::*;
use vstd::string::StringSliceAdditionalSpecFns;

verus! {

/// An ASCII text field's characters, or nothing when a byte is not
/// ASCII.
pub open spec fn spec_ascii_field(v: Seq<u8>) -> Option<Seq<char>> {
    if all_ascii(v) {
        Some(bytes_as_chars(v))
    } else {
        None
    }
}

/// A text field's characters, or nothing when the bytes are not valid
/// UTF-8.
pub open spec fn spec_text_field(v: Seq<u8>) -> Option<Seq<char>> {
    if vstd::utf8::valid_utf8(v) {
        Some(vstd::utf8::decode_utf8(v))
    } else {
        None
    }
}

/// Convert an ASCII value to text.
#[verifier::loop_isolation(false)]
fn ascii_field(v: &Vec<u8>) -> (r: Option<String>)
    ensures
        match r {
            Some(s) => spec_ascii_field(v@) == Some(s@),
            None => spec_ascii_field(v@) is None,
        },
{
    let n = v.len();
    let mut i: usize = 0;
    while i < n
        invariant
            0 <= i <= n,
            forall|m: int| 0 <= m < i ==> #[trigger] v@[m] < 0x80,
        decreases n - i,
    {
        if v[i] >= 0x80 {
            proof {
                assert(!all_ascii(v@));
            }
            return None;
        }
        i = i + 1;
    }
    Some(ascii_to_string(v))
}

/// A decimal size field's value, or nothing when malformed or too
/// large.
pub open spec fn spec_size_field(v: Seq<u8>) -> Option<nat> {
    if v.len() > 0 && all_digits(v) && digits_val(v) <= u64::MAX {
        Some(digits_val(v))
    } else {
        None
    }
}

/// Parse a decimal size field.
#[verifier::loop_isolation(false)]
pub fn size_field(v: &Vec<u8>) -> (r: Option<u64>)
    ensures
        match r {
            Some(n) => spec_size_field(v@) == Some(n as nat),
            None => spec_size_field(v@) is None,
        },
{
    if v.len() == 0 {
        return None;
    }
    let n = v.len();
    let mut i: usize = 0;
    while i < n
        invariant
            0 <= i <= n,
            forall|m: int| 0 <= m < i ==> crate::version::is_digit_byte(#[trigger] v@[m]),
        decreases n - i,
    {
        let b = v[i];
        if !(0x30 <= b && b <= 0x39) {
            return None;
        }
        i = i + 1;
    }
    parse_size_token(v)
}

/// A version range written `op version`: `<<`, `<=`, `=`, `>=`, `>>`
/// (and the old bare `<` and `>` for `<=` and `>=`).
pub open spec fn spec_parse_constraint(c: Seq<u8>) -> Option<ReqModel> {
    if c.len() == 0 {
        None
    } else {
        let two = c.len() >= 2 && (c[1] == 0x3c || c[1] == 0x3d || c[1] == 0x3e);
        let oplen: int = if two {
            2
        } else {
            1
        };
        let vm = spec_parse_version(trim_ws(c.skip(oplen)));
        if vm is None {
            None
        } else {
            let v = vm.unwrap();
            if two && c[0] == 0x3c && c[1] == 0x3c {
                Some(ReqModel { lower: None, upper: Some((v, false)) })
            } else if two && c[0] == 0x3c && c[1] == 0x3d {
                Some(ReqModel { lower: None, upper: Some((v, true)) })
            } else if two && c[0] == 0x3e && c[1] == 0x3d {
                Some(ReqModel { lower: Some((v, true)), upper: None })
            } else if two && c[0] == 0x3e && c[1] == 0x3e {
                Some(ReqModel { lower: Some((v, false)), upper: None })
            } else if !two && c[0] == 0x3c {
                Some(ReqModel { lower: None, upper: Some((v, true)) })
            } else if !two && c[0] == 0x3e {
                Some(ReqModel { lower: Some((v, true)), upper: None })
            } else if !two && c[0] == 0x3d {
                Some(ReqModel { lower: Some((v, true)), upper: Some((v, true)) })
            } else {
                None
            }
        }
    }
}

/// Parse the `op version` inside a relationship constraint.
pub fn parse_constraint(c: &Vec<u8>) -> (r: Option<VersionRequirement>)
    ensures
        match r {
            Some(req) => spec_parse_constraint(c@) == Some(req@),
            None => spec_parse_constraint(c@) is None,
        },
{
    if c.len() == 0 {
        return None;
    }
    let two = c.len() >= 2 && (c[1] == 0x3c || c[1] == 0x3d || c[1] == 0x3e);
    let oplen: usize = if two {
        2
    } else {
        1
    };
    let vtail = crate::ctrl::copy_range(c, oplen, c.len());
    proof {
        assert(vtail@ =~= c@.skip(oplen as int));
    }
    let vtok = exec_trim_ws(&vtail);
    let v = match PkgVersion::parse_bytes(&vtok) {
        Ok(v) => v,
        Err(_) => {
            return None;
        },
    };
    let b0 = c[0];
    if two && b0 == 0x3c && c[1] == 0x3c {
        Some(VersionRequirement { lower_bond: None, upper_bond: Some((v, false)) })
    } else if two && b0 == 0x3c && c[1] == 0x3d {
        Some(VersionRequirement { lower_bond: None, upper_bond: Some((v, true)) })
    } else if two && b0 == 0x3e && c[1] == 0x3d {
        Some(VersionRequirement { lower_bond: Some((v, true)), upper_bond: None })
    } else if two && b0 == 0x3e && c[1] == 0x3e {
        Some(VersionRequirement { lower_bond: Some((v, false)), upper_bond: None })
    } else if !two && b0 == 0x3c {
        Some(VersionRequirement { lower_bond: None, upper_bond: Some((v, true)) })
    } else if !two && b0 == 0x3e {
        Some(VersionRequirement { lower_bond: Some((v, true)), upper_bond: None })
    } else if !two && b0 == 0x3d {
        let v2 = v.clone();
        proof {
            assert(v2@ == v@);
        }
        Some(VersionRequirement { lower_bond: Some((v, true)), upper_bond: Some((v2, true)) })
    } else {
        None
    }
}

/// One relationship item: its first `|`-alternative, as a name and an
/// optional parenthesised constraint.  Alternatives beyond the first
/// are dropped: the encoder keeps to the first, documented choice.
pub open spec fn spec_parse_rel_entry(item: Seq<u8>) -> Option<(Seq<char>, ReqModel)> {
    let alt = trim_ws(item.take(find_first(item, 0x7c)));
    let nend = if find_first(alt, 0x20) < find_first(alt, 0x28) {
        find_first(alt, 0x20)
    } else {
        find_first(alt, 0x28)
    };
    if alt.len() == 0 || nend == 0 {
        None
    } else if !all_ascii(alt.take(nend)) {
        None
    } else {
        let name = bytes_as_chars(alt.take(nend));
        let rest = trim_ws(alt.skip(nend));
        if rest.len() == 0 {
            Some((name, ReqModel { lower: None, upper: None }))
        } else if rest.len() >= 2 && rest[0] == 0x28 && rest.last() == 0x29 {
            match spec_parse_constraint(trim_ws(rest.subrange(1, rest.len() - 1))) {
                Some(req) => Some((name, req)),
                None => None,
            }
        } else {
            None
        }
    }
}

/// Parse one relationship item.
#[verifier::loop_isolation(false)]
#[verifier::rlimit(100)]
fn parse_rel_entry(item: &Vec<u8>) -> (r: Option<(String, VersionRequirement)>)
    ensures
        match r {
            Some(e) => spec_parse_rel_entry(item@) == Some((e.0@, e.1@)),
            None => spec_parse_rel_entry(item@) is None,
        },
{
    let n = item.len();
    // first alternative
    let mut p: usize = 0;
    while p < n && item[p] != 0x7c
        invariant
            0 <= p <= n,
            forall|m: int| 0 <= m < p ==> #[trigger] item@[m] != 0x7c,
        decreases n - p,
    {
        p = p + 1;
    }
    proof {
        lemma_find_first_char(item@, 0x7c, p as int);
        assert(item@.take(p as int) =~= item@.subrange(0, p as int));
    }
    let first_alt = crate::ctrl::copy_range(item, 0, p);
    let alt = exec_trim_ws(&first_alt);
    // the name runs to the first space or parenthesis
    let an = alt.len();
    let mut ne: usize = 0;
    while ne < an && alt[ne] != 0x20 && alt[ne] != 0x28
        invariant
            0 <= ne <= an,
            forall|m: int| 0 <= m < ne ==> #[trigger] alt@[m] != 0x20 && alt@[m] != 0x28,
        decreases an - ne,
    {
        ne = ne + 1;
    }
    proof {
        if ne < an {
            if alt@[ne as int] == 0x20 {
                lemma_find_first_char(alt@, 0x20, ne as int);
                crate::ctrl::lemma_find_first_le(alt@, 0x28);
                assert(find_first(alt@, 0x20) <= find_first(alt@, 0x28) ==> find_first(
                    alt@,
                    0x20,
                ) == ne);
                if find_first(alt@, 0x28) < ne {
                    assert(alt@[find_first(alt@, 0x28)] != 0x28) by {
                        crate::ctrl::lemma_find_first_le(alt@, 0x28);
                    }
                }
            } else {
                lemma_find_first_char(alt@, 0x28, ne as int);
            }
        } else {
            lemma_find_first_char(alt@, 0x20, an as int);
            lemma_find_first_char(alt@, 0x28, an as int);
        }
    }
    // establish that ne equals the specification's name end
    proof {
        let s20 = find_first(alt@, 0x20);
        let s28 = find_first(alt@, 0x28);
        crate::ctrl::lemma_find_first_le(alt@, 0x20);
        crate::ctrl::lemma_find_first_le(alt@, 0x28);
        crate::ctrl::lemma_find_first_found(alt@, 0x20);
        crate::ctrl::lemma_find_first_found(alt@, 0x28);
        let nend = if s20 < s28 {
            s20
        } else {
            s28
        };
        assert(nend == ne) by {
            if nend < ne {
                if s20 < s28 {
                    assert(alt@[s20] == 0x20);
                    assert(alt@[s20] != 0x20);
                } else {
                    assert(alt@[s28] == 0x28);
                    assert(alt@[s28] != 0x28);
                }
            } else if nend > ne {
                assert(ne < an);
                if alt@[ne as int] == 0x20 {
                    assert(s20 <= ne);
                } else {
                    assert(s28 <= ne);
                }
            }
        }
    }
    if alt.len() == 0 || ne == 0 {
        return None;
    }
    let name_bytes = crate::ctrl::copy_range(&alt, 0, ne);
    proof {
        assert(name_bytes@ =~= alt@.take(ne as int));
    }
    let name = match ascii_field(&name_bytes) {
        Some(s) => s,
        None => {
            return None;
        },
    };
    let tail = crate::ctrl::copy_range(&alt, ne, alt.len());
    proof {
        assert(tail@ =~= alt@.skip(ne as int));
    }
    let rest = exec_trim_ws(&tail);
    if rest.len() == 0 {
        return Some((name, VersionRequirement { lower_bond: None, upper_bond: None }));
    }
    if rest.len() >= 2 && rest[0] == 0x28 && rest[rest.len() - 1] == 0x29 {
        let inner = crate::ctrl::copy_range(&rest, 1, rest.len() - 1);
        proof {
            assert(inner@ =~= rest@.subrange(1, rest@.len() - 1));
            assert(rest@.last() == rest@[rest@.len() - 1]);
        }
        let ctok = exec_trim_ws(&inner);
        match parse_constraint(&ctok) {
            Some(req) => Some((name, req)),
            None => None,
        }
    } else {
        None
    }
}

/// A whole relationship list: comma-separated items.
pub open spec fn spec_parse_rel_list(s: Seq<u8>) -> Option<Seq<(Seq<char>, ReqModel)>>
    decreases s.len(),
{
    if trim_ws(s).len() == 0 {
        Some(Seq::<(Seq<char>, ReqModel)>::empty())
    } else {
        let c = find_first(s, 0x2c);
        proof {
            lemma_find_first_le(s, 0x2c);
        }
        match spec_parse_rel_entry(s.take(c)) {
            Some(e) => {
                if c >= s.len() {
                    Some(seq![e])
                } else {
                    match spec_parse_rel_list(s.skip(c + 1)) {
                        Some(rest) => Some(seq![e] + rest),
                        None => None,
                    }
                }
            },
            None => None,
        }
    }
}

/// Parse a relationship list field.
#[verifier::loop_isolation(false)]
pub fn parse_rel_list(s: &Vec<u8>) -> (r: Option<Vec<(String, VersionRequirement)>>)
    ensures
        match r {
            Some(es) => spec_parse_rel_list(s@) == Some(crate::pool::rel_view(es@)),
            None => spec_parse_rel_list(s@) is None,
        },
    decreases s@.len(),
{
    let t = exec_trim_ws(s);
    if t.len() == 0 {
        let out: Vec<(String, VersionRequirement)> = Vec::new();
        proof {
            assert(crate::pool::rel_view(out@) =~= Seq::<(Seq<char>, ReqModel)>::empty());
        }
        return Some(out);
    }
    let n = s.len();
    let mut c: usize = 0;
    while c < n && s[c] != 0x2c
        invariant
            0 <= c <= n,
            forall|m: int| 0 <= m < c ==> #[trigger] s@[m] != 0x2c,
        decreases n - c,
    {
        c = c + 1;
    }
    proof {
        lemma_find_first_char(s@, 0x2c, c as int);
    }
    let item = crate::ctrl::copy_range(s, 0, c);
    proof {
        assert(item@ =~= s@.take(c as int));
    }
    let e = match parse_rel_entry(&item) {
        Some(e) => e,
        None => {
            return None;
        },
    };
    if c >= n {
        let mut out: Vec<(String, VersionRequirement)> = Vec::new();
        let ghost em = (e.0@, e.1@);
        out.push(e);
        proof {
            assert(crate::pool::rel_view(out@) =~= seq![em]);
        }
        return Some(out);
    }
    let rest_bytes = crate::ctrl::copy_range(s, c + 1, n);
    proof {
        assert(rest_bytes@ =~= s@.skip(c + 1));
    }
    match parse_rel_list(&rest_bytes) {
        Some(mut rest) => {
            let ghost em = (e.0@, e.1@);
            let ghost restm = crate::pool::rel_view(rest@);
            let mut out: Vec<(String, VersionRequirement)> = Vec::new();
            out.push(e);
            out.append(&mut rest);
            proof {
                assert(crate::pool::rel_view(out@) =~= seq![em] + restm);
            }
            Some(out)
        },
        None => None,
    }
}

/// A relationship field: absent means no entries, malformed spoils the
/// paragraph.
pub open spec fn spec_rel_field(fs: Seq<FieldModel>, tok: Seq<u8>) -> Option<
    Seq<(Seq<char>, ReqModel)>,
> {
    match field_value(fs, tok) {
        Option::None => Some(Seq::<(Seq<char>, ReqModel)>::empty()),
        Option::Some(v) => spec_parse_rel_list(v),
    }
}

/// An optional relationship field: absent stays absent.
pub open spec fn spec_opt_rel_field(fs: Seq<FieldModel>, tok: Seq<u8>) -> Option<
    Option<Seq<(Seq<char>, ReqModel)>>,
> {
    match field_value(fs, tok) {
        Option::None => Some(Option::<Seq<(Seq<char>, ReqModel)>>::None),
        Option::Some(v) => match spec_parse_rel_list(v) {
            Option::Some(l) => Some(Option::Some(l)),
            Option::None => None,
        },
    }
}

/// What one catalog paragraph describes, or nothing when a required
/// field is missing or malformed.
pub open spec fn spec_meta_of(fs: Seq<FieldModel>, baseurl: Seq<char>) -> Option<PkgMetaModel> {
    let name = spec_text_req(fs, tok_package());
    let section = spec_text_req(fs, tok_section());
    let description = spec_text_req(fs, tok_description());
    let filename = spec_text_req(fs, tok_filename());
    let version = spec_version_req(fs);
    let inst_size = spec_size_req(fs, tok_installed_size());
    let dl_size = spec_size_req(fs, tok_size());
    let checksum = spec_checksum_req(fs);
    let depends = spec_rel_field(fs, tok_depends());
    let breaks = spec_rel_field(fs, tok_breaks());
    let conflicts = spec_rel_field(fs, tok_conflicts());
    let recomm = spec_opt_rel_field(fs, tok_recommends());
    let suggests = spec_opt_rel_field(fs, tok_suggests());
    let provides = spec_opt_rel_field(fs, tok_provides());
    let replaces = spec_opt_rel_field(fs, tok_replaces());
    if name is None || section is None || description is None || filename is None || version
        is None || inst_size is None || dl_size is None || checksum is None || depends is None
        || breaks is None || conflicts is None || recomm is None || suggests is None
        || provides is None || replaces is None {
        None
    } else {
        Some(
            PkgMetaModel {
                name: name.unwrap(),
                section: section.unwrap(),
                description: description.unwrap(),
                version: version.unwrap(),
                depends: depends.unwrap(),
                breaks: breaks.unwrap(),
                conflicts: conflicts.unwrap(),
                recommends: recomm.unwrap(),
                suggests: suggests.unwrap(),
                provides: provides.unwrap(),
                replaces: replaces.unwrap(),
                install_size: inst_size.unwrap(),
                essential: field_value(fs, tok_essential()) == Some(tok_yes()),
                source: crate::pool::SourceModel::Http(
                    baseurl + "/"@ + filename.unwrap(),
                    dl_size.unwrap(),
                    checksum.unwrap(),
                ),
            },
        )
    }
}

/// A required text field, decoded as UTF-8.
pub open spec fn spec_text_req(fs: Seq<FieldModel>, tok: Seq<u8>) -> Option<Seq<char>> {
    match field_value(fs, tok) {
        Option::Some(v) => spec_text_field(v),
        Option::None => None,
    }
}

/// The required version field.
pub open spec fn spec_version_req(fs: Seq<FieldModel>) -> Option<VersionModel> {
    match field_value(fs, tok_version()) {
        Option::Some(v) => spec_parse_version(v),
        Option::None => None,
    }
}

/// A required decimal size field.
pub open spec fn spec_size_req(fs: Seq<FieldModel>, tok: Seq<u8>) -> Option<nat> {
    match field_value(fs, tok) {
        Option::Some(v) => spec_size_field(v),
        Option::None => None,
    }
}

/// The required checksum: the SHA256 field, or failing that SHA512.
pub open spec fn spec_checksum_req(fs: Seq<FieldModel>) -> Option<ChecksumModel> {
    match field_value(fs, tok_sha256()) {
        Option::Some(v) => if wf_hex(v, 64) {
            Some(ChecksumModel::Sha256(hex_decode(v)))
        } else {
            None
        },
        Option::None => match field_value(fs, tok_sha512()) {
            Option::Some(v) => if wf_hex(v, 128) {
                Some(ChecksumModel::Sha512(hex_decode(v)))
            } else {
                None
            },
            Option::None => None,
        },
    }
}

fn text_req(fields: &Vec<Field>, tok: &Vec<u8>) -> (r: Option<String>)
    ensures
        match r {
            Some(s) => spec_text_req(fields_view(fields@), tok@) == Some(s@),
            None => spec_text_req(fields_view(fields@), tok@) is None,
        },
{
    match lookup_field(fields, tok) {
        Some(v) => crate::text::utf8_to_string(&v),
        None => None,
    }
}

fn rel_field(fields: &Vec<Field>, tok: &Vec<u8>) -> (r: Option<Vec<(String, VersionRequirement)>>)
    ensures
        match r {
            Some(es) => spec_rel_field(fields_view(fields@), tok@) == Some(
                crate::pool::rel_view(es@),
            ),
            None => spec_rel_field(fields_view(fields@), tok@) is None,
        },
{
    match lookup_field(fields, tok) {
        Some(v) => parse_rel_list(&v),
        None => {
            let out: Vec<(String, VersionRequirement)> = Vec::new();
            proof {
                assert(crate::pool::rel_view(out@) =~= Seq::<(Seq<char>, ReqModel)>::empty());
            }
            Some(out)
        },
    }
}

fn opt_rel_field(fields: &Vec<Field>, tok: &Vec<u8>) -> (r: Option<
    Option<Vec<(String, VersionRequirement)>>,
>)
    ensures
        match r {
            Some(es) => spec_opt_rel_field(fields_view(fields@), tok@) == Some(
                crate::pool::opt_rel_view(es),
            ),
            None => spec_opt_rel_field(fields_view(fields@), tok@) is None,
        },
{
    match lookup_field(fields, tok) {
        Some(v) => match parse_rel_list(&v) {
            Some(l) => Some(Some(l)),
            None => None,
        },
        None => Some(None),
    }
}

/// Turn one catalog paragraph into a pool record; the artifact URL is
/// the catalog's base URL joined with the paragraph's file name.
#[verifier::rlimit(100)]
pub fn fields_to_packagemeta(fields: &Vec<Field>, baseurl: &str) -> (r: Option<PkgMeta>)
    ensures
        match r {
            Some(m) => spec_meta_of(fields_view(fields@), baseurl@) == Some(m@),
            None => spec_meta_of(fields_view(fields@), baseurl@) is None,
        },
{
    let name = match text_req(fields, &build_tok_package()) {
        Some(s) => s,
        None => {
            return None;
        },
    };
    let section = match text_req(fields, &build_tok_section()) {
        Some(s) => s,
        None => {
            return None;
        },
    };
    let description = match text_req(fields, &build_tok_description()) {
        Some(s) => s,
        None => {
            return None;
        },
    };
    let filename = match text_req(fields, &build_tok_filename()) {
        Some(s) => s,
        None => {
            return None;
        },
    };
    let version = match lookup_field(fields, &build_tok_version()) {
        Some(v) => match PkgVersion::parse_bytes(&v) {
            Ok(ver) => ver,
            Err(_) => {
                return None;
            },
        },
        None => {
            return None;
        },
    };
    let install_size = match lookup_field(fields, &build_tok_installed_size()) {
        Some(v) => match size_field(&v) {
            Some(n) => n,
            None => {
                return None;
            },
        },
        None => {
            return None;
        },
    };
    let dl_size = match lookup_field(fields, &build_tok_size()) {
        Some(v) => match size_field(&v) {
            Some(n) => n,
            None => {
                return None;
            },
        },
        None => {
            return None;
        },
    };
    let checksum = match lookup_field(fields, &build_tok_sha256()) {
        Some(v) => match checksum_from_hex_bytes(&v, false) {
            Some(c) => c,
            None => {
                return None;
            },
        },
        None => match lookup_field(fields, &build_tok_sha512()) {
            Some(v) => match checksum_from_hex_bytes(&v, true) {
                Some(c) => c,
                None => {
                    return None;
                },
            },
            None => {
                return None;
            },
        },
    };
    let depends = match rel_field(fields, &build_tok_depends()) {
        Some(l) => l,
        None => {
            return None;
        },
    };
    let breaks = match rel_field(fields, &build_tok_breaks()) {
        Some(l) => l,
        None => {
            return None;
        },
    };
    let conflicts = match rel_field(fields, &build_tok_conflicts()) {
        Some(l) => l,
        None => {
            return None;
        },
    };
    let recomm = match opt_rel_field(fields, &build_tok_recommends()) {
        Some(l) => l,
        None => {
            return None;
        },
    };
    let suggests = match opt_rel_field(fields, &build_tok_suggests()) {
        Some(l) => l,
        None => {
            return None;
        },
    };
    let provides = match opt_rel_field(fields, &build_tok_provides()) {
        Some(l) => l,
        None => {
            return None;
        },
    };
    let replaces = match opt_rel_field(fields, &build_tok_replaces()) {
        Some(l) => l,
        None => {
            return None;
        },
    };
    let essential = match lookup_field(fields, &build_tok_essential()) {
        Some(v) => bytes_eq(&v, &build_tok_yes()),
        None => false,
    };
    let mut url = String::new();
    url.append(baseurl);
    url.append("/");
    url.append(filename.as_str());
    let source = PkgSource::Http(url, dl_size, checksum);
    Some(
        PkgMeta {
            name,
            section,
            description,
            version,
            depends,
            breaks,
            conflicts,
            recommends: recomm,
            suggests,
            provides,
            replaces,
            install_size,
            essential,
            source,
        },
    )
}

/// The pool already holds this name at this exact version.
pub open spec fn pool_has_exact(pkgs: Seq<PkgMetaModel>, m: PkgMetaModel) -> bool {
    exists|k: int|
        0 <= k < pkgs.len() && #[trigger] pkgs[k].name == m.name && version_cmp(
            pkgs[k].version,
            m.version,
        ) == 0
}

/// The pool records after importing the given paragraphs in order:
/// malformed paragraphs are skipped, as is any record whose name and
/// exact version are already present.
pub open spec fn spec_import(
    pkgs: Seq<PkgMetaModel>,
    ps: Seq<Seq<FieldModel>>,
    baseurl: Seq<char>,
) -> Seq<PkgMetaModel>
    decreases ps.len(),
{
    if ps.len() == 0 {
        pkgs
    } else {
        match spec_meta_of(ps[0], baseurl) {
            Option::Some(m) => if pool_has_exact(pkgs, m) {
                spec_import(pkgs, ps.skip(1), baseurl)
            } else {
                spec_import(pkgs.push(m), ps.skip(1), baseurl)
            },
            Option::None => spec_import(pkgs, ps.skip(1), baseurl),
        }
    }
}

/// Does the pool hold this name at this exact version?
#[verifier::loop_isolation(false)]
fn exec_pool_has_exact(pool: &PackagePool, meta: &PkgMeta) -> (r: bool)
    requires
        pool.wf(),
    ensures
        r == pool_has_exact(pool@.pkgs, meta@),
{
    let pool_n = pool.len();
    let ids = pool.pkg_name_to_ids(meta.name.as_str());
    let n = ids.len();
    let mut k: usize = 0;
    while k < n
        invariant
            0 <= k <= n,
            forall|j: int|
                0 <= j < k ==> version_cmp(
                    crate::pool::id_of(pool@, #[trigger] ids@[j].0 as int).version,
                    meta@.version,
                ) != 0,
        decreases n - k,
    {
        if version_compare(&ids[k].1, &meta.version) == 0 {
            proof {
                assert(crate::pool::valid_id(pool@, ids@[k as int].0 as int));
                assert(crate::pool::id_of(pool@, ids@[k as int].0 as int).name == meta@.name);
            }
            return true;
        }
        k = k + 1;
    }
    proof {
        assert forall|j: int|
            0 <= j < pool@.pkgs.len() && #[trigger] pool@.pkgs[j].name == meta@.name implies version_cmp(
            pool@.pkgs[j].version,
            meta@.version,
        ) != 0 by {
            assert(pool@.pkgs.len() == pool_n as int);
            assert(exists|w: int| 0 <= w < ids@.len() && #[trigger] ids@[w].0 == (j + 1) as usize);
            let w = choose|w: int| 0 <= w < ids@.len() && #[trigger] ids@[w].0 == (j + 1) as usize;
            assert(crate::pool::id_of(pool@, ids@[w].0 as int).version == pool@.pkgs[j].version);
        }
    }
    false
}

/// Import a whole parsed catalog into the pool; the returned count is
/// the number of records the pool grew by.
#[verifier::loop_isolation(false)]
pub fn import(paragraphs: &Vec<Vec<Field>>, pool: &mut PackagePool, baseurl: &str) -> (count:
    usize)
    requires
        old(pool).wf(),
        old(pool)@.pkgs.len() + paragraphs@.len() < usize::MAX,
    ensures
        final(pool).wf(),
        final(pool)@.pkgs == spec_import(
            old(pool)@.pkgs,
            paragraphs@.map(|_i: int, p: Vec<Field>| fields_view(p@)),
            baseurl@,
        ),
        final(pool)@.pkgs.len() <= old(pool)@.pkgs.len() + paragraphs@.len(),
        count == final(pool)@.pkgs.len() - old(pool)@.pkgs.len(),
{
    let ghost ps = paragraphs@.map(|_i: int, p: Vec<Field>| fields_view(p@));
    let n = paragraphs.len();
    let mut i: usize = 0;
    let mut count: usize = 0;
    proof {
        assert(ps.skip(0) =~= ps);
    }
    while i < n
        invariant
            0 <= i <= n,
            pool.wf(),
            pool@.pkgs.len() <= old(pool)@.pkgs.len() + i,
            count == pool@.pkgs.len() - old(pool)@.pkgs.len(),
            spec_import(old(pool)@.pkgs, ps, baseurl@) == spec_import(
                pool@.pkgs,
                ps.skip(i as int),
                baseurl@,
            ),
        decreases n - i,
    {
        proof {
            assert(ps.skip(i as int)[0] == ps[i as int]);
            assert(ps.skip(i as int).skip(1) =~= ps.skip(i + 1));
        }
        match fields_to_packagemeta(&paragraphs[i], baseurl) {
            Some(meta) => {
                if !exec_pool_has_exact(pool, &meta) {
                    let ghost mm = meta@;
                    let _ = pool.add(meta);
                    count = count + 1;
                }
            },
            None => {},
        }
        i = i + 1;
    }
    proof {
        assert(ps.skip(n as int).len() == 0);
    }
    count
}

} // verus!
