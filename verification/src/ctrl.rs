//! Shared helpers for control data: looking fields up by name and the
//! byte constants for the field names and state words the library reads.

use crate::paragraph::{Field, FieldModel};
use vstd::prelude::*;

verus! {

/// Value of the first field called `name`, if any.
pub open spec fn field_value(fs: Seq<FieldModel>, name: Seq<u8>) -> Option<Seq<u8>>
    decreases fs.len(),
{
    if fs.len() == 0 {
        Option::<Seq<u8>>::None
    } else if fs[0].name == name {
        Option::Some(fs[0].value)
    } else {
        field_value(fs.skip(1), name)
    }
}

/// Index of the first occurrence of `b` in `s`, or `s.len()` when
/// there is none.
pub open spec fn find_first(s: Seq<u8>, b: u8) -> int
    decreases s.len(),
{
    if s.len() == 0 {
        0
    } else if s[0] == b {
        0
    } else {
        1 + find_first(s.skip(1), b)
    }
}

pub proof fn lemma_find_first_le(s: Seq<u8>, b: u8)
    ensures
        0 <= find_first(s, b) <= s.len(),
    decreases s.len(),
{
    if s.len() > 0 && s[0] != b {
        lemma_find_first_le(s.skip(1), b);
    }
}

pub proof fn lemma_find_first_char(s: Seq<u8>, b: u8, k: int)
    requires
        0 <= k <= s.len(),
        forall|i: int| 0 <= i < k ==> #[trigger] s[i] != b,
        k == s.len() || s[k] == b,
    ensures
        find_first(s, b) == k,
    decreases s.len(),
{
    if k > 0 {
        assert(s[0] != b);
        assert forall|i: int| 0 <= i < k - 1 implies #[trigger] s.skip(1)[i] != b by {
            assert(s[i + 1] != b);
        }
        lemma_find_first_char(s.skip(1), b, k - 1);
    }
}

pub proof fn lemma_find_first_found(s: Seq<u8>, b: u8)
    ensures
        find_first(s, b) < s.len() ==> s[find_first(s, b)] == b,
        forall|i: int| 0 <= i < find_first(s, b) ==> #[trigger] s[i] != b,
    decreases s.len(),
{
    if s.len() > 0 && s[0] != b {
        lemma_find_first_found(s.skip(1), b);
        lemma_find_first_le(s.skip(1), b);
        assert(find_first(s, b) == 1 + find_first(s.skip(1), b));
        if find_first(s, b) < s.len() {
            assert(s[find_first(s, b)] == s.skip(1)[find_first(s.skip(1), b)]);
        }
        assert forall|i: int| 0 <= i < find_first(s, b) implies #[trigger] s[i] != b by {
            if i > 0 {
                assert(0 <= i - 1 < find_first(s.skip(1), b));
                assert(s.skip(1)[i - 1] != b);
                assert(s[i] == s.skip(1)[i - 1]);
            }
        }
    }
}

/// Number of leading spaces of `s`.
pub open spec fn lead_ws(s: Seq<u8>) -> int
    decreases s.len(),
{
    if s.len() == 0 || s[0] != 0x20 {
        0
    } else {
        1 + lead_ws(s.skip(1))
    }
}

pub proof fn lemma_lead_ws_char(s: Seq<u8>, k: int)
    requires
        0 <= k <= s.len(),
        forall|i: int| 0 <= i < k ==> #[trigger] s[i] == 0x20,
        k == s.len() || s[k] != 0x20,
    ensures
        lead_ws(s) == k,
    decreases s.len(),
{
    if k > 0 {
        assert(s[0] == 0x20);
        assert forall|i: int| 0 <= i < k - 1 implies #[trigger] s.skip(1)[i] == 0x20 by {
            assert(s[i + 1] == 0x20);
        }
        lemma_lead_ws_char(s.skip(1), k - 1);
    }
}

/// Number of trailing spaces of `s`.
pub open spec fn trail_ws(s: Seq<u8>) -> int
    decreases s.len(),
{
    if s.len() == 0 || s.last() != 0x20 {
        0
    } else {
        1 + trail_ws(s.drop_last())
    }
}

pub proof fn lemma_trail_ws_char(s: Seq<u8>, k: int)
    requires
        0 <= k <= s.len(),
        forall|i: int| s.len() - k <= i < s.len() ==> #[trigger] s[i] == 0x20,
        k == s.len() || s[s.len() - k - 1] != 0x20,
    ensures
        trail_ws(s) == k,
    decreases s.len(),
{
    if s.len() > 0 {
        if k == 0 {
            assert(s.last() != 0x20);
        } else {
            assert(s.last() == 0x20);
            assert forall|i: int|
                s.drop_last().len() - (k - 1) <= i < s.drop_last().len() implies #[trigger] s.drop_last()[i]
                == 0x20 by {
                assert(s[i] == 0x20);
            }
            lemma_trail_ws_char(s.drop_last(), k - 1);
        }
    }
}

/// `s` with leading and trailing spaces removed.
pub open spec fn trim_ws(s: Seq<u8>) -> Seq<u8> {
    let t = s.skip(lead_ws(s));
    t.take(t.len() - trail_ws(t))
}

/// Copy `bytes[from..to]`.
pub fn copy_range(bytes: &Vec<u8>, from: usize, to: usize) -> (r: Vec<u8>)
    requires
        0 <= from <= to <= bytes@.len(),
    ensures
        r@ == bytes@.subrange(from as int, to as int),
{
    let mut out: Vec<u8> = Vec::new();
    let mut m: usize = from;
    while m < to
        invariant
            from <= m <= to <= bytes@.len(),
            out@ == bytes@.subrange(from as int, m as int),
        decreases to - m,
    {
        out.push(bytes[m]);
        proof {
            assert(out@ =~= bytes@.subrange(from as int, m + 1));
        }
        m = m + 1;
    }
    out
}

/// Remove leading and trailing spaces.
#[verifier::loop_isolation(false)]
pub fn exec_trim_ws(v: &Vec<u8>) -> (r: Vec<u8>)
    ensures
        r@ == trim_ws(v@),
{
    let n = v.len();
    let mut a: usize = 0;
    while a < n && v[a] == 0x20
        invariant
            0 <= a <= n,
            forall|m: int| 0 <= m < a ==> #[trigger] v@[m] == 0x20,
        decreases n - a,
    {
        a = a + 1;
    }
    proof {
        lemma_lead_ws_char(v@, a as int);
    }
    let mut b: usize = n;
    while b > a && v[b - 1] == 0x20
        invariant
            a <= b <= n,
            forall|m: int| b <= m < n ==> #[trigger] v@[m] == 0x20,
        decreases b,
    {
        b = b - 1;
    }
    proof {
        let t = v@.skip(a as int);
        assert forall|i: int| t.len() - (n - b) <= i < t.len() implies #[trigger] t[i] == 0x20 by {
            assert(v@[a + i] == 0x20);
        }
        if b > a {
            assert(t[(b - 1 - a) as int] == v@[(b - 1) as int]);
        }
        lemma_trail_ws_char(t, n - b as int);
        assert(t.take(t.len() - (n - b)) =~= v@.subrange(a as int, b as int));
    }
    copy_range(v, a, b)
}

/// Byte-for-byte equality of two byte vectors.
pub fn bytes_eq(a: &Vec<u8>, b: &Vec<u8>) -> (r: bool)
    ensures
        r == (a@ == b@),
{
    if a.len() != b.len() {
        return false;
    }
    let n = a.len();
    let mut i: usize = 0;
    while i < n
        invariant
            0 <= i <= n,
            n == a@.len() == b@.len(),
            forall|m: int| 0 <= m < i ==> a@[m] == #[trigger] b@[m],
        decreases n - i,
    {
        if a[i] != b[i] {
            return false;
        }
        i = i + 1;
    }
    proof {
        assert(a@ =~= b@);
    }
    true
}

/// Find the first field called `name` and copy its value.
#[verifier::loop_isolation(false)]
pub fn lookup_field(fields: &Vec<Field>, name: &Vec<u8>) -> (r: Option<Vec<u8>>)
    ensures
        match r {
            Some(v) => field_value(crate::paragraph::fields_view(fields@), name@) == Some(v@),
            None => field_value(crate::paragraph::fields_view(fields@), name@) is None,
        },
{
    let n = fields.len();
    let mut i: usize = 0;
    proof {
        assert(crate::paragraph::fields_view(fields@).skip(0) =~= crate::paragraph::fields_view(
            fields@,
        ));
    }
    while i < n
        invariant
            0 <= i <= n,
            field_value(crate::paragraph::fields_view(fields@), name@) == field_value(
                crate::paragraph::fields_view(fields@).skip(i as int),
                name@,
            ),
        decreases n - i,
    {
        let ghost fv = crate::paragraph::fields_view(fields@);
        proof {
            assert(fv.skip(i as int)[0] == fv[i as int]);
            assert(fv.skip(i as int).skip(1) =~= fv.skip(i + 1));
        }
        if bytes_eq(&fields[i].name, name) {
            return Some(fields[i].value.clone());
        }
        i = i + 1;
    }
    proof {
        assert(crate::paragraph::fields_view(fields@).skip(n as int).len() == 0);
    }
    None
}

/// The bytes of `Package`.
pub open spec fn tok_package() -> Seq<u8> {
    seq![0x50u8, 0x61u8, 0x63u8, 0x6bu8, 0x61u8, 0x67u8, 0x65u8]
}

pub fn build_tok_package() -> (r: Vec<u8>)
    ensures
        r@ == tok_package(),
{
    let mut v: Vec<u8> = Vec::new();
    v.push(0x50);
    v.push(0x61);
    v.push(0x63);
    v.push(0x6b);
    v.push(0x61);
    v.push(0x67);
    v.push(0x65);
    proof {
        assert(v@ =~= tok_package());
    }
    v
}

/// The bytes of `Version`.
pub open spec fn tok_version() -> Seq<u8> {
    seq![0x56u8, 0x65u8, 0x72u8, 0x73u8, 0x69u8, 0x6fu8, 0x6eu8]
}

pub fn build_tok_version() -> (r: Vec<u8>)
    ensures
        r@ == tok_version(),
{
    let mut v: Vec<u8> = Vec::new();
    v.push(0x56);
    v.push(0x65);
    v.push(0x72);
    v.push(0x73);
    v.push(0x69);
    v.push(0x6f);
    v.push(0x6e);
    proof {
        assert(v@ =~= tok_version());
    }
    v
}

/// The bytes of `Status`.
pub open spec fn tok_status() -> Seq<u8> {
    seq![0x53u8, 0x74u8, 0x61u8, 0x74u8, 0x75u8, 0x73u8]
}

pub fn build_tok_status() -> (r: Vec<u8>)
    ensures
        r@ == tok_status(),
{
    let mut v: Vec<u8> = Vec::new();
    v.push(0x53);
    v.push(0x74);
    v.push(0x61);
    v.push(0x74);
    v.push(0x75);
    v.push(0x73);
    proof {
        assert(v@ =~= tok_status());
    }
    v
}

/// The bytes of `Essential`.
pub open spec fn tok_essential() -> Seq<u8> {
    seq![0x45u8, 0x73u8, 0x73u8, 0x65u8, 0x6eu8, 0x74u8, 0x69u8, 0x61u8, 0x6cu8]
}

pub fn build_tok_essential() -> (r: Vec<u8>)
    ensures
        r@ == tok_essential(),
{
    let mut v: Vec<u8> = Vec::new();
    v.push(0x45);
    v.push(0x73);
    v.push(0x73);
    v.push(0x65);
    v.push(0x6e);
    v.push(0x74);
    v.push(0x69);
    v.push(0x61);
    v.push(0x6c);
    proof {
        assert(v@ =~= tok_essential());
    }
    v
}

/// The bytes of `Section`.
pub open spec fn tok_section() -> Seq<u8> {
    seq![0x53u8, 0x65u8, 0x63u8, 0x74u8, 0x69u8, 0x6fu8, 0x6eu8]
}

pub fn build_tok_section() -> (r: Vec<u8>)
    ensures
        r@ == tok_section(),
{
    let mut v: Vec<u8> = Vec::new();
    v.push(0x53);
    v.push(0x65);
    v.push(0x63);
    v.push(0x74);
    v.push(0x69);
    v.push(0x6f);
    v.push(0x6e);
    proof {
        assert(v@ =~= tok_section());
    }
    v
}

/// The bytes of `Description`.
pub open spec fn tok_description() -> Seq<u8> {
    seq![0x44u8, 0x65u8, 0x73u8, 0x63u8, 0x72u8, 0x69u8, 0x70u8, 0x74u8, 0x69u8, 0x6fu8, 0x6eu8]
}

pub fn build_tok_description() -> (r: Vec<u8>)
    ensures
        r@ == tok_description(),
{
    let mut v: Vec<u8> = Vec::new();
    v.push(0x44);
    v.push(0x65);
    v.push(0x73);
    v.push(0x63);
    v.push(0x72);
    v.push(0x69);
    v.push(0x70);
    v.push(0x74);
    v.push(0x69);
    v.push(0x6f);
    v.push(0x6e);
    proof {
        assert(v@ =~= tok_description());
    }
    v
}

/// The bytes of `Filename`.
pub open spec fn tok_filename() -> Seq<u8> {
    seq![0x46u8, 0x69u8, 0x6cu8, 0x65u8, 0x6eu8, 0x61u8, 0x6du8, 0x65u8]
}

pub fn build_tok_filename() -> (r: Vec<u8>)
    ensures
        r@ == tok_filename(),
{
    let mut v: Vec<u8> = Vec::new();
    v.push(0x46);
    v.push(0x69);
    v.push(0x6c);
    v.push(0x65);
    v.push(0x6e);
    v.push(0x61);
    v.push(0x6d);
    v.push(0x65);
    proof {
        assert(v@ =~= tok_filename());
    }
    v
}

/// The bytes of `Size`.
pub open spec fn tok_size() -> Seq<u8> {
    seq![0x53u8, 0x69u8, 0x7au8, 0x65u8]
}

pub fn build_tok_size() -> (r: Vec<u8>)
    ensures
        r@ == tok_size(),
{
    let mut v: Vec<u8> = Vec::new();
    v.push(0x53);
    v.push(0x69);
    v.push(0x7a);
    v.push(0x65);
    proof {
        assert(v@ =~= tok_size());
    }
    v
}

/// The bytes of `SHA256`.
pub open spec fn tok_sha256() -> Seq<u8> {
    seq![0x53u8, 0x48u8, 0x41u8, 0x32u8, 0x35u8, 0x36u8]
}

pub fn build_tok_sha256() -> (r: Vec<u8>)
    ensures
        r@ == tok_sha256(),
{
    let mut v: Vec<u8> = Vec::new();
    v.push(0x53);
    v.push(0x48);
    v.push(0x41);
    v.push(0x32);
    v.push(0x35);
    v.push(0x36);
    proof {
        assert(v@ =~= tok_sha256());
    }
    v
}

/// The bytes of `SHA512`.
pub open spec fn tok_sha512() -> Seq<u8> {
    seq![0x53u8, 0x48u8, 0x41u8, 0x35u8, 0x31u8, 0x32u8]
}

pub fn build_tok_sha512() -> (r: Vec<u8>)
    ensures
        r@ == tok_sha512(),
{
    let mut v: Vec<u8> = Vec::new();
    v.push(0x53);
    v.push(0x48);
    v.push(0x41);
    v.push(0x35);
    v.push(0x31);
    v.push(0x32);
    proof {
        assert(v@ =~= tok_sha512());
    }
    v
}

/// The bytes of `Installed-Size`.
pub open spec fn tok_installed_size() -> Seq<u8> {
    seq![0x49u8, 0x6eu8, 0x73u8, 0x74u8, 0x61u8, 0x6cu8, 0x6cu8, 0x65u8, 0x64u8, 0x2du8, 0x53u8, 0x69u8, 0x7au8, 0x65u8]
}

pub fn build_tok_installed_size() -> (r: Vec<u8>)
    ensures
        r@ == tok_installed_size(),
{
    let mut v: Vec<u8> = Vec::new();
    v.push(0x49);
    v.push(0x6e);
    v.push(0x73);
    v.push(0x74);
    v.push(0x61);
    v.push(0x6c);
    v.push(0x6c);
    v.push(0x65);
    v.push(0x64);
    v.push(0x2d);
    v.push(0x53);
    v.push(0x69);
    v.push(0x7a);
    v.push(0x65);
    proof {
        assert(v@ =~= tok_installed_size());
    }
    v
}

/// The bytes of `Depends`.
pub open spec fn tok_depends() -> Seq<u8> {
    seq![0x44u8, 0x65u8, 0x70u8, 0x65u8, 0x6eu8, 0x64u8, 0x73u8]
}

pub fn build_tok_depends() -> (r: Vec<u8>)
    ensures
        r@ == tok_depends(),
{
    let mut v: Vec<u8> = Vec::new();
    v.push(0x44);
    v.push(0x65);
    v.push(0x70);
    v.push(0x65);
    v.push(0x6e);
    v.push(0x64);
    v.push(0x73);
    proof {
        assert(v@ =~= tok_depends());
    }
    v
}

/// The bytes of `Breaks`.
pub open spec fn tok_breaks() -> Seq<u8> {
    seq![0x42u8, 0x72u8, 0x65u8, 0x61u8, 0x6bu8, 0x73u8]
}

pub fn build_tok_breaks() -> (r: Vec<u8>)
    ensures
        r@ == tok_breaks(),
{
    let mut v: Vec<u8> = Vec::new();
    v.push(0x42);
    v.push(0x72);
    v.push(0x65);
    v.push(0x61);
    v.push(0x6b);
    v.push(0x73);
    proof {
        assert(v@ =~= tok_breaks());
    }
    v
}

/// The bytes of `Conflicts`.
pub open spec fn tok_conflicts() -> Seq<u8> {
    seq![0x43u8, 0x6fu8, 0x6eu8, 0x66u8, 0x6cu8, 0x69u8, 0x63u8, 0x74u8, 0x73u8]
}

pub fn build_tok_conflicts() -> (r: Vec<u8>)
    ensures
        r@ == tok_conflicts(),
{
    let mut v: Vec<u8> = Vec::new();
    v.push(0x43);
    v.push(0x6f);
    v.push(0x6e);
    v.push(0x66);
    v.push(0x6c);
    v.push(0x69);
    v.push(0x63);
    v.push(0x74);
    v.push(0x73);
    proof {
        assert(v@ =~= tok_conflicts());
    }
    v
}

/// The bytes of `Recommends`.
pub open spec fn tok_recommends() -> Seq<u8> {
    seq![0x52u8, 0x65u8, 0x63u8, 0x6fu8, 0x6du8, 0x6du8, 0x65u8, 0x6eu8, 0x64u8, 0x73u8]
}

pub fn build_tok_recommends() -> (r: Vec<u8>)
    ensures
        r@ == tok_recommends(),
{
    let mut v: Vec<u8> = Vec::new();
    v.push(0x52);
    v.push(0x65);
    v.push(0x63);
    v.push(0x6f);
    v.push(0x6d);
    v.push(0x6d);
    v.push(0x65);
    v.push(0x6e);
    v.push(0x64);
    v.push(0x73);
    proof {
        assert(v@ =~= tok_recommends());
    }
    v
}

/// The bytes of `Suggests`.
pub open spec fn tok_suggests() -> Seq<u8> {
    seq![0x53u8, 0x75u8, 0x67u8, 0x67u8, 0x65u8, 0x73u8, 0x74u8, 0x73u8]
}

pub fn build_tok_suggests() -> (r: Vec<u8>)
    ensures
        r@ == tok_suggests(),
{
    let mut v: Vec<u8> = Vec::new();
    v.push(0x53);
    v.push(0x75);
    v.push(0x67);
    v.push(0x67);
    v.push(0x65);
    v.push(0x73);
    v.push(0x74);
    v.push(0x73);
    proof {
        assert(v@ =~= tok_suggests());
    }
    v
}

/// The bytes of `Provides`.
pub open spec fn tok_provides() -> Seq<u8> {
    seq![0x50u8, 0x72u8, 0x6fu8, 0x76u8, 0x69u8, 0x64u8, 0x65u8, 0x73u8]
}

pub fn build_tok_provides() -> (r: Vec<u8>)
    ensures
        r@ == tok_provides(),
{
    let mut v: Vec<u8> = Vec::new();
    v.push(0x50);
    v.push(0x72);
    v.push(0x6f);
    v.push(0x76);
    v.push(0x69);
    v.push(0x64);
    v.push(0x65);
    v.push(0x73);
    proof {
        assert(v@ =~= tok_provides());
    }
    v
}

/// The bytes of `Replaces`.
pub open spec fn tok_replaces() -> Seq<u8> {
    seq![0x52u8, 0x65u8, 0x70u8, 0x6cu8, 0x61u8, 0x63u8, 0x65u8, 0x73u8]
}

pub fn build_tok_replaces() -> (r: Vec<u8>)
    ensures
        r@ == tok_replaces(),
{
    let mut v: Vec<u8> = Vec::new();
    v.push(0x52);
    v.push(0x65);
    v.push(0x70);
    v.push(0x6c);
    v.push(0x61);
    v.push(0x63);
    v.push(0x65);
    v.push(0x73);
    proof {
        assert(v@ =~= tok_replaces());
    }
    v
}

/// The bytes of `yes`.
pub open spec fn tok_yes() -> Seq<u8> {
    seq![0x79u8, 0x65u8, 0x73u8]
}

pub fn build_tok_yes() -> (r: Vec<u8>)
    ensures
        r@ == tok_yes(),
{
    let mut v: Vec<u8> = Vec::new();
    v.push(0x79);
    v.push(0x65);
    v.push(0x73);
    proof {
        assert(v@ =~= tok_yes());
    }
    v
}

/// The bytes of `not-installed`.
pub open spec fn tok_st_not_installed() -> Seq<u8> {
    seq![0x6eu8, 0x6fu8, 0x74u8, 0x2du8, 0x69u8, 0x6eu8, 0x73u8, 0x74u8, 0x61u8, 0x6cu8, 0x6cu8, 0x65u8, 0x64u8]
}

pub fn build_tok_st_not_installed() -> (r: Vec<u8>)
    ensures
        r@ == tok_st_not_installed(),
{
    let mut v: Vec<u8> = Vec::new();
    v.push(0x6e);
    v.push(0x6f);
    v.push(0x74);
    v.push(0x2d);
    v.push(0x69);
    v.push(0x6e);
    v.push(0x73);
    v.push(0x74);
    v.push(0x61);
    v.push(0x6c);
    v.push(0x6c);
    v.push(0x65);
    v.push(0x64);
    proof {
        assert(v@ =~= tok_st_not_installed());
    }
    v
}

/// The bytes of `config-files`.
pub open spec fn tok_st_config_files() -> Seq<u8> {
    seq![0x63u8, 0x6fu8, 0x6eu8, 0x66u8, 0x69u8, 0x67u8, 0x2du8, 0x66u8, 0x69u8, 0x6cu8, 0x65u8, 0x73u8]
}

pub fn build_tok_st_config_files() -> (r: Vec<u8>)
    ensures
        r@ == tok_st_config_files(),
{
    let mut v: Vec<u8> = Vec::new();
    v.push(0x63);
    v.push(0x6f);
    v.push(0x6e);
    v.push(0x66);
    v.push(0x69);
    v.push(0x67);
    v.push(0x2d);
    v.push(0x66);
    v.push(0x69);
    v.push(0x6c);
    v.push(0x65);
    v.push(0x73);
    proof {
        assert(v@ =~= tok_st_config_files());
    }
    v
}

/// The bytes of `half-installed`.
pub open spec fn tok_st_half_installed() -> Seq<u8> {
    seq![0x68u8, 0x61u8, 0x6cu8, 0x66u8, 0x2du8, 0x69u8, 0x6eu8, 0x73u8, 0x74u8, 0x61u8, 0x6cu8, 0x6cu8, 0x65u8, 0x64u8]
}

pub fn build_tok_st_half_installed() -> (r: Vec<u8>)
    ensures
        r@ == tok_st_half_installed(),
{
    let mut v: Vec<u8> = Vec::new();
    v.push(0x68);
    v.push(0x61);
    v.push(0x6c);
    v.push(0x66);
    v.push(0x2d);
    v.push(0x69);
    v.push(0x6e);
    v.push(0x73);
    v.push(0x74);
    v.push(0x61);
    v.push(0x6c);
    v.push(0x6c);
    v.push(0x65);
    v.push(0x64);
    proof {
        assert(v@ =~= tok_st_half_installed());
    }
    v
}

/// The bytes of `half-configured`.
pub open spec fn tok_st_half_configured() -> Seq<u8> {
    seq![0x68u8, 0x61u8, 0x6cu8, 0x66u8, 0x2du8, 0x63u8, 0x6fu8, 0x6eu8, 0x66u8, 0x69u8, 0x67u8, 0x75u8, 0x72u8, 0x65u8, 0x64u8]
}

pub fn build_tok_st_half_configured() -> (r: Vec<u8>)
    ensures
        r@ == tok_st_half_configured(),
{
    let mut v: Vec<u8> = Vec::new();
    v.push(0x68);
    v.push(0x61);
    v.push(0x6c);
    v.push(0x66);
    v.push(0x2d);
    v.push(0x63);
    v.push(0x6f);
    v.push(0x6e);
    v.push(0x66);
    v.push(0x69);
    v.push(0x67);
    v.push(0x75);
    v.push(0x72);
    v.push(0x65);
    v.push(0x64);
    proof {
        assert(v@ =~= tok_st_half_configured());
    }
    v
}

/// The bytes of `unpacked`.
pub open spec fn tok_st_unpacked() -> Seq<u8> {
    seq![0x75u8, 0x6eu8, 0x70u8, 0x61u8, 0x63u8, 0x6bu8, 0x65u8, 0x64u8]
}

pub fn build_tok_st_unpacked() -> (r: Vec<u8>)
    ensures
        r@ == tok_st_unpacked(),
{
    let mut v: Vec<u8> = Vec::new();
    v.push(0x75);
    v.push(0x6e);
    v.push(0x70);
    v.push(0x61);
    v.push(0x63);
    v.push(0x6b);
    v.push(0x65);
    v.push(0x64);
    proof {
        assert(v@ =~= tok_st_unpacked());
    }
    v
}

/// The bytes of `installed`.
pub open spec fn tok_st_installed() -> Seq<u8> {
    seq![0x69u8, 0x6eu8, 0x73u8, 0x74u8, 0x61u8, 0x6cu8, 0x6cu8, 0x65u8, 0x64u8]
}

pub fn build_tok_st_installed() -> (r: Vec<u8>)
    ensures
        r@ == tok_st_installed(),
{
    let mut v: Vec<u8> = Vec::new();
    v.push(0x69);
    v.push(0x6e);
    v.push(0x73);
    v.push(0x74);
    v.push(0x61);
    v.push(0x6c);
    v.push(0x6c);
    v.push(0x65);
    v.push(0x64);
    proof {
        assert(v@ =~= tok_st_installed());
    }
    v
}

/// The bytes of `triggers-awaited`.
pub open spec fn tok_st_triggers_awaited() -> Seq<u8> {
    seq![0x74u8, 0x72u8, 0x69u8, 0x67u8, 0x67u8, 0x65u8, 0x72u8, 0x73u8, 0x2du8, 0x61u8, 0x77u8, 0x61u8, 0x69u8, 0x74u8, 0x65u8, 0x64u8]
}

pub fn build_tok_st_triggers_awaited() -> (r: Vec<u8>)
    ensures
        r@ == tok_st_triggers_awaited(),
{
    let mut v: Vec<u8> = Vec::new();
    v.push(0x74);
    v.push(0x72);
    v.push(0x69);
    v.push(0x67);
    v.push(0x67);
    v.push(0x65);
    v.push(0x72);
    v.push(0x73);
    v.push(0x2d);
    v.push(0x61);
    v.push(0x77);
    v.push(0x61);
    v.push(0x69);
    v.push(0x74);
    v.push(0x65);
    v.push(0x64);
    proof {
        assert(v@ =~= tok_st_triggers_awaited());
    }
    v
}

/// The bytes of `triggers-pending`.
pub open spec fn tok_st_triggers_pending() -> Seq<u8> {
    seq![0x74u8, 0x72u8, 0x69u8, 0x67u8, 0x67u8, 0x65u8, 0x72u8, 0x73u8, 0x2du8, 0x70u8, 0x65u8, 0x6eu8, 0x64u8, 0x69u8, 0x6eu8, 0x67u8]
}

pub fn build_tok_st_triggers_pending() -> (r: Vec<u8>)
    ensures
        r@ == tok_st_triggers_pending(),
{
    let mut v: Vec<u8> = Vec::new();
    v.push(0x74);
    v.push(0x72);
    v.push(0x69);
    v.push(0x67);
    v.push(0x67);
    v.push(0x65);
    v.push(0x72);
    v.push(0x73);
    v.push(0x2d);
    v.push(0x70);
    v.push(0x65);
    v.push(0x6e);
    v.push(0x64);
    v.push(0x69);
    v.push(0x6e);
    v.push(0x67);
    proof {
        assert(v@ =~= tok_st_triggers_pending());
    }
    v
}

} // verus!
