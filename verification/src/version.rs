//! Debian-style version algebra: parsing, comparison and range predicates.
//!
//! A version is a triple `(epoch, upstream, revision)` written
//! `[epoch:]upstream[-revision]`.  Comparison follows dpkg's rules: the
//! epoch compares numerically, then upstream and revision compare by
//! alternating non-digit / digit segments, where `~` sorts below the end
//! of the string and letters sort below all other characters.

use vstd::prelude::*;
use vstd::string::StrSliceExecFns;
use vstd::string::StringSliceAdditionalSpecFns;

verus! {

/// The byte is an ASCII decimal digit.
pub open spec fn is_digit_byte(b: u8) -> bool {
    0x30 <= b <= 0x39
}

/// The byte is an ASCII letter.
pub open spec fn is_alpha_byte(b: u8) -> bool {
    (0x41 <= b <= 0x5a) || (0x61 <= b <= 0x7a)
}

/// Debian weight of a byte inside a non-digit segment: `~` sorts below
/// everything (the end of the string included), letters sort below all
/// other bytes.  Digits weigh 0 so that a digit ends a non-digit segment
/// exactly as the end of the string does.
pub open spec fn byte_weight(b: u8) -> int {
    if is_digit_byte(b) {
        0
    } else if b == 0x7e {
        -1
    } else if is_alpha_byte(b) {
        b as int
    } else {
        b as int + 256
    }
}

/// Weight of the first byte of a suffix; the end of the string weighs 0.
pub open spec fn head_weight(s: Seq<u8>) -> int {
    if s.len() == 0 {
        0
    } else {
        byte_weight(s[0])
    }
}

/// Length of the maximal digit prefix of `s`.
pub open spec fn digit_run(s: Seq<u8>) -> nat
    decreases s.len(),
{
    if s.len() == 0 || !is_digit_byte(s[0]) {
        0
    } else {
        (1 + digit_run(s.skip(1))) as nat
    }
}

/// Every byte of `s` is a digit.
pub open spec fn all_digits(s: Seq<u8>) -> bool {
    forall|i: int| 0 <= i < s.len() ==> is_digit_byte(#[trigger] s[i])
}

pub open spec fn pow10(n: nat) -> nat
    decreases n,
{
    if n == 0 {
        1
    } else {
        10 * pow10((n - 1) as nat)
    }
}

/// Numeric value of a digit sequence, most significant byte first.
pub open spec fn digits_val(s: Seq<u8>) -> nat
    decreases s.len(),
{
    if s.len() == 0 {
        0nat
    } else {
        (((s[0] - 0x30) * pow10((s.len() - 1) as nat)) + digits_val(s.skip(1))) as nat
    }
}

/// dpkg's comparison of two version strings: non-digit segments compare
/// byte-wise by `byte_weight`, digit segments compare numerically with
/// leading zeros ignored.  Returns -1, 0 or 1.
pub open spec fn verrevcmp(x: Seq<u8>, y: Seq<u8>) -> int
    decreases x.len() + y.len(),
    via verrevcmp_decreases
{
    if (x.len() > 0 && !is_digit_byte(x[0])) || (y.len() > 0 && !is_digit_byte(y[0])) {
        let ax = head_weight(x);
        let ay = head_weight(y);
        if ax < ay {
            -1
        } else if ax > ay {
            1
        } else {
            verrevcmp(x.skip(1), y.skip(1))
        }
    } else if x.len() == 0 && y.len() == 0 {
        0
    } else {
        let nx = digits_val(x.take(digit_run(x) as int));
        let ny = digits_val(y.take(digit_run(y) as int));
        if nx < ny {
            -1
        } else if nx > ny {
            1
        } else {
            verrevcmp(x.skip(digit_run(x) as int), y.skip(digit_run(y) as int))
        }
    }
}

#[via_fn]
proof fn verrevcmp_decreases(x: Seq<u8>, y: Seq<u8>) {
    lemma_digit_run_le(x);
    lemma_digit_run_le(y);
}

pub proof fn lemma_digit_run_le(s: Seq<u8>)
    ensures
        digit_run(s) <= s.len(),
    decreases s.len(),
{
    if s.len() > 0 && is_digit_byte(s[0]) {
        lemma_digit_run_le(s.skip(1));
    }
}

/// `digit_run` is the unique `k` such that the first `k` bytes are digits
/// and the byte after them (if any) is not.
pub proof fn lemma_digit_run_char(s: Seq<u8>, k: int)
    requires
        0 <= k <= s.len(),
        forall|i: int| 0 <= i < k ==> is_digit_byte(#[trigger] s[i]),
        k == s.len() || !is_digit_byte(s[k]),
    ensures
        digit_run(s) == k,
    decreases s.len(),
{
    if k == 0 {
    } else {
        assert(is_digit_byte(s[0]));
        lemma_digit_run_char(s.skip(1), k - 1);
    }
}

pub proof fn lemma_pow10_pos(n: nat)
    ensures
        pow10(n) >= 1,
    decreases n,
{
    if n > 0 {
        lemma_pow10_pos((n - 1) as nat);
    }
}

pub proof fn lemma_pow10_mono(m: nat, n: nat)
    requires
        m <= n,
    ensures
        pow10(m) <= pow10(n),
    decreases n,
{
    if m < n {
        lemma_pow10_mono(m, (n - 1) as nat);
        lemma_pow10_pos((n - 1) as nat);
    }
}

/// The value of a digit sequence is below `pow10` of its length.
pub proof fn lemma_digits_val_upper(s: Seq<u8>)
    requires
        all_digits(s),
    ensures
        digits_val(s) < pow10(s.len()),
    decreases s.len(),
{
    if s.len() > 0 {
        assert forall|i: int| 0 <= i < s.skip(1).len() implies is_digit_byte(
            #[trigger] s.skip(1)[i],
        ) by {
            assert(is_digit_byte(s[i + 1]));
        }
        lemma_digits_val_upper(s.skip(1));
        let p = pow10((s.len() - 1) as nat);
        lemma_pow10_pos((s.len() - 1) as nat);
        assert((s[0] - 0x30) * p <= 9 * p) by (nonlinear_arith)
            requires
                s[0] - 0x30 <= 9,
                p >= 0,
        ;
        assert(pow10(s.len()) == 10 * p);
    }
}

/// A digit sequence with a non-zero leading digit is at least
/// `pow10` of one less than its length.
pub proof fn lemma_digits_val_lower(s: Seq<u8>)
    requires
        all_digits(s),
        s.len() > 0,
        s[0] != 0x30,
    ensures
        digits_val(s) >= pow10((s.len() - 1) as nat),
{
    let p = pow10((s.len() - 1) as nat);
    lemma_pow10_pos((s.len() - 1) as nat);
    assert((s[0] - 0x30) * p >= 1 * p) by (nonlinear_arith)
        requires
            s[0] - 0x30 >= 1,
            p >= 0,
    ;
}

/// Leading zeros do not change the value.
pub proof fn lemma_digits_val_strip_zeros(s: Seq<u8>, k: int)
    requires
        0 <= k <= s.len(),
        forall|i: int| 0 <= i < k ==> #[trigger] s[i] == 0x30,
    ensures
        digits_val(s) == digits_val(s.skip(k)),
    decreases k,
{
    if k == 0 {
        assert(s.skip(0) =~= s);
    } else {
        assert(s[0] == 0x30);
        assert forall|i: int| 0 <= i < k - 1 implies #[trigger] s.skip(1)[i] == 0x30 by {
            assert(s[i + 1] == 0x30);
        }
        lemma_digits_val_strip_zeros(s.skip(1), k - 1);
        assert(s.skip(1).skip(k - 1) =~= s.skip(k));
        assert((s[0] - 0x30) * pow10((s.len() - 1) as nat) == 0);
        assert(digits_val(s) == ((s[0] - 0x30) * pow10((s.len() - 1) as nat) + digits_val(
            s.skip(1),
        )) as nat);
        assert(digits_val(s) == digits_val(s.skip(1)));
    }
}

/// Two equal-length digit sequences that agree before position `k` and
/// differ there compare, as values, as the bytes at `k` do.
pub proof fn lemma_digits_val_lex(s: Seq<u8>, t: Seq<u8>, k: int)
    requires
        all_digits(s),
        all_digits(t),
        s.len() == t.len(),
        0 <= k < s.len(),
        forall|i: int| 0 <= i < k ==> #[trigger] s[i] == t[i],
        s[k] < t[k],
    ensures
        digits_val(s) < digits_val(t),
    decreases k,
{
    if k == 0 {
        assert(all_digits(s.skip(1)));
        assert(all_digits(t.skip(1)));
        lemma_digits_val_upper(s.skip(1));
        lemma_pow10_pos((s.len() - 1) as nat);
        assert((s[0] - 0x30) + 1 <= (t[0] - 0x30));
        assert((s[0] - 0x30) * pow10((s.len() - 1) as nat) + pow10((s.len() - 1) as nat) <= (t[0]
            - 0x30) * pow10((t.len() - 1) as nat)) by (nonlinear_arith)
            requires
                (s[0] - 0x30) + 1 <= (t[0] - 0x30),
                pow10((s.len() - 1) as nat) >= 1,
                s.len() == t.len(),
        ;
    } else {
        assert(all_digits(s.skip(1)));
        assert(all_digits(t.skip(1)));
        assert(s[0] == t[0]);
        assert forall|i: int| 0 <= i < k - 1 implies #[trigger] s.skip(1)[i] == t.skip(1)[i] by {
            assert(s[i + 1] == t[i + 1]);
        }
        lemma_digits_val_lex(s.skip(1), t.skip(1), k - 1);
    }
}

/// Appending a digit multiplies the value by ten and adds the digit.
pub proof fn lemma_digits_val_push(s: Seq<u8>, b: u8)
    requires
        all_digits(s),
        is_digit_byte(b),
    ensures
        digits_val(s.push(b)) == digits_val(s) * 10 + (b - 0x30),
    decreases s.len(),
{
    if s.len() == 0 {
        assert(s.push(b) =~= seq![b]);
        assert(seq![b].skip(1) =~= Seq::<u8>::empty());
        assert(digits_val(Seq::<u8>::empty()) == 0);
        assert(pow10(0) == 1);
        assert(digits_val(seq![b]) == ((b - 0x30) * 1 + 0) as nat);
    } else {
        assert(s.push(b).skip(1) =~= s.skip(1).push(b));
        assert(all_digits(s.skip(1)));
        lemma_digits_val_push(s.skip(1), b);
        assert(pow10((s.push(b).len() - 1) as nat) == 10 * pow10((s.len() - 1) as nat));
        assert((s[0] - 0x30) * (10 * pow10((s.len() - 1) as nat)) == ((s[0] - 0x30) * pow10((
        s.len() - 1) as nat)) * 10) by (nonlinear_arith);
    }
}

/// The comparison only takes the three values -1, 0 and 1.
pub proof fn lemma_verrevcmp_range(x: Seq<u8>, y: Seq<u8>)
    ensures
        verrevcmp(x, y) == -1 || verrevcmp(x, y) == 0 || verrevcmp(x, y) == 1,
    decreases x.len() + y.len(),
{
    reveal_with_fuel(verrevcmp, 1);
    if (x.len() > 0 && !is_digit_byte(x[0])) || (y.len() > 0 && !is_digit_byte(y[0])) {
        if head_weight(x) == head_weight(y) {
            lemma_verrevcmp_range(x.skip(1), y.skip(1));
        }
    } else if x.len() == 0 && y.len() == 0 {
    } else {
        lemma_digit_run_le(x);
        lemma_digit_run_le(y);
        let nx = digits_val(x.take(digit_run(x) as int));
        let ny = digits_val(y.take(digit_run(y) as int));
        if nx == ny {
            lemma_verrevcmp_range(x.skip(digit_run(x) as int), y.skip(digit_run(y) as int));
        }
    }
}

/// Swapping the arguments flips the sign.
pub proof fn lemma_verrevcmp_antisym(x: Seq<u8>, y: Seq<u8>)
    ensures
        verrevcmp(y, x) == -verrevcmp(x, y),
    decreases x.len() + y.len(),
{
    if (x.len() > 0 && !is_digit_byte(x[0])) || (y.len() > 0 && !is_digit_byte(y[0])) {
        if head_weight(x) == head_weight(y) {
            lemma_verrevcmp_antisym(x.skip(1), y.skip(1));
        }
    } else if x.len() == 0 && y.len() == 0 {
    } else {
        lemma_digit_run_le(x);
        lemma_digit_run_le(y);
        let nx = digits_val(x.take(digit_run(x) as int));
        let ny = digits_val(y.take(digit_run(y) as int));
        if nx == ny {
            lemma_verrevcmp_antisym(x.skip(digit_run(x) as int), y.skip(digit_run(y) as int));
        }
    }
}

/// Comparing a string with itself gives 0.
pub proof fn lemma_verrevcmp_refl(x: Seq<u8>)
    ensures
        verrevcmp(x, x) == 0,
    decreases x.len(),
{
    if x.len() > 0 && !is_digit_byte(x[0]) {
        lemma_verrevcmp_refl(x.skip(1));
    } else if x.len() > 0 {
        lemma_digit_run_le(x);
        lemma_verrevcmp_refl(x.skip(digit_run(x) as int));
        assert(digit_run(x) >= 1);
    }
}

/// Transitivity, in the form that lets equalities chain: if `x` is at
/// most `y` and `y` at most `z`, then `x` is at most `z`, and `x` equals
/// `z` only when both steps were equalities.
pub proof fn lemma_verrevcmp_trans(x: Seq<u8>, y: Seq<u8>, z: Seq<u8>)
    requires
        verrevcmp(x, y) <= 0,
        verrevcmp(y, z) <= 0,
    ensures
        verrevcmp(x, z) <= 0,
        verrevcmp(x, z) == 0 ==> verrevcmp(x, y) == 0 && verrevcmp(y, z) == 0,
    decreases x.len() + y.len() + z.len(),
{
    lemma_verrevcmp_range(x, y);
    lemma_verrevcmp_range(y, z);
    lemma_verrevcmp_range(x, z);
    let a = head_weight(x);
    let b = head_weight(y);
    let c = head_weight(z);
    let xnd = x.len() > 0 && !is_digit_byte(x[0]);
    let ynd = y.len() > 0 && !is_digit_byte(y[0]);
    let znd = z.len() > 0 && !is_digit_byte(z[0]);
    if xnd || ynd || znd {
        // at least one pair compares in the non-digit phase
        if (xnd || ynd) && (ynd || znd) {
            // both pairs are in the non-digit phase
            if a == b && b == c {
                lemma_verrevcmp_trans(x.skip(1), y.skip(1), z.skip(1));
            } else if a == b {
                // b < c is impossible upward; b vs c decides (y,z), a == b decides (x,z)
                assert(b < c);
                assert(verrevcmp(x, z) == -1);
            } else {
                assert(a < b);
                if ynd || znd {
                    assert(b <= c);
                    assert(verrevcmp(x, z) == -1);
                } else {
                    // y and z are both in the digit phase, so b == 0 and c == 0
                    assert(verrevcmp(x, z) == -1);
                }
            }
        } else if xnd || ynd {
            // (x,y) non-digit, (y,z) numeric: y and z have digit-or-empty heads
            assert(b == 0 && c == 0);
            assert(a != 0);
            assert(a < 0);
            assert(verrevcmp(x, z) == -1);
        } else {
            // (y,z) non-digit, (x,y) numeric: x and y have digit-or-empty heads
            assert(a == 0 && b == 0);
            assert(c != 0);
            assert(c > 0);
            assert(verrevcmp(x, z) == -1);
        }
    } else {
        // all three are empty or start with a digit
        if x.len() == 0 && y.len() == 0 && z.len() == 0 {
        } else {
            lemma_digit_run_le(x);
            lemma_digit_run_le(y);
            lemma_digit_run_le(z);
            let nx = digits_val(x.take(digit_run(x) as int));
            let ny = digits_val(y.take(digit_run(y) as int));
            let nz = digits_val(z.take(digit_run(z) as int));
            if x.len() == 0 && y.len() == 0 {
                // z has a digit head; (x,y) compares as 0 via the empty case
                assert(digit_run(z) >= 1);
                assert(nz >= 0);
                if nx == ny && ny == nz {
                    lemma_verrevcmp_trans(
                        x.skip(digit_run(x) as int),
                        y.skip(digit_run(y) as int),
                        z.skip(digit_run(z) as int),
                    );
                }
            } else if nx == ny && ny == nz {
                lemma_verrevcmp_trans(
                    x.skip(digit_run(x) as int),
                    y.skip(digit_run(y) as int),
                    z.skip(digit_run(z) as int),
                );
            } else {
                // a strict numeric difference decides at least one pair
                assert(nx <= ny && ny <= nz && nx < nz ==> verrevcmp(x, z) == -1);
            }
        }
    }
}

/// Mathematical model of a version: epoch, upstream and revision parts.
pub struct VersionModel {
    pub epoch: nat,
    pub upstream: Seq<u8>,
    pub revision: Seq<u8>,
}

/// Debian comparison of two version models: epoch first, then the
/// upstream part, then the revision part, each by `verrevcmp`.
pub open spec fn version_cmp(a: VersionModel, b: VersionModel) -> int {
    if a.epoch < b.epoch {
        -1
    } else if a.epoch > b.epoch {
        1
    } else if verrevcmp(a.upstream, b.upstream) != 0 {
        verrevcmp(a.upstream, b.upstream)
    } else {
        verrevcmp(a.revision, b.revision)
    }
}

/// Version ordering is total: the comparison takes exactly one of the
/// three values, flips sign when the arguments swap, and is reflexive.
pub proof fn lemma_version_cmp_total(a: VersionModel, b: VersionModel)
    ensures
        version_cmp(a, b) == -1 || version_cmp(a, b) == 0 || version_cmp(a, b) == 1,
        version_cmp(b, a) == -version_cmp(a, b),
        version_cmp(a, a) == 0,
{
    lemma_verrevcmp_range(a.upstream, b.upstream);
    lemma_verrevcmp_range(a.revision, b.revision);
    lemma_verrevcmp_antisym(a.upstream, b.upstream);
    lemma_verrevcmp_antisym(a.revision, b.revision);
    lemma_verrevcmp_refl(a.upstream);
    lemma_verrevcmp_refl(a.revision);
}

/// Version ordering is transitive; an equality at the ends forces
/// equalities in both steps.
pub proof fn lemma_version_cmp_trans(a: VersionModel, b: VersionModel, c: VersionModel)
    requires
        version_cmp(a, b) <= 0,
        version_cmp(b, c) <= 0,
    ensures
        version_cmp(a, c) <= 0,
        version_cmp(a, c) == 0 ==> version_cmp(a, b) == 0 && version_cmp(b, c) == 0,
{
    lemma_verrevcmp_range(a.upstream, b.upstream);
    lemma_verrevcmp_range(b.upstream, c.upstream);
    lemma_verrevcmp_range(a.revision, b.revision);
    lemma_verrevcmp_range(b.revision, c.revision);
    if a.epoch == b.epoch && b.epoch == c.epoch {
        if verrevcmp(a.upstream, b.upstream) == 0 && verrevcmp(b.upstream, c.upstream) == 0 {
            lemma_verrevcmp_trans(a.upstream, b.upstream, c.upstream);
            lemma_verrevcmp_trans(a.revision, b.revision, c.revision);
        } else {
            lemma_verrevcmp_trans(a.upstream, b.upstream, c.upstream);
        }
    }
}

/// A Debian version: `[epoch:]upstream[-revision]`.  A missing revision
/// is stored as the empty byte string.
pub struct PkgVersion {
    pub epoch: u32,
    pub upstream: Vec<u8>,
    pub revision: Vec<u8>,
}

impl View for PkgVersion {
    type V = VersionModel;

    open spec fn view(&self) -> VersionModel {
        VersionModel { epoch: self.epoch as nat, upstream: self.upstream@, revision: self.revision@ }
    }
}

impl Clone for PkgVersion {
    fn clone(&self) -> (res: Self)
        ensures
            res@ == self@,
    {
        PkgVersion {
            epoch: self.epoch,
            upstream: self.upstream.clone(),
            revision: self.revision.clone(),
        }
    }
}

/// A byte allowed in the upstream part: alphanumerics and `. + - : ~`.
pub open spec fn upstream_byte(b: u8) -> bool {
    is_digit_byte(b) || is_alpha_byte(b) || b == 0x2e || b == 0x2b || b == 0x2d || b == 0x3a || b
        == 0x7e
}

/// A byte allowed in the revision part: alphanumerics and `. + ~`.
pub open spec fn revision_byte(b: u8) -> bool {
    is_digit_byte(b) || is_alpha_byte(b) || b == 0x2e || b == 0x2b || b == 0x7e
}

/// Index of the first `:` in `s`, or `s.len()` when there is none.
pub open spec fn first_colon(s: Seq<u8>) -> int
    decreases s.len(),
{
    if s.len() == 0 {
        0
    } else if s[0] == 0x3a {
        0
    } else {
        1 + first_colon(s.skip(1))
    }
}

/// Index of the last `-` in `s`, or -1 when there is none.
pub open spec fn last_hyphen(s: Seq<u8>) -> int
    decreases s.len(),
{
    if s.len() == 0 {
        -1
    } else if s.last() == 0x2d {
        s.len() - 1
    } else {
        last_hyphen(s.drop_last())
    }
}

pub proof fn lemma_first_colon_le(s: Seq<u8>)
    ensures
        0 <= first_colon(s) <= s.len(),
    decreases s.len(),
{
    if s.len() > 0 && s[0] != 0x3a {
        lemma_first_colon_le(s.skip(1));
    }
}

pub proof fn lemma_first_colon_found(s: Seq<u8>)
    ensures
        first_colon(s) < s.len() ==> s[first_colon(s)] == 0x3a,
        forall|i: int| 0 <= i < first_colon(s) ==> #[trigger] s[i] != 0x3a,
    decreases s.len(),
{
    if s.len() > 0 && s[0] != 0x3a {
        lemma_first_colon_found(s.skip(1));
        lemma_first_colon_le(s.skip(1));
        assert(first_colon(s) == 1 + first_colon(s.skip(1)));
        if first_colon(s) < s.len() {
            assert(s[first_colon(s)] == s.skip(1)[first_colon(s.skip(1))]);
        }
        assert forall|i: int| 0 <= i < first_colon(s) implies #[trigger] s[i] != 0x3a by {
            if i > 0 {
                assert(0 <= i - 1 < first_colon(s.skip(1)));
                assert(s.skip(1)[i - 1] != 0x3a);
                assert(s[i] == s.skip(1)[i - 1]);
            }
        }
    }
}

pub proof fn lemma_first_colon_char(s: Seq<u8>, k: int)
    requires
        0 <= k <= s.len(),
        forall|i: int| 0 <= i < k ==> #[trigger] s[i] != 0x3a,
        k == s.len() || s[k] == 0x3a,
    ensures
        first_colon(s) == k,
    decreases s.len(),
{
    if k > 0 {
        assert(s[0] != 0x3a);
        assert forall|i: int| 0 <= i < k - 1 implies #[trigger] s.skip(1)[i] != 0x3a by {
            assert(s[i + 1] != 0x3a);
        }
        lemma_first_colon_char(s.skip(1), k - 1);
    }
}

pub proof fn lemma_last_hyphen_char(s: Seq<u8>, k: int)
    requires
        -1 <= k < s.len(),
        forall|i: int| k < i < s.len() ==> #[trigger] s[i] != 0x2d,
        k == -1 || s[k] == 0x2d,
    ensures
        last_hyphen(s) == k,
    decreases s.len(),
{
    if s.len() > 0 {
        if k == s.len() - 1 {
        } else {
            assert(s.last() != 0x2d);
            assert forall|i: int| k < i < s.drop_last().len() implies #[trigger] s.drop_last()[i]
                != 0x2d by {
                assert(s[i] != 0x2d);
            }
            lemma_last_hyphen_char(s.drop_last(), k);
        }
    }
}

/// The version string has an epoch prefix (a colon occurs).
pub open spec fn has_epoch_part(s: Seq<u8>) -> bool {
    first_colon(s) < s.len()
}

/// The digits before the colon, or the empty string without one.
pub open spec fn epoch_part(s: Seq<u8>) -> Seq<u8> {
    if has_epoch_part(s) {
        s.take(first_colon(s))
    } else {
        Seq::<u8>::empty()
    }
}

/// The version string with any epoch prefix removed.
pub open spec fn rest_part(s: Seq<u8>) -> Seq<u8> {
    if has_epoch_part(s) {
        s.skip(first_colon(s) + 1)
    } else {
        s
    }
}

/// The upstream part: the remainder up to its last hyphen, if any.
pub open spec fn upstream_part(s: Seq<u8>) -> Seq<u8> {
    if last_hyphen(rest_part(s)) >= 0 {
        rest_part(s).take(last_hyphen(rest_part(s)))
    } else {
        rest_part(s)
    }
}

/// The revision part: what follows the last hyphen of the remainder.
pub open spec fn revision_part(s: Seq<u8>) -> Seq<u8> {
    if last_hyphen(rest_part(s)) >= 0 {
        rest_part(s).skip(last_hyphen(rest_part(s)) + 1)
    } else {
        Seq::<u8>::empty()
    }
}

/// The epoch prefix, when present, is a non-empty digit run whose value
/// fits in 32 bits.
pub open spec fn epoch_ok(s: Seq<u8>) -> bool {
    has_epoch_part(s) ==> epoch_part(s).len() > 0 && all_digits(epoch_part(s)) && digits_val(
        epoch_part(s),
    ) <= u32::MAX
}

/// What parsing a version string yields: `None` on malformed input.
pub open spec fn spec_parse_version(s: Seq<u8>) -> Option<VersionModel> {
    if !epoch_ok(s) {
        None
    } else if upstream_part(s).len() == 0 {
        None
    } else if !(forall|i: int|
        0 <= i < upstream_part(s).len() ==> upstream_byte(#[trigger] upstream_part(s)[i])) {
        None
    } else if !(forall|i: int|
        0 <= i < revision_part(s).len() ==> revision_byte(#[trigger] revision_part(s)[i])) {
        None
    } else {
        Some(
            VersionModel {
                epoch: digits_val(epoch_part(s)),
                upstream: upstream_part(s),
                revision: revision_part(s),
            },
        )
    }
}

/// Malformed version strings are rejected with this error.
#[derive(Clone, Copy, Debug, PartialEq, Eq, Structural)]
pub enum VersionError {
    Malformed,
}

/// A prefix never exceeds the value of the whole digit string.
pub proof fn lemma_digits_val_prefix_mono(s: Seq<u8>, i: int)
    requires
        all_digits(s),
        0 <= i <= s.len(),
    ensures
        digits_val(s.take(i)) <= digits_val(s),
    decreases s.len() - i,
{
    if i == s.len() {
        assert(s.take(i) =~= s);
    } else {
        assert(s.take(i + 1) =~= s.take(i).push(s[i]));
        assert forall|m: int| 0 <= m < s.take(i).len() implies is_digit_byte(
            #[trigger] s.take(i)[m],
        ) by {
            assert(is_digit_byte(s[m]));
        }
        lemma_digits_val_push(s.take(i), s[i]);
        lemma_digits_val_prefix_mono(s, i + 1);
    }
}

/// Every byte that `dec_digits` produces is a decimal digit.
pub proof fn lemma_dec_digits_ascii(n: nat)
    ensures
        all_digits(dec_digits(n)),
        dec_digits(n).len() > 0,
    decreases n,
{
    if n >= 10 {
        lemma_dec_digits_ascii(n / 10);
    }
}

/// Decimal rendering of a number, most significant digit first and
/// without leading zeros.
pub open spec fn dec_digits(n: nat) -> Seq<u8>
    decreases n,
{
    if n < 10 {
        seq![(0x30 + n) as u8]
    } else {
        dec_digits(n / 10).push((0x30 + n % 10) as u8)
    }
}

/// Render a number in decimal.
pub fn render_u64(n: u64) -> (r: Vec<u8>)
    ensures
        r@ == dec_digits(n as nat),
    decreases n,
{
    if n < 10 {
        let mut v: Vec<u8> = Vec::new();
        v.push(0x30 + n as u8);
        proof {
            assert(v@ =~= dec_digits(n as nat));
        }
        v
    } else {
        let mut v = render_u64(n / 10);
        v.push(0x30 + (n % 10) as u8);
        v
    }
}

fn exec_is_digit(b: u8) -> (r: bool)
    ensures
        r == is_digit_byte(b),
{
    0x30 <= b && b <= 0x39
}

fn exec_weight(b: u8) -> (r: i32)
    ensures
        r as int == byte_weight(b),
{
    if 0x30 <= b && b <= 0x39 {
        0
    } else if b == 0x7e {
        -1
    } else if (0x41 <= b && b <= 0x5a) || (0x61 <= b && b <= 0x7a) {
        b as i32
    } else {
        b as i32 + 256
    }
}

/// Compare two version strings with dpkg's segment rules.
#[verifier::rlimit(100)]
pub fn cmp_bytes(x: &[u8], y: &[u8]) -> (r: i32)
    ensures
        r as int == verrevcmp(x@, y@),
{
    let xlen = x.len();
    let ylen = y.len();
    let mut i: usize = 0;
    let mut j: usize = 0;
    proof {
        assert(x@.skip(0) =~= x@);
        assert(y@.skip(0) =~= y@);
    }
    loop
        invariant
            i <= xlen,
            j <= ylen,
            xlen == x@.len(),
            ylen == y@.len(),
            verrevcmp(x@, y@) == verrevcmp(x@.skip(i as int), y@.skip(j as int)),
        decreases (xlen - i) + (ylen - j),
    {
        let ghost xs = x@.skip(i as int);
        let ghost ys = y@.skip(j as int);
        let xnd = i < xlen && !exec_is_digit(x[i]);
        let ynd = j < ylen && !exec_is_digit(y[j]);
        if xnd || ynd {
            let ax: i32 = if i < xlen {
                exec_weight(x[i])
            } else {
                0
            };
            let ay: i32 = if j < ylen {
                exec_weight(y[j])
            } else {
                0
            };
            proof {
                assert(ax as int == head_weight(xs));
                assert(ay as int == head_weight(ys));
            }
            if ax < ay {
                proof {
                    assert(verrevcmp(xs, ys) == -1);
                }
                return -1;
            } else if ax > ay {
                proof {
                    assert(verrevcmp(xs, ys) == 1);
                }
                return 1;
            }
            proof {
                assert(verrevcmp(xs, ys) == verrevcmp(xs.skip(1), ys.skip(1)));
                assert(xs.skip(1) =~= x@.skip(i + 1));
                assert(ys.skip(1) =~= y@.skip(j + 1));
            }
            i = i + 1;
            j = j + 1;
        } else if i == xlen && j == ylen {
            proof {
                assert(verrevcmp(xs, ys) == 0);
            }
            return 0;
        } else {
            // both suffixes start with a digit or are exhausted: compare runs
            let mut ix: usize = i;
            while ix < xlen && exec_is_digit(x[ix])
                invariant
                    i <= ix <= xlen,
                    xlen == x@.len(),
                    forall|m: int| i <= m < ix ==> is_digit_byte(#[trigger] x@[m]),
                decreases xlen - ix,
            {
                ix = ix + 1;
            }
            let mut jy: usize = j;
            while jy < ylen && exec_is_digit(y[jy])
                invariant
                    j <= jy <= ylen,
                    ylen == y@.len(),
                    forall|m: int| j <= m < jy ==> is_digit_byte(#[trigger] y@[m]),
                decreases ylen - jy,
            {
                jy = jy + 1;
            }
            proof {
                assert forall|m: int| 0 <= m < ix - i implies is_digit_byte(#[trigger] xs[m]) by {
                    assert(is_digit_byte(x@[i + m]));
                }
                assert(ix == xlen || !is_digit_byte(xs[ix - i]));
                lemma_digit_run_char(xs, ix - i);
                assert forall|m: int| 0 <= m < jy - j implies is_digit_byte(#[trigger] ys[m]) by {
                    assert(is_digit_byte(y@[j + m]));
                }
                assert(jy == ylen || !is_digit_byte(ys[jy - j]));
                lemma_digit_run_char(ys, jy - j);
            }
            // skip leading zeros of both runs
            let mut sx: usize = i;
            while sx < ix && x[sx] == 0x30
                invariant
                    i <= sx <= ix,
                    ix <= xlen,
                    xlen == x@.len(),
                    forall|m: int| i <= m < sx ==> #[trigger] x@[m] == 0x30,
                decreases ix - sx,
            {
                sx = sx + 1;
            }
            let mut sy: usize = j;
            while sy < jy && y[sy] == 0x30
                invariant
                    j <= sy <= jy,
                    jy <= ylen,
                    ylen == y@.len(),
                    forall|m: int| j <= m < sy ==> #[trigger] y@[m] == 0x30,
                decreases jy - sy,
            {
                sy = sy + 1;
            }
            let ghost xrun = xs.take(ix - i);
            let ghost yrun = ys.take(jy - j);
            let ghost xstr = x@.subrange(sx as int, ix as int);
            let ghost ystr = y@.subrange(sy as int, jy as int);
            proof {
                assert forall|m: int| 0 <= m < sx - i implies #[trigger] xrun[m] == 0x30 by {
                    assert(x@[i + m] == 0x30);
                }
                lemma_digits_val_strip_zeros(xrun, sx - i);
                assert(xrun.skip(sx - i) =~= xstr);
                assert forall|m: int| 0 <= m < sy - j implies #[trigger] yrun[m] == 0x30 by {
                    assert(y@[j + m] == 0x30);
                }
                lemma_digits_val_strip_zeros(yrun, sy - j);
                assert(yrun.skip(sy - j) =~= ystr);
                assert(all_digits(xstr));
                assert(all_digits(ystr));
            }
            let lx = ix - sx;
            let ly = jy - sy;
            if lx < ly {
                proof {
                    lemma_digits_val_upper(xstr);
                    lemma_pow10_mono(xstr.len(), (ystr.len() - 1) as nat);
                    assert(ystr[0] == y@[sy as int]);
                    lemma_digits_val_lower(ystr);
                    assert(verrevcmp(xs, ys) == -1);
                }
                return -1;
            } else if lx > ly {
                proof {
                    lemma_digits_val_upper(ystr);
                    lemma_pow10_mono(ystr.len(), (xstr.len() - 1) as nat);
                    lemma_digits_val_lower(xstr);
                    assert(verrevcmp(xs, ys) == 1);
                }
                return 1;
            } else {
                // same stripped length: first differing digit decides
                let mut k: usize = 0;
                while k < lx && x[sx + k] == y[sy + k]
                    invariant
                        0 <= k <= lx,
                        lx == ly,
                        i <= sx <= ix <= xlen,
                        j <= sy <= jy <= ylen,
                        lx == ix - sx,
                        ly == jy - sy,
                        xlen == x@.len(),
                        ylen == y@.len(),
                        xstr == x@.subrange(sx as int, ix as int),
                        ystr == y@.subrange(sy as int, jy as int),
                        forall|m: int| 0 <= m < k ==> #[trigger] xstr[m] == ystr[m],
                    decreases lx - k,
                {
                    k = k + 1;
                }
                if k < lx {
                    if x[sx + k] < y[sy + k] {
                        proof {
                            lemma_digits_val_lex(xstr, ystr, k as int);
                            assert(verrevcmp(xs, ys) == -1);
                        }
                        return -1;
                    } else {
                        proof {
                            lemma_digits_val_lex(ystr, xstr, k as int);
                            assert(verrevcmp(xs, ys) == 1);
                        }
                        return 1;
                    }
                } else {
                    proof {
                        assert(xstr =~= ystr);
                        assert(digits_val(xrun) == digits_val(yrun));
                        assert(verrevcmp(xs, ys) == verrevcmp(xs.skip(ix - i), ys.skip(jy - j)));
                        assert(xs.skip(ix - i) =~= x@.skip(ix as int));
                        assert(ys.skip(jy - j) =~= y@.skip(jy as int));
                    }
                    i = ix;
                    j = jy;
                }
            }
        }
    }
}

fn exec_upstream_byte(b: u8) -> (r: bool)
    ensures
        r == upstream_byte(b),
{
    exec_is_digit(b) || (0x41 <= b && b <= 0x5a) || (0x61 <= b && b <= 0x7a) || b == 0x2e || b
        == 0x2b || b == 0x2d || b == 0x3a || b == 0x7e
}

fn exec_revision_byte(b: u8) -> (r: bool)
    ensures
        r == revision_byte(b),
{
    exec_is_digit(b) || (0x41 <= b && b <= 0x5a) || (0x61 <= b && b <= 0x7a) || b == 0x2e || b
        == 0x2b || b == 0x7e
}

impl PkgVersion {
    /// Parse `[epoch:]upstream[-revision]` from raw bytes.
    #[verifier::rlimit(60)]
    #[verifier::loop_isolation(false)]
    pub fn parse_bytes(bytes: &Vec<u8>) -> (r: Result<PkgVersion, VersionError>)
        ensures
            match r {
                Ok(v) => spec_parse_version(bytes@) == Some(v@),
                Err(_) => spec_parse_version(bytes@) is None,
            },
    {
        let len = bytes.len();
        // locate the first colon
        let mut c: usize = 0;
        while c < len && bytes[c] != 0x3a
            invariant
                0 <= c <= len,
                len == bytes@.len(),
                forall|m: int| 0 <= m < c ==> #[trigger] bytes@[m] != 0x3a,
            decreases len - c,
        {
            c = c + 1;
        }
        proof {
            lemma_first_colon_char(bytes@, c as int);
        }
        let has_epoch = c < len;
        // epoch value
        let mut epoch: u64 = 0;
        if has_epoch {
            if c == 0 {
                return Err(VersionError::Malformed);
            }
            let mut idx: usize = 0;
            while idx < c
                invariant
                    0 <= idx <= c <= len,
                    len == bytes@.len(),
                    c == first_colon(bytes@),
                    c < len,
                    forall|m: int| 0 <= m < idx ==> is_digit_byte(#[trigger] bytes@[m]),
                    epoch == digits_val(bytes@.take(c as int).take(idx as int)),
                    epoch <= u32::MAX,
                decreases c - idx,
            {
                let d = bytes[idx];
                if !exec_is_digit(d) {
                    proof {
                        assert(!is_digit_byte(epoch_part(bytes@)[idx as int]));
                        assert(!epoch_ok(bytes@));
                    }
                    return Err(VersionError::Malformed);
                }
                proof {
                    let ep = bytes@.take(c as int);
                    assert(ep.take(idx + 1) =~= ep.take(idx as int).push(bytes@[idx as int]));
                    assert forall|m: int| 0 <= m < ep.take(idx as int).len() implies is_digit_byte(
                        #[trigger] ep.take(idx as int)[m],
                    ) by {
                        assert(is_digit_byte(bytes@[m]));
                    }
                    lemma_digits_val_push(ep.take(idx as int), bytes@[idx as int]);
                }
                epoch = epoch * 10 + (d - 0x30) as u64;
                idx = idx + 1;
                if epoch > 0xffff_ffff {
                    proof {
                        let ep = epoch_part(bytes@);
                        assert(ep == bytes@.take(c as int));
                        if all_digits(ep) {
                            lemma_digits_val_prefix_mono(ep, idx as int);
                        }
                        assert(!epoch_ok(bytes@));
                    }
                    return Err(VersionError::Malformed);
                }
            }
            proof {
                assert(bytes@.take(c as int).take(idx as int) =~= bytes@.take(c as int));
                assert forall|m2: int| 0 <= m2 < bytes@.take(c as int).len() implies is_digit_byte(
                    #[trigger] bytes@.take(c as int)[m2],
                ) by {
                    assert(is_digit_byte(bytes@[m2]));
                }
            }
        }
        // the remainder after the epoch
        let r_start: usize = if has_epoch {
            c + 1
        } else {
            0
        };
        let ghost rest = bytes@.skip(r_start as int);
        proof {
            if !has_epoch {
                assert(bytes@.skip(0) =~= bytes@);
            }
            assert(rest == rest_part(bytes@));
            if has_epoch {
                assert(epoch_part(bytes@) == bytes@.take(c as int));
            }
            assert(epoch_ok(bytes@));
        }
        // locate the last hyphen of the remainder
        let mut up_end: usize = len;
        let mut scan: usize = len;
        let mut found = false;
        while scan > r_start && !found
            invariant
                r_start <= scan <= len,
                found ==> r_start <= scan < len && bytes@[scan as int] == 0x2d && up_end == scan,
                found ==> forall|m: int| scan < m < len ==> #[trigger] bytes@[m] != 0x2d,
                !found ==> up_end == len && forall|m: int|
                    scan <= m < len ==> #[trigger] bytes@[m] != 0x2d,
            decreases scan,
        {
            scan = scan - 1;
            if bytes[scan] == 0x2d {
                found = true;
                up_end = scan;
            }
        }
        proof {
            if found {
                assert forall|m: int| up_end - r_start < m < rest.len() implies #[trigger] rest[m]
                    != 0x2d by {
                    assert(bytes@[r_start + m] != 0x2d);
                }
                assert(rest[up_end - r_start] == bytes@[up_end as int]);
                lemma_last_hyphen_char(rest, up_end - r_start);
            } else {
                assert forall|m: int| -1 < m < rest.len() implies #[trigger] rest[m] != 0x2d by {
                    assert(bytes@[r_start + m] != 0x2d);
                }
                lemma_last_hyphen_char(rest, -1);
            }
        }
        // copy and validate the upstream part
        if up_end <= r_start {
            // empty upstream
            return Err(VersionError::Malformed);
        }
        let mut upstream: Vec<u8> = Vec::new();
        let mut m: usize = r_start;
        while m < up_end
            invariant
                r_start <= m <= up_end <= len,
                len == bytes@.len(),
                upstream@ == bytes@.subrange(r_start as int, m as int),
                forall|i: int| 0 <= i < upstream@.len() ==> upstream_byte(#[trigger] upstream@[i]),
            decreases up_end - m,
        {
            let b = bytes[m];
            if !exec_upstream_byte(b) {
                proof {
                    assert(upstream_part(bytes@)[m - r_start] == bytes@[m as int]);
                    assert(!upstream_byte(upstream_part(bytes@)[m - r_start]));
                    assert(spec_parse_version(bytes@) is None);
                }
                return Err(VersionError::Malformed);
            }
            upstream.push(b);
            proof {
                assert(upstream@ =~= bytes@.subrange(r_start as int, m + 1));
            }
            m = m + 1;
        }
        // copy and validate the revision part
        let mut revision: Vec<u8> = Vec::new();
        if found {
            let mut m2: usize = up_end + 1;
            while m2 < len
                invariant
                    up_end + 1 <= m2 <= len,
                    len == bytes@.len(),
                    revision@ == bytes@.subrange(up_end + 1, m2 as int),
                    forall|i: int|
                        0 <= i < revision@.len() ==> revision_byte(#[trigger] revision@[i]),
                decreases len - m2,
            {
                let b = bytes[m2];
                if !exec_revision_byte(b) {
                    proof {
                        assert(revision_part(bytes@)[m2 - (up_end + 1)] == bytes@[m2 as int]);
                        assert(!revision_byte(revision_part(bytes@)[m2 - (up_end + 1)]));
                        assert(spec_parse_version(bytes@) is None);
                    }
                    return Err(VersionError::Malformed);
                }
                revision.push(b);
                proof {
                    assert(revision@ =~= bytes@.subrange(up_end + 1, m2 + 1));
                }
                m2 = m2 + 1;
            }
        }
        let v = PkgVersion { epoch: epoch as u32, upstream, revision };
        proof {
            let h = last_hyphen(rest);
            if found {
                assert(rest.take(h) =~= bytes@.subrange(r_start as int, up_end as int));
                assert(rest.skip(h + 1) =~= bytes@.subrange(up_end + 1, len as int));
                assert(upstream_part(bytes@) == v.upstream@);
                assert(revision_part(bytes@) == v.revision@);
            } else {
                assert(rest =~= bytes@.subrange(r_start as int, up_end as int));
                assert(upstream_part(bytes@) == v.upstream@);
                assert(revision_part(bytes@) =~= v.revision@);
            }
            if has_epoch {
                assert(v@.epoch == digits_val(epoch_part(bytes@)));
            } else {
                assert(epoch_part(bytes@).len() == 0);
                assert(v@.epoch == digits_val(epoch_part(bytes@)));
            }
            assert forall|i: int|
                0 <= i < upstream_part(bytes@).len() implies upstream_byte(
                #[trigger] upstream_part(bytes@)[i],
            ) by {
                assert(upstream_part(bytes@)[i] == v.upstream@[i]);
            }
            assert forall|i: int|
                0 <= i < revision_part(bytes@).len() implies revision_byte(
                #[trigger] revision_part(bytes@)[i],
            ) by {
                assert(revision_part(bytes@)[i] == v.revision@[i]);
            }
            assert(spec_parse_version(bytes@) == Some(v@));
        }
        Ok(v)
    }

    /// Parse a version from a string.
    pub fn try_from(s: &str) -> (r: Result<PkgVersion, VersionError>)
        ensures
            match r {
                Ok(v) => spec_parse_version(s.spec_bytes()) == Some(v@),
                Err(_) => spec_parse_version(s.spec_bytes()) is None,
            },
    {
        let bytes = s.as_bytes_vec();
        Self::parse_bytes(&bytes)
    }
}

/// The canonical written form of a version: the epoch (with its colon)
/// only when non-zero, then the upstream part, then `-revision` when a
/// revision is present.
pub open spec fn spec_render_version(m: VersionModel) -> Seq<u8> {
    (if m.epoch > 0 {
        dec_digits(m.epoch) + seq![0x3au8]
    } else {
        Seq::<u8>::empty()
    }) + m.upstream + (if m.revision.len() > 0 {
        seq![0x2du8] + m.revision
    } else {
        Seq::<u8>::empty()
    })
}

/// The stored parts form a well-formed version.
pub open spec fn wf_version(m: VersionModel) -> bool {
    &&& m.upstream.len() > 0
    &&& forall|i: int| 0 <= i < m.upstream.len() ==> upstream_byte(#[trigger] m.upstream[i])
    &&& forall|i: int| 0 <= i < m.revision.len() ==> revision_byte(#[trigger] m.revision[i])
}

impl PkgVersion {
    /// Write the version in its canonical byte form.
    pub fn to_bytes(&self) -> (r: Vec<u8>)
        ensures
            r@ == spec_render_version(self@),
    {
        let mut out: Vec<u8> = Vec::new();
        if self.epoch > 0 {
            let mut ep = render_u64(self.epoch as u64);
            out.append(&mut ep);
            out.push(0x3a);
        }
        let mut m: usize = 0;
        while m < self.upstream.len()
            invariant
                0 <= m <= self.upstream.len(),
                out@ == (if self@.epoch > 0 {
                    dec_digits(self@.epoch) + seq![0x3au8]
                } else {
                    Seq::<u8>::empty()
                }) + self.upstream@.take(m as int),
            decreases self.upstream.len() - m,
        {
            out.push(self.upstream[m]);
            proof {
                assert(self.upstream@.take(m + 1) =~= self.upstream@.take(m as int).push(
                    self.upstream@[m as int],
                ));
            }
            m = m + 1;
        }
        proof {
            assert(self.upstream@.take(self.upstream@.len() as int) =~= self.upstream@);
        }
        if self.revision.len() > 0 {
            out.push(0x2d);
            let mut m2: usize = 0;
            while m2 < self.revision.len()
                invariant
                    0 <= m2 <= self.revision.len(),
                    out@ == (if self@.epoch > 0 {
                        dec_digits(self@.epoch) + seq![0x3au8]
                    } else {
                        Seq::<u8>::empty()
                    }) + self.upstream@ + seq![0x2du8] + self.revision@.take(m2 as int),
                decreases self.revision.len() - m2,
            {
                out.push(self.revision[m2]);
                proof {
                    assert(self.revision@.take(m2 + 1) =~= self.revision@.take(m2 as int).push(
                        self.revision@[m2 as int],
                    ));
                }
                m2 = m2 + 1;
            }
            proof {
                assert(self.revision@.take(self.revision@.len() as int) =~= self.revision@);
                assert(out@ =~= spec_render_version(self@));
            }
        } else {
            proof {
                assert(out@ =~= spec_render_version(self@));
            }
        }
        out
    }

    /// Write the version in its canonical form as a `String`.
    pub fn to_display_string(&self) -> (r: String)
        requires
            wf_version(self@),
        ensures
            r@ == crate::text::bytes_as_chars(spec_render_version(self@)),
    {
        let bytes = self.to_bytes();
        proof {
            lemma_dec_digits_ascii(self@.epoch);
            assert forall|i: int| 0 <= i < bytes@.len() implies #[trigger] bytes@[i] < 0x80 by {
                let e = if self@.epoch > 0 {
                    dec_digits(self@.epoch) + seq![0x3au8]
                } else {
                    Seq::<u8>::empty()
                };
                if i < e.len() {
                    if i < e.len() - 1 || self@.epoch == 0 {
                        assert(is_digit_byte(dec_digits(self@.epoch)[i]));
                    }
                } else if i < e.len() + self@.upstream.len() {
                    assert(upstream_byte(self@.upstream[i - e.len()]));
                } else if i > e.len() + self@.upstream.len() {
                    assert(revision_byte(self@.revision[i - (e.len() + self@.upstream.len()
                        + 1)]));
                }
            }
        }
        crate::text::ascii_to_string(&bytes)
    }
}

/// Three-way comparison of two versions.
pub fn version_compare(a: &PkgVersion, b: &PkgVersion) -> (r: i32)
    ensures
        r as int == version_cmp(a@, b@),
{
    if a.epoch < b.epoch {
        return -1;
    }
    if a.epoch > b.epoch {
        return 1;
    }
    let u = cmp_bytes(a.upstream.as_slice(), b.upstream.as_slice());
    if u != 0 {
        return u;
    }
    cmp_bytes(a.revision.as_slice(), b.revision.as_slice())
}

impl PartialEq for PkgVersion {
    fn eq(&self, other: &Self) -> (r: bool) {
        version_compare(self, other) == 0
    }
}

impl vstd::std_specs::cmp::PartialEqSpecImpl for PkgVersion {
    open spec fn obeys_eq_spec() -> bool {
        true
    }

    open spec fn eq_spec(&self, other: &Self) -> bool {
        version_cmp(self@, other@) == 0
    }
}

impl PartialOrd for PkgVersion {
    fn partial_cmp(&self, other: &Self) -> (r: Option<core::cmp::Ordering>) {
        let c = version_compare(self, other);
        if c < 0 {
            Some(core::cmp::Ordering::Less)
        } else if c == 0 {
            Some(core::cmp::Ordering::Equal)
        } else {
            Some(core::cmp::Ordering::Greater)
        }
    }
}

impl vstd::std_specs::cmp::PartialOrdSpecImpl for PkgVersion {
    open spec fn obeys_partial_cmp_spec() -> bool {
        true
    }

    open spec fn partial_cmp_spec(&self, other: &Self) -> Option<core::cmp::Ordering> {
        if version_cmp(self@, other@) < 0 {
            Some(core::cmp::Ordering::Less)
        } else if version_cmp(self@, other@) == 0 {
            Some(core::cmp::Ordering::Equal)
        } else {
            Some(core::cmp::Ordering::Greater)
        }
    }
}

/// Model of a version range: optional lower and upper bounds, each with
/// an inclusive flag.
pub struct ReqModel {
    pub lower: Option<(VersionModel, bool)>,
    pub upper: Option<(VersionModel, bool)>,
}

/// The version lies within the range.
pub open spec fn req_within(req: ReqModel, v: VersionModel) -> bool {
    (match req.lower {
        Option::None => true,
        Option::Some((l, incl)) => if incl {
            version_cmp(l, v) <= 0
        } else {
            version_cmp(l, v) < 0
        },
    }) && (match req.upper {
        Option::None => true,
        Option::Some((u, incl)) => if incl {
            version_cmp(v, u) <= 0
        } else {
            version_cmp(v, u) < 0
        },
    })
}

/// A version range predicate; missing bounds mean unbounded.
pub struct VersionRequirement {
    pub lower_bond: Option<(PkgVersion, bool)>,
    pub upper_bond: Option<(PkgVersion, bool)>,
}

impl View for VersionRequirement {
    type V = ReqModel;

    open spec fn view(&self) -> ReqModel {
        ReqModel {
            lower: match self.lower_bond {
                Option::None => Option::None,
                Option::Some((l, incl)) => Option::Some((l@, incl)),
            },
            upper: match self.upper_bond {
                Option::None => Option::None,
                Option::Some((u, incl)) => Option::Some((u@, incl)),
            },
        }
    }
}

impl Clone for VersionRequirement {
    fn clone(&self) -> (res: Self)
        ensures
            res@ == self@,
    {
        VersionRequirement {
            lower_bond: match &self.lower_bond {
                Option::None => Option::None,
                Option::Some((l, incl)) => Option::Some((l.clone(), *incl)),
            },
            upper_bond: match &self.upper_bond {
                Option::None => Option::None,
                Option::Some((u, incl)) => Option::Some((u.clone(), *incl)),
            },
        }
    }
}

impl VersionRequirement {
    /// The unconstrained requirement, accepting every version.
    pub fn any() -> (r: VersionRequirement)
        ensures
            r@.lower is None,
            r@.upper is None,
    {
        VersionRequirement { lower_bond: Option::None, upper_bond: Option::None }
    }

    /// Does `v` satisfy this requirement?
    pub fn within(&self, v: &PkgVersion) -> (r: bool)
        ensures
            r == req_within(self@, v@),
    {
        let lower_ok = match &self.lower_bond {
            Option::None => true,
            Option::Some((l, incl)) => {
                let c = version_compare(l, v);
                if *incl {
                    c <= 0
                } else {
                    c < 0
                }
            },
        };
        let upper_ok = match &self.upper_bond {
            Option::None => true,
            Option::Some((u, incl)) => {
                let c = version_compare(v, u);
                if *incl {
                    c <= 0
                } else {
                    c < 0
                }
            },
        };
        lower_ok && upper_ok
    }
}

} // verus!
