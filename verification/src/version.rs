//! Semantic versions: the model, the parser boundary, and the text
//! normalizations applied before parsing.
//!
//! Both upstream sources hand back version text in their own dress: the
//! community index appends a distribution suffix after a hyphen (`2.3.1-1`),
//! the code host wraps the version in a release tag (`release-v2.3.1`). The
//! helpers here reduce either to plain `major.minor.patch` text; the actual
//! grammar is the semver crate's and stays behind one trusted call.

use vstd::prelude::*;

use crate::bytes::split_on;
use crate::error::Error;

verus! {

/// An ASCII digit.
pub open spec fn digit(c: u8) -> bool {
    48 <= c <= 57
}

/// A byte that may appear in plain version text: a digit or a dot.
pub open spec fn version_text_byte(c: u8) -> bool {
    digit(c) || c == 46
}

/// The filter that keeps version text and drops everything else.
pub open spec fn version_text_filter() -> spec_fn(u8) -> bool {
    |c: u8| version_text_byte(c)
}

/// A parsed semantic version. `pre` is the pre-release text, empty for an
/// ordinary release; build metadata never takes part in precedence and is
/// dropped at the parser boundary.
#[derive(Debug)]
pub struct SemanticVersion {
    pub major: u64,
    pub minor: u64,
    pub patch: u64,
    pub pre: Vec<u8>,
}

/// The mathematical image of a `SemanticVersion`.
pub ghost struct SemVer {
    pub major: u64,
    pub minor: u64,
    pub patch: u64,
    pub pre: Seq<u8>,
}

impl View for SemanticVersion {
    type V = SemVer;

    open spec fn view(&self) -> SemVer {
        SemVer { major: self.major, minor: self.minor, patch: self.patch, pre: self.pre@ }
    }
}

/// What `semver::Version::parse` yields on the given text: the three numbers
/// and the pre-release identifiers, or nothing when the text is not a valid
/// semantic version. The grammar itself is the semver crate's; nothing here
/// restates it.
pub uninterp spec fn semver_parse(s: Seq<u8>) -> Option<SemVer>;

/// Relies on semver::Version::parse: the result is a function of the text
/// alone; major, minor, patch and the pre-release identifiers are returned,
/// build metadata (which never affects precedence) is dropped.
#[verifier::external_body]
fn semver_parse_call(s: &[u8]) -> (r: Option<SemanticVersion>)
    ensures
        match r {
            Some(v) => semver_parse(s@) == Some(v@),
            None => semver_parse(s@) is None,
        },
{
    let text = match core::str::from_utf8(s) {
        Ok(t) => t,
        Err(_) => return None,
    };
    match semver::Version::parse(text) {
        Ok(v) => Some(
            SemanticVersion {
                major: v.major,
                minor: v.minor,
                patch: v.patch,
                pre: v.pre.as_str().as_bytes().to_vec(),
            },
        ),
        Err(_) => None,
    }
}

/// ASCII order on identifier text, the semver rule for identifiers that are
/// not both numeric: a proper prefix precedes, otherwise the first differing
/// byte decides.
pub open spec fn lex_lt(a: Seq<u8>, b: Seq<u8>) -> bool
    decreases a.len(),
{
    if b.len() == 0 {
        false
    } else if a.len() == 0 {
        true
    } else if a[0] < b[0] {
        true
    } else if a[0] > b[0] {
        false
    } else {
        lex_lt(a.skip(1), b.skip(1))
    }
}

/// A numeric identifier: nonempty, digits only.
pub open spec fn is_num(s: Seq<u8>) -> bool {
    s.len() > 0 && forall|i: int| 0 <= i < s.len() ==> digit(#[trigger] s[i])
}

/// Ten to the `n`.
pub open spec fn pow10(n: nat) -> nat
    decreases n,
{
    if n == 0 {
        1
    } else {
        10 * pow10((n - 1) as nat)
    }
}

/// The number a digit string denotes, most significant digit first.
pub open spec fn num_val(s: Seq<u8>) -> int
    decreases s.len(),
{
    if s.len() == 0 {
        0
    } else {
        (s[0] - 48) * pow10((s.len() - 1) as nat) + num_val(s.skip(1))
    }
}

/// Semver precedence on single pre-release identifiers: numeric identifiers
/// compare by value, a numeric identifier precedes any alphanumeric one, and
/// alphanumeric identifiers compare in ASCII order.
pub open spec fn ident_lt(a: Seq<u8>, b: Seq<u8>) -> bool {
    if is_num(a) && is_num(b) {
        num_val(a) < num_val(b)
    } else if is_num(a) && !is_num(b) {
        true
    } else if !is_num(a) && is_num(b) {
        false
    } else {
        lex_lt(a, b)
    }
}

/// Lexicographic order on identifier lists: a proper prefix precedes, and
/// otherwise the first position where the lists differ decides by
/// `ident_lt`.
pub open spec fn ids_lt(x: Seq<Seq<u8>>, y: Seq<Seq<u8>>) -> bool {
    ||| (x.len() < y.len() && x == y.subrange(0, x.len() as int))
    ||| exists|i: int|
        0 <= i < x.len() && i < y.len() && x.subrange(0, i) == y.subrange(0, i) && #[trigger] ident_lt(
            x[i],
            y[i],
        )
}

/// Semver precedence on pre-release text: any pre-release precedes the plain
/// release, and two pre-releases compare by their dot-separated identifier
/// lists.
pub open spec fn pre_lt(a: Seq<u8>, b: Seq<u8>) -> bool {
    if b.len() == 0 {
        a.len() > 0
    } else if a.len() == 0 {
        false
    } else {
        ids_lt(split_on(a, 46), split_on(b, 46))
    }
}

/// Standard semver precedence: major, minor and patch compare numerically,
/// and on a tie the pre-release text decides, a pre-release ranking below the
/// plain release.
pub open spec fn precedes(a: SemVer, b: SemVer) -> bool {
    ||| a.major < b.major
    ||| (a.major == b.major && a.minor < b.minor)
    ||| (a.major == b.major && a.minor == b.minor && a.patch < b.patch)
    ||| (a.major == b.major && a.minor == b.minor && a.patch == b.patch && pre_lt(a.pre, b.pre))
}

pub proof fn lemma_lex_lt_irrefl(a: Seq<u8>)
    ensures
        !lex_lt(a, a),
    decreases a.len(),
{
    if a.len() > 0 {
        lemma_lex_lt_irrefl(a.skip(1));
    }
}

pub proof fn lemma_ident_lt_irrefl(a: Seq<u8>)
    ensures
        !ident_lt(a, a),
{
    lemma_lex_lt_irrefl(a);
}

/// ASCII order on byte text is transitive.
pub proof fn lemma_lex_lt_trans(a: Seq<u8>, b: Seq<u8>, c: Seq<u8>)
    requires
        lex_lt(a, b),
        lex_lt(b, c),
    ensures
        lex_lt(a, c),
    decreases a.len(),
{
    if a.len() > 0 && b.len() > 0 && c.len() > 0 {
        if a[0] == b[0] && b[0] == c[0] {
            lemma_lex_lt_trans(a.skip(1), b.skip(1), c.skip(1));
        }
    }
}

proof fn lemma_pow10_pos(n: nat)
    ensures
        pow10(n) >= 1,
    decreases n,
{
    if n > 0 {
        lemma_pow10_pos((n - 1) as nat);
    }
}

proof fn lemma_pow10_mono(m: nat, n: nat)
    requires
        m <= n,
    ensures
        pow10(m) <= pow10(n),
    decreases n,
{
    if m < n {
        lemma_pow10_mono(m, (n - 1) as nat);
        lemma_pow10_pos((n - 1) as nat);
    }
}

/// A digit string of length `n` denotes a value in `[0, 10^n)`.
proof fn lemma_num_val_bounds(s: Seq<u8>)
    requires
        forall|i: int| 0 <= i < s.len() ==> digit(#[trigger] s[i]),
    ensures
        0 <= num_val(s) < pow10(s.len() as nat),
    decreases s.len(),
{
    if s.len() > 0 {
        lemma_num_val_bounds(s.skip(1));
        let p = pow10((s.len() - 1) as nat);
        let d = s[0] - 48;
        lemma_pow10_pos((s.len() - 1) as nat);
        assert(0 <= d <= 9);
        assert(d * p <= 9 * p) by (nonlinear_arith)
            requires 0 <= d <= 9 && p >= 1
        ;
        assert(d * p >= 0) by (nonlinear_arith)
            requires d >= 0 && p >= 1
        ;
        assert(num_val(s) < 9 * p + p);
        assert(9 * p + p == 10 * p);
    }
}

/// A digit string without a leading zero denotes at least `10^(n-1)`.
proof fn lemma_num_val_lower(s: Seq<u8>)
    requires
        forall|i: int| 0 <= i < s.len() ==> digit(#[trigger] s[i]),
        s.len() > 0,
        s[0] != 48,
    ensures
        num_val(s) >= pow10((s.len() - 1) as nat),
{
    lemma_num_val_bounds(s.skip(1));
    let p = pow10((s.len() - 1) as nat);
    let d = s[0] - 48;
    lemma_pow10_pos((s.len() - 1) as nat);
    assert(d >= 1);
    assert(d * p >= p) by (nonlinear_arith)
        requires d >= 1 && p >= 1
    ;
}

/// Leading zeros do not change the denoted value.
proof fn lemma_num_val_strip(s: Seq<u8>)
    ensures
        num_val(crate::bytes::strip_leading(s, 48)) == num_val(s),
    decreases s.len(),
{
    if s.len() > 0 && s[0] == 48 {
        lemma_num_val_strip(s.skip(1));
    }
}

/// Stripping a leading byte yields a suffix whose head, if any, differs from
/// the stripped byte.
proof fn lemma_strip_leading_shape(s: Seq<u8>, c: u8)
    ensures
        exists|k: int|
            0 <= k <= s.len() && crate::bytes::strip_leading(s, c) == #[trigger] s.skip(k),
        crate::bytes::strip_leading(s, c).len() == 0 || crate::bytes::strip_leading(s, c)[0] != c,
    decreases s.len(),
{
    if s.len() > 0 && s[0] == c {
        lemma_strip_leading_shape(s.skip(1), c);
        let k = choose|k: int|
            0 <= k <= s.skip(1).len() && crate::bytes::strip_leading(s.skip(1), c) == #[trigger] s
                .skip(1).skip(k);
        assert(s.skip(1).skip(k) =~= s.skip(k + 1));
        assert(crate::bytes::strip_leading(s, c) == s.skip(k + 1));
    } else {
        assert(s.skip(0) =~= s);
        assert(crate::bytes::strip_leading(s, c) == s.skip(0));
    }
}

/// On equal-length digit strings, numeric order and ASCII order agree.
proof fn lemma_num_lex(a: Seq<u8>, b: Seq<u8>)
    requires
        a.len() == b.len(),
        forall|i: int| 0 <= i < a.len() ==> digit(#[trigger] a[i]),
        forall|i: int| 0 <= i < b.len() ==> digit(#[trigger] b[i]),
    ensures
        (num_val(a) < num_val(b)) <==> lex_lt(a, b),
    decreases a.len(),
{
    if a.len() == 0 {
    } else {
        let p = pow10((a.len() - 1) as nat);
        lemma_pow10_pos((a.len() - 1) as nat);
        lemma_num_val_bounds(a.skip(1));
        lemma_num_val_bounds(b.skip(1));
        if a[0] == b[0] {
            lemma_num_lex(a.skip(1), b.skip(1));
        } else if a[0] < b[0] {
            let da = a[0] - 48;
            let db = b[0] - 48;
            assert(da + 1 <= db);
            assert((da + 1) * p <= db * p) by (nonlinear_arith)
                requires da + 1 <= db && p >= 1
            ;
            assert((da + 1) * p == da * p + p) by (nonlinear_arith);
            assert(num_val(a) < da * p + p);
            assert(db * p <= num_val(b));
        } else {
            let da = a[0] - 48;
            let db = b[0] - 48;
            assert(db + 1 <= da);
            assert((db + 1) * p <= da * p) by (nonlinear_arith)
                requires db + 1 <= da && p >= 1
            ;
            assert((db + 1) * p == db * p + p) by (nonlinear_arith);
            assert(num_val(b) < db * p + p);
            assert(da * p <= num_val(a));
        }
    }
}

/// ASCII order, byte for byte.
pub fn lex_lt_bytes(a: &[u8], b: &[u8]) -> (r: bool)
    ensures
        r == lex_lt(a@, b@),
{
    let mut i: usize = 0;
    proof {
        assert(a@.skip(0) =~= a@);
        assert(b@.skip(0) =~= b@);
    }
    while i < a.len() && i < b.len()
        invariant
            i <= a.len(),
            i <= b.len(),
            lex_lt(a@, b@) == lex_lt(a@.skip(i as int), b@.skip(i as int)),
        decreases a.len() - i,
    {
        let x = a[i];
        let y = b[i];
        proof {
            assert(a@.skip(i as int)[0] == a@[i as int]);
            assert(b@.skip(i as int)[0] == b@[i as int]);
        }
        if x < y {
            return true;
        }
        if x > y {
            return false;
        }
        proof {
            assert(a@.skip(i as int).skip(1) =~= a@.skip(i + 1));
            assert(b@.skip(i as int).skip(1) =~= b@.skip(i + 1));
        }
        i = i + 1;
    }
    a.len() < b.len()
}

/// Is this identifier numeric (nonempty digits)?
fn is_num_bytes(s: &[u8]) -> (r: bool)
    ensures
        r == is_num(s@),
{
    if s.len() == 0 {
        return false;
    }
    let mut i: usize = 0;
    while i < s.len()
        invariant
            i <= s.len(),
            s@.len() > 0,
            forall|j: int| 0 <= j < i ==> digit(#[trigger] s@[j]),
        decreases s.len() - i,
    {
        let c = s[i];
        if c < 48 || c > 57 {
            return false;
        }
        i = i + 1;
    }
    true
}

/// Numeric comparison of two digit strings of any length: strip leading
/// zeros, then a shorter string denotes less, and equal lengths compare in
/// ASCII order.
fn num_lt_bytes(a: &[u8], b: &[u8]) -> (r: bool)
    requires
        is_num(a@),
        is_num(b@),
    ensures
        r == (num_val(a@) < num_val(b@)),
{
    let sa = crate::bytes::strip_leading_bytes(a, 48);
    let sb = crate::bytes::strip_leading_bytes(b, 48);
    proof {
        lemma_num_val_strip(a@);
        lemma_num_val_strip(b@);
        lemma_strip_leading_shape(a@, 48);
        lemma_strip_leading_shape(b@, 48);
        let ka = choose|k: int| 0 <= k <= a@.len() && sa@ == #[trigger] a@.skip(k);
        let kb = choose|k: int| 0 <= k <= b@.len() && sb@ == #[trigger] b@.skip(k);
        assert(forall|i: int| 0 <= i < sa@.len() ==> digit(#[trigger] sa@[i]));
        assert(forall|i: int| 0 <= i < sb@.len() ==> digit(#[trigger] sb@[i]));
    }
    if sa.len() < sb.len() {
        proof {
            lemma_num_val_bounds(sa@);
            lemma_num_val_lower(sb@);
            lemma_pow10_mono(sa@.len() as nat, (sb@.len() - 1) as nat);
        }
        true
    } else if sa.len() > sb.len() {
        proof {
            lemma_num_val_bounds(sb@);
            lemma_num_val_lower(sa@);
            lemma_pow10_mono(sb@.len() as nat, (sa@.len() - 1) as nat);
        }
        false
    } else {
        proof {
            lemma_num_lex(sa@, sb@);
        }
        lex_lt_bytes(sa.as_slice(), sb.as_slice())
    }
}

/// Precedence on single identifiers.
fn ident_lt_bytes(a: &[u8], b: &[u8]) -> (r: bool)
    ensures
        r == ident_lt(a@, b@),
{
    let na = is_num_bytes(a);
    let nb = is_num_bytes(b);
    if na && nb {
        num_lt_bytes(a, b)
    } else if na {
        true
    } else if nb {
        false
    } else {
        lex_lt_bytes(a, b)
    }
}

/// Precedence on identifier lists.
fn ids_lt_vecs(xs: &Vec<Vec<u8>>, ys: &Vec<Vec<u8>>) -> (r: bool)
    ensures
        r == ids_lt(xs.deep_view(), ys.deep_view()),
{
    let ghost x = xs.deep_view();
    let ghost y = ys.deep_view();
    proof {
        assert(x.len() == xs@.len());
        assert(y.len() == ys@.len());
    }
    let mut i: usize = 0;
    while i < xs.len() && i < ys.len()
        invariant
            i <= xs.len(),
            i <= ys.len(),
            x == xs.deep_view(),
            y == ys.deep_view(),
            x.len() == xs@.len(),
            y.len() == ys@.len(),
            forall|j: int| 0 <= j < i ==> x[j] == y[j],
        decreases xs.len() - i,
    {
        proof {
            assert(x[i as int] == xs@[i as int]@);
            assert(y[i as int] == ys@[i as int]@);
        }
        if !crate::bytes::bytes_eq(xs[i].as_slice(), ys[i].as_slice()) {
            let r = ident_lt_bytes(xs[i].as_slice(), ys[i].as_slice());
            proof {
                if r {
                    assert(x.subrange(0, i as int) =~= y.subrange(0, i as int));
                    assert(ids_lt(x, y));
                } else {
                    assert forall|k: int|
                        !(0 <= k < x.len() && k < y.len() && x.subrange(0, k) == y.subrange(0, k)
                            && #[trigger] ident_lt(x[k], y[k])) by {
                        if 0 <= k < x.len() && k < y.len() && x.subrange(0, k) == y.subrange(
                            0,
                            k,
                        ) {
                            if k < i {
                                lemma_ident_lt_irrefl(x[k]);
                            } else if k == i {
                            } else {
                                assert(x.subrange(0, k)[i as int] == y.subrange(0, k)[i as int]);
                                assert(false);
                            }
                        }
                    }
                    if x.len() < y.len() && x == y.subrange(0, x.len() as int) {
                        assert(x[i as int] == y.subrange(0, x.len() as int)[i as int]);
                        assert(false);
                    }
                }
            }
            return r;
        }
        i = i + 1;
    }
    if xs.len() < ys.len() {
        proof {
            assert(x =~= y.subrange(0, x.len() as int));
        }
        true
    } else {
        proof {
            assert forall|k: int|
                !(0 <= k < x.len() && k < y.len() && x.subrange(0, k) == y.subrange(0, k)
                    && #[trigger] ident_lt(x[k], y[k])) by {
                if 0 <= k < x.len() && k < y.len() {
                    lemma_ident_lt_irrefl(x[k]);
                }
            }
        }
        false
    }
}

/// Precedence on pre-release text.
fn pre_lt_bytes(a: &[u8], b: &[u8]) -> (r: bool)
    ensures
        r == pre_lt(a@, b@),
{
    if b.len() == 0 {
        return a.len() > 0;
    }
    if a.len() == 0 {
        return false;
    }
    let xs = crate::bytes::split_bytes(a, 46);
    let ys = crate::bytes::split_bytes(b, 46);
    ids_lt_vecs(&xs, &ys)
}

impl SemanticVersion {
    /// Standard semver precedence: true exactly when `self` precedes
    /// `other`, so an installed `self` is stale against a published `other`.
    pub fn is_older_than(&self, other: &SemanticVersion) -> (r: bool)
        ensures
            r == precedes(self@, other@),
    {
        if self.major != other.major {
            return self.major < other.major;
        }
        if self.minor != other.minor {
            return self.minor < other.minor;
        }
        if self.patch != other.patch {
            return self.patch < other.patch;
        }
        pre_lt_bytes(self.pre.as_slice(), other.pre.as_slice())
    }
}


/// The decimal digits of a nonnegative number, most significant first.
pub open spec fn dec_of(n: int) -> Seq<u8>
    decreases n,
{
    if n < 0 {
        Seq::empty()
    } else if n < 10 {
        seq![(48 + n) as u8]
    } else {
        dec_of(n / 10).push((48 + n % 10) as u8)
    }
}

/// Decimal digits are digits, and there is at least one.
pub proof fn lemma_dec_of_digits(n: int)
    requires
        n >= 0,
    ensures
        dec_of(n).len() > 0,
        forall|i: int| 0 <= i < dec_of(n).len() ==> digit(#[trigger] dec_of(n)[i]),
    decreases n,
{
    if n >= 10 {
        lemma_dec_of_digits(n / 10);
    }
}

/// Append the decimal digits of `n`.
fn push_decimal(out: &mut Vec<u8>, n: u64)
    ensures
        final(out)@ == old(out)@ + dec_of(n as int),
    decreases n,
{
    if n < 10 {
        out.push(48 + n as u8);
        proof {
            assert(old(out)@ + dec_of(n as int) =~= old(out)@.push((48 + n as int) as u8));
        }
    } else {
        push_decimal(out, n / 10);
        out.push(48 + (n % 10) as u8);
        proof {
            assert(old(out)@ + dec_of(n as int) =~= (old(out)@ + dec_of(n as int / 10)).push(
                (48 + n as int % 10) as u8,
            ));
        }
    }
}

/// The canonical `major.minor.patch` text of a version; pre-release text
/// takes no part, the on-disk encoding carries the numbers alone.
pub open spec fn rendered(v: SemVer) -> Seq<u8> {
    dec_of(v.major as int) + seq![46u8] + dec_of(v.minor as int) + seq![46u8] + dec_of(
        v.patch as int,
    )
}

/// The canonical version text is fit for a file name: nonempty digits and
/// dots.
pub proof fn lemma_rendered_version_text(v: SemVer)
    ensures
        rendered(v).len() > 0,
        forall|i: int| 0 <= i < rendered(v).len() ==> version_text_byte(#[trigger] rendered(v)[i]),
{
    lemma_dec_of_digits(v.major as int);
    lemma_dec_of_digits(v.minor as int);
    lemma_dec_of_digits(v.patch as int);
}

impl SemanticVersion {
    /// Render the canonical `major.minor.patch` text.
    pub fn text(&self) -> (r: Vec<u8>)
        ensures
            r@ == rendered(self@),
    {
        let mut r: Vec<u8> = Vec::new();
        push_decimal(&mut r, self.major);
        r.push(46);
        push_decimal(&mut r, self.minor);
        r.push(46);
        push_decimal(&mut r, self.patch);
        proof {
            assert(r@ =~= rendered(self@));
        }
        r
    }
}

/// The text before the first occurrence of `d`; all of `s` when `d` does not
/// occur.
pub open spec fn before_delim(s: Seq<u8>, d: u8) -> Seq<u8>
    decreases s.len(),
{
    if s.len() == 0 {
        Seq::empty()
    } else if s[0] == d {
        Seq::empty()
    } else {
        seq![s[0]] + before_delim(s.skip(1), d)
    }
}

/// `before_delim` is the prefix up to the first delimiter.
proof fn lemma_before_delim_prefix(s: Seq<u8>, d: u8, i: int)
    requires
        0 <= i <= s.len(),
        forall|j: int| 0 <= j < i ==> s[j] != d,
        i == s.len() || s[i] == d,
    ensures
        before_delim(s, d) == s.subrange(0, i),
    decreases s.len(),
{
    if s.len() == 0 {
        assert(before_delim(s, d) =~= s.subrange(0, 0));
    } else if i == 0 {
        assert(before_delim(s, d) =~= s.subrange(0, 0));
    } else {
        lemma_before_delim_prefix(s.skip(1), d, i - 1);
        assert(s.skip(1).subrange(0, i - 1) =~= s.subrange(1, i));
        assert(seq![s[0]] + s.subrange(1, i) =~= s.subrange(0, i));
    }
}

/// Copy the text before the first occurrence of `d`.
pub fn take_before_delim(s: &[u8], d: u8) -> (r: Vec<u8>)
    ensures
        r@ == before_delim(s@, d),
{
    let mut r: Vec<u8> = Vec::new();
    let mut i: usize = 0;
    while i < s.len() && s[i] != d
        invariant
            i <= s.len(),
            forall|j: int| 0 <= j < i ==> s@[j] != d,
            r@ == s@.subrange(0, i as int),
        decreases s.len() - i,
    {
        r.push(s[i]);
        proof {
            assert(s@.subrange(0, i + 1) =~= s@.subrange(0, i as int).push(s@[i as int]));
        }
        i = i + 1;
    }
    proof {
        lemma_before_delim_prefix(s@, d, i as int);
    }
    r
}

/// Keep only digits and dots, in order.
pub fn keep_version_text(s: &[u8]) -> (r: Vec<u8>)
    ensures
        r@ == s@.filter(version_text_filter()),
{
    let mut r: Vec<u8> = Vec::new();
    let mut i: usize = 0;
    proof {
        reveal(Seq::filter);
        assert(s@.subrange(0, 0).filter(version_text_filter()) =~= Seq::<u8>::empty());
    }
    while i < s.len()
        invariant
            i <= s.len(),
            r@ == s@.subrange(0, i as int).filter(version_text_filter()),
        decreases s.len() - i,
    {
        let c = s[i];
        proof {
            reveal(Seq::filter);
            let prev = s@.subrange(0, i as int);
            assert(s@.subrange(0, i + 1).drop_last() =~= prev);
            assert(s@.subrange(0, i + 1).last() == s@[i as int]);
        }
        if (48 <= c && c <= 57) || c == 46 {
            r.push(c);
        }
        i = i + 1;
    }
    proof {
        assert(s@.subrange(0, s@.len() as int) =~= s@);
    }
    r
}

/// The community index reports `pkgver-pkgrel`; the version is the text
/// before the first hyphen.
pub open spec fn distribution_stripped(s: Seq<u8>) -> Seq<u8> {
    before_delim(s, 45)
}

/// The code-host version is read from the release tag with every byte that is
/// neither a digit nor a dot dropped.
pub open spec fn tag_stripped(s: Seq<u8>) -> Seq<u8> {
    s.filter(version_text_filter())
}

/// Parse a community-index version field: strip the distribution suffix after
/// the first hyphen, then parse the remainder as a semantic version.
pub fn parse_index_version(s: &[u8]) -> (r: Result<SemanticVersion, Error>)
    ensures
        match r {
            Ok(v) => semver_parse(distribution_stripped(s@)) == Some(v@),
            Err(e) => semver_parse(distribution_stripped(s@)) is None && e
                == Error::ParseFailure,
        },
{
    let plain = take_before_delim(s, 45);
    match semver_parse_call(plain.as_slice()) {
        Some(v) => Ok(v),
        None => Err(Error::ParseFailure),
    }
}

/// Parse a code-host release tag: drop every byte that is neither a digit nor
/// a dot, then parse the remainder, so tags like `release-v2.3.1` still
/// yield `2.3.1`.
pub fn parse_release_tag(s: &[u8]) -> (r: Result<SemanticVersion, Error>)
    ensures
        match r {
            Ok(v) => semver_parse(tag_stripped(s@)) == Some(v@),
            Err(e) => semver_parse(tag_stripped(s@)) is None && e == Error::ParseFailure,
        },
{
    let plain = keep_version_text(s);
    match semver_parse_call(plain.as_slice()) {
        Some(v) => Ok(v),
        None => Err(Error::ParseFailure),
    }
}

/// Parse the version segment of an installed file name (already free of its
/// leading `v`).
pub fn parse_installed_version(s: &[u8]) -> (r: Result<SemanticVersion, Error>)
    ensures
        match r {
            Ok(v) => semver_parse(s@) == Some(v@),
            Err(e) => semver_parse(s@) is None && e == Error::ParseFailure,
        },
{
    match semver_parse_call(s) {
        Some(v) => Ok(v),
        None => Err(Error::ParseFailure),
    }
}

} // verus!
