//! Semantic versions and their precedence order: numeric comparison of
//! major, minor and patch; a pre-release sorts below the corresponding
//! release; pre-release identifiers compare dot-by-dot, numeric identifiers
//! before alphanumeric ones; build metadata never affects the order.
use vstd::prelude::*;

verus! {

use crate::bytes::{lex_lt, lemma_lex_trichotomy, lemma_lex_asym, lemma_lex_trans};

/// A parsed semantic version. `pre` and `build` hold the pre-release and
/// build-metadata text, empty when absent.
#[derive(Debug)]
pub struct Version {
    pub major: u64,
    pub minor: u64,
    pub patch: u64,
    pub pre: Vec<u8>,
    pub build: Vec<u8>,
}

pub ghost struct VersionView {
    pub major: u64,
    pub minor: u64,
    pub patch: u64,
    pub pre: Seq<u8>,
    pub build: Seq<u8>,
}

impl View for Version {
    type V = VersionView;

    open spec fn view(&self) -> VersionView {
        VersionView {
            major: self.major,
            minor: self.minor,
            patch: self.patch,
            pre: self.pre@,
            build: self.build@,
        }
    }
}

pub open spec fn is_digit(b: u8) -> bool {
    48 <= b <= 57
}

/// A numeric identifier consists of digits only.
pub open spec fn is_numeric_ident(s: Seq<u8>) -> bool {
    forall|i: int| 0 <= i < s.len() ==> is_digit(#[trigger] s[i])
}

/// Numeric order on digit strings without leading zeros: a shorter string
/// is a smaller number; equal lengths compare digit by digit.
pub open spec fn num_lt(a: Seq<u8>, b: Seq<u8>) -> bool {
    a.len() < b.len() || (a.len() == b.len() && lex_lt(a, b))
}

/// Order on single pre-release identifiers: numeric identifiers compare
/// numerically and sort before alphanumeric ones, which compare by bytes.
pub open spec fn ident_lt(a: Seq<u8>, b: Seq<u8>) -> bool {
    if is_numeric_ident(a) && is_numeric_ident(b) {
        num_lt(a, b)
    } else if is_numeric_ident(a) {
        true
    } else if is_numeric_ident(b) {
        false
    } else {
        lex_lt(a, b)
    }
}

/// Order on dot-separated identifier lists: identifier by identifier, a
/// shorter list that is a prefix of the other comes first.
pub open spec fn idents_lt(a: Seq<Seq<u8>>, b: Seq<Seq<u8>>) -> bool
    decreases a.len(),
{
    if b.len() == 0 {
        false
    } else if a.len() == 0 {
        true
    } else if ident_lt(a[0], b[0]) {
        true
    } else if ident_lt(b[0], a[0]) {
        false
    } else {
        idents_lt(a.drop_first(), b.drop_first())
    }
}

/// The identifiers of a pre-release string, split on `.` (byte 46).
pub open spec fn split_dot(s: Seq<u8>) -> Seq<Seq<u8>>
    decreases s.len(),
{
    if s.len() == 0 {
        seq![Seq::<u8>::empty()]
    } else if s[0] == 46 {
        seq![Seq::<u8>::empty()] + split_dot(s.drop_first())
    } else {
        let r = split_dot(s.drop_first());
        seq![seq![s[0]] + r[0]] + r.drop_first()
    }
}

/// Order on pre-release strings: an empty string means a release, which
/// sorts above every pre-release.
pub open spec fn pre_lt(a: Seq<u8>, b: Seq<u8>) -> bool {
    if a.len() == 0 {
        false
    } else if b.len() == 0 {
        true
    } else {
        idents_lt(split_dot(a), split_dot(b))
    }
}

/// Pre-release strings that compare as equal.
pub open spec fn pre_eq(a: Seq<u8>, b: Seq<u8>) -> bool {
    (a.len() == 0) == (b.len() == 0) && split_dot(a) == split_dot(b)
}

/// Strict semantic-versioning precedence.
pub open spec fn version_lt(a: VersionView, b: VersionView) -> bool {
    if a.major != b.major {
        a.major < b.major
    } else if a.minor != b.minor {
        a.minor < b.minor
    } else if a.patch != b.patch {
        a.patch < b.patch
    } else {
        pre_lt(a.pre, b.pre)
    }
}

/// Versions of equal precedence: build metadata is ignored.
pub open spec fn version_ord_eq(a: VersionView, b: VersionView) -> bool {
    a.major == b.major && a.minor == b.minor && a.patch == b.patch && pre_eq(a.pre, b.pre)
}

pub open spec fn version_le(a: VersionView, b: VersionView) -> bool {
    version_lt(a, b) || version_ord_eq(a, b)
}

pub proof fn lemma_num_trichotomy(a: Seq<u8>, b: Seq<u8>)
    ensures
        num_lt(a, b) || num_lt(b, a) || a == b,
{
    if a.len() == b.len() {
        lemma_lex_trichotomy(a, b);
    }
}

pub proof fn lemma_num_asym(a: Seq<u8>, b: Seq<u8>)
    requires
        num_lt(a, b),
    ensures
        !num_lt(b, a),
        a != b,
{
    if a.len() == b.len() {
        lemma_lex_asym(a, b);
    }
}

pub proof fn lemma_num_trans(a: Seq<u8>, b: Seq<u8>, c: Seq<u8>)
    requires
        num_lt(a, b),
        num_lt(b, c),
    ensures
        num_lt(a, c),
{
    if a.len() == b.len() && b.len() == c.len() {
        lemma_lex_trans(a, b, c);
    }
}

pub proof fn lemma_ident_trichotomy(a: Seq<u8>, b: Seq<u8>)
    ensures
        ident_lt(a, b) || ident_lt(b, a) || a == b,
{
    if is_numeric_ident(a) && is_numeric_ident(b) {
        lemma_num_trichotomy(a, b);
    } else if !is_numeric_ident(a) && !is_numeric_ident(b) {
        lemma_lex_trichotomy(a, b);
    }
}

pub proof fn lemma_ident_asym(a: Seq<u8>, b: Seq<u8>)
    requires
        ident_lt(a, b),
    ensures
        !ident_lt(b, a),
        a != b,
{
    if is_numeric_ident(a) && is_numeric_ident(b) {
        lemma_num_asym(a, b);
    } else if !is_numeric_ident(a) && !is_numeric_ident(b) {
        lemma_lex_asym(a, b);
    }
}

pub proof fn lemma_ident_trans(a: Seq<u8>, b: Seq<u8>, c: Seq<u8>)
    requires
        ident_lt(a, b),
        ident_lt(b, c),
    ensures
        ident_lt(a, c),
{
    if is_numeric_ident(a) && is_numeric_ident(b) && is_numeric_ident(c) {
        lemma_num_trans(a, b, c);
    } else if !is_numeric_ident(a) && !is_numeric_ident(b) && !is_numeric_ident(c) {
        lemma_lex_trans(a, b, c);
    }
}

pub proof fn lemma_idents_trichotomy(a: Seq<Seq<u8>>, b: Seq<Seq<u8>>)
    ensures
        idents_lt(a, b) || idents_lt(b, a) || a == b,
    decreases a.len(),
{
    if b.len() == 0 {
        if a.len() == 0 {
            assert(a =~= b);
        }
    } else if a.len() == 0 {
    } else {
        lemma_ident_trichotomy(a[0], b[0]);
        if !ident_lt(a[0], b[0]) && !ident_lt(b[0], a[0]) {
            let ta = a.drop_first();
            let tb = b.drop_first();
            lemma_idents_trichotomy(ta, tb);
            if ta == tb {
                assert forall|k: int| 0 <= k < a.len() implies a[k] == b[k] by {
                    if k > 0 {
                        assert(ta[k - 1] == tb[k - 1]);
                    }
                }
                assert(a =~= b);
            }
        }
    }
}

pub proof fn lemma_idents_asym(a: Seq<Seq<u8>>, b: Seq<Seq<u8>>)
    requires
        idents_lt(a, b),
    ensures
        !idents_lt(b, a),
    decreases a.len(),
{
    if b.len() == 0 {
    } else if a.len() == 0 {
    } else {
        if ident_lt(a[0], b[0]) {
            lemma_ident_asym(a[0], b[0]);
        } else if !ident_lt(b[0], a[0]) {
            lemma_idents_asym(a.drop_first(), b.drop_first());
        }
    }
}

pub proof fn lemma_idents_trans(a: Seq<Seq<u8>>, b: Seq<Seq<u8>>, c: Seq<Seq<u8>>)
    requires
        idents_lt(a, b),
        idents_lt(b, c),
    ensures
        idents_lt(a, c),
    decreases a.len(),
{
    if a.len() == 0 {
    } else {
        // b and c are non-empty since something sorts below them.
        if ident_lt(a[0], b[0]) {
            if ident_lt(b[0], c[0]) {
                lemma_ident_trans(a[0], b[0], c[0]);
            } else {
                lemma_ident_trichotomy(b[0], c[0]);
                lemma_ident_asym(a[0], b[0]);
            }
            lemma_ident_asym(a[0], c[0]);
        } else {
            lemma_ident_trichotomy(a[0], b[0]);
            if ident_lt(b[0], c[0]) {
                lemma_ident_asym(b[0], c[0]);
            } else {
                lemma_ident_trichotomy(b[0], c[0]);
                lemma_idents_trans(a.drop_first(), b.drop_first(), c.drop_first());
                if ident_lt(a[0], c[0]) {
                    lemma_ident_asym(a[0], c[0]);
                }
            }
        }
    }
}

pub proof fn lemma_pre_trichotomy(a: Seq<u8>, b: Seq<u8>)
    ensures
        pre_lt(a, b) || pre_lt(b, a) || pre_eq(a, b),
{
    if a.len() > 0 && b.len() > 0 {
        lemma_idents_trichotomy(split_dot(a), split_dot(b));
    }
}

pub proof fn lemma_pre_asym(a: Seq<u8>, b: Seq<u8>)
    requires
        pre_lt(a, b),
    ensures
        !pre_lt(b, a),
        !pre_eq(a, b),
{
    if a.len() > 0 && b.len() > 0 {
        lemma_idents_asym(split_dot(a), split_dot(b));
        if pre_eq(a, b) {
            assert(idents_lt(split_dot(a), split_dot(a)));
        }
    }
}

pub proof fn lemma_pre_trans(a: Seq<u8>, b: Seq<u8>, c: Seq<u8>)
    requires
        pre_lt(a, b),
        pre_lt(b, c),
    ensures
        pre_lt(a, c),
{
    if a.len() > 0 && b.len() > 0 && c.len() > 0 {
        lemma_idents_trans(split_dot(a), split_dot(b), split_dot(c));
    }
}

pub proof fn lemma_version_trichotomy(a: VersionView, b: VersionView)
    ensures
        version_lt(a, b) || version_lt(b, a) || version_ord_eq(a, b),
{
    if a.major == b.major && a.minor == b.minor && a.patch == b.patch {
        lemma_pre_trichotomy(a.pre, b.pre);
    }
}

pub proof fn lemma_version_asym(a: VersionView, b: VersionView)
    requires
        version_lt(a, b),
    ensures
        !version_lt(b, a),
        !version_ord_eq(a, b),
        !version_ord_eq(b, a),
{
    if a.major == b.major && a.minor == b.minor && a.patch == b.patch {
        lemma_pre_asym(a.pre, b.pre);
        if version_ord_eq(b, a) {
            assert(pre_eq(a.pre, b.pre));
        }
    }
}

pub proof fn lemma_version_lt_trans(a: VersionView, b: VersionView, c: VersionView)
    requires
        version_lt(a, b),
        version_lt(b, c),
    ensures
        version_lt(a, c),
{
    if a.major == b.major && b.major == c.major && a.minor == b.minor && b.minor == c.minor
        && a.patch == b.patch && b.patch == c.patch {
        lemma_pre_trans(a.pre, b.pre, c.pre);
    }
}

/// Equal precedence lets one version stand for the other on either side of
/// the strict order.
pub proof fn lemma_version_ord_eq_subst(a: VersionView, b: VersionView, c: VersionView)
    requires
        version_ord_eq(b, c),
    ensures
        version_lt(a, b) == version_lt(a, c),
        version_lt(b, a) == version_lt(c, a),
{
}

pub proof fn lemma_version_lt_le_trans(a: VersionView, b: VersionView, c: VersionView)
    requires
        version_lt(a, b),
        version_le(b, c),
    ensures
        version_lt(a, c),
{
    if version_lt(b, c) {
        lemma_version_lt_trans(a, b, c);
    } else {
        lemma_version_ord_eq_subst(a, b, c);
    }
}

fn is_numeric_ident_exec(s: &Vec<u8>) -> (r: bool)
    ensures
        r == is_numeric_ident(s@),
{
    let mut i: usize = 0;
    while i < s.len()
        invariant
            0 <= i <= s.len(),
            forall|k: int| 0 <= k < i ==> is_digit(#[trigger] s@[k]),
        decreases s.len() - i,
    {
        if s[i] < 48 || s[i] > 57 {
            return false;
        }
        i = i + 1;
    }
    true
}

fn ident_lt_exec(a: &Vec<u8>, b: &Vec<u8>) -> (r: bool)
    ensures
        r == ident_lt(a@, b@),
{
    let na = is_numeric_ident_exec(a);
    let nb = is_numeric_ident_exec(b);
    if na && nb {
        if a.len() != b.len() {
            a.len() < b.len()
        } else {
            crate::bytes::bytes_lt(a, b)
        }
    } else if na {
        true
    } else if nb {
        false
    } else {
        crate::bytes::bytes_lt(a, b)
    }
}

/// The sequence of views of a list of identifiers.
pub open spec fn views_of(s: Seq<Vec<u8>>) -> Seq<Seq<u8>> {
    s.map_values(|v: Vec<u8>| v@)
}

fn idents_lt_exec(a: &Vec<Vec<u8>>, b: &Vec<Vec<u8>>) -> (r: bool)
    ensures
        r == idents_lt(views_of(a@), views_of(b@)),
{
    let ghost va = views_of(a@);
    let ghost vb = views_of(b@);
    let mut i: usize = 0;
    proof {
        assert(va.skip(0) =~= va);
        assert(vb.skip(0) =~= vb);
    }
    loop
        invariant
            0 <= i <= a.len(),
            0 <= i <= b.len(),
            va == views_of(a@),
            vb == views_of(b@),
            va.len() == a.len() && vb.len() == b.len(),
            idents_lt(va, vb) == idents_lt(va.skip(i as int), vb.skip(i as int)),
        decreases a.len() - i,
    {
        if i >= b.len() {
            return false;
        }
        if i >= a.len() {
            return true;
        }
        proof {
            assert(va.skip(i as int).drop_first() =~= va.skip(i + 1));
            assert(vb.skip(i as int).drop_first() =~= vb.skip(i + 1));
            assert(va.skip(i as int)[0] == a@[i as int]@);
            assert(vb.skip(i as int)[0] == b@[i as int]@);
        }
        if ident_lt_exec(&a[i], &b[i]) {
            return true;
        }
        if ident_lt_exec(&b[i], &a[i]) {
            return false;
        }
        i = i + 1;
    }
}

/// Split a pre-release string into its dot-separated identifiers.
pub fn split_idents(pre: &Vec<u8>) -> (r: Vec<Vec<u8>>)
    ensures
        views_of(r@) == split_dot(pre@),
{
    let mut cur: Vec<u8> = Vec::new();
    let mut rest: Vec<Vec<u8>> = Vec::new();
    let mut i: usize = pre.len();
    proof {
        assert(pre@.skip(pre@.len() as int) =~= Seq::<u8>::empty());
        assert(seq![cur@] + views_of(rest@) =~= split_dot(pre@.skip(pre@.len() as int)));
    }
    while i > 0
        invariant
            0 <= i <= pre.len(),
            seq![cur@] + views_of(rest@) == split_dot(pre@.skip(i as int)),
        decreases i,
    {
        i = i - 1;
        let b = pre[i];
        let ghost s = pre@.skip(i as int);
        proof {
            assert(s.drop_first() =~= pre@.skip(i + 1));
            assert(s[0] == pre@[i as int]);
        }
        if b == 46 {
            let done = cur;
            cur = Vec::new();
            rest.insert(0, done);
            proof {
                assert(views_of(rest@) =~= seq![done@] + views_of(rest@.drop_first()));
                assert(seq![cur@] + views_of(rest@) =~= split_dot(s));
            }
        } else {
            let ghost old_cur = cur@;
            cur.insert(0, b);
            proof {
                let r = split_dot(s.drop_first());
                assert(r[0] == old_cur);
                assert(r.drop_first() =~= views_of(rest@));
                assert(cur@ =~= seq![b] + old_cur);
                assert(seq![cur@] + views_of(rest@) =~= split_dot(s));
            }
        }
    }
    let mut out = rest;
    out.insert(0, cur);
    proof {
        assert(pre@.skip(0) =~= pre@);
        assert(views_of(out@) =~= seq![cur@] + views_of(out@.drop_first()));
    }
    out
}

/// Decide strict precedence between two versions.
pub fn version_lt_exec(a: &Version, b: &Version) -> (r: bool)
    ensures
        r == version_lt(a@, b@),
{
    if a.major != b.major {
        return a.major < b.major;
    }
    if a.minor != b.minor {
        return a.minor < b.minor;
    }
    if a.patch != b.patch {
        return a.patch < b.patch;
    }
    if a.pre.len() == 0 {
        return false;
    }
    if b.pre.len() == 0 {
        return true;
    }
    let sa = split_idents(&a.pre);
    let sb = split_idents(&b.pre);
    idents_lt_exec(&sa, &sb)
}

pub fn version_copy(v: &Version) -> (r: Version)
    ensures
        r@ == v@,
{
    Version {
        major: v.major,
        minor: v.minor,
        patch: v.patch,
        pre: crate::bytes::bytes_copy(&v.pre),
        build: crate::bytes::bytes_copy(&v.build),
    }
}

/// The decimal digits of `n`, most significant first.
pub open spec fn dec_digits(n: nat) -> Seq<u8>
    decreases n,
{
    if n < 10 {
        seq![(48 + n) as u8]
    } else {
        dec_digits(n / 10) + seq![(48 + n % 10) as u8]
    }
}

fn push_dec(out: &mut Vec<u8>, n: u64)
    ensures
        final(out)@ == old(out)@ + dec_digits(n as nat),
    decreases n,
{
    if n < 10 {
        out.push((48 + n as u8));
        proof {
            assert(out@ =~= old(out)@ + dec_digits(n as nat));
        }
    } else {
        push_dec(out, n / 10);
        out.push(48 + (n % 10) as u8);
        proof {
            assert(out@ =~= old(out)@ + dec_digits(n as nat));
        }
    }
}

/// The rendered form of a version: `major.minor.patch`, then `-pre` if a
/// pre-release, then `+build` if build metadata is present.
pub open spec fn render_version(v: VersionView) -> Seq<u8> {
    dec_digits(v.major as nat) + seq![46u8] + dec_digits(v.minor as nat) + seq![46u8]
        + dec_digits(v.patch as nat) + (if v.pre.len() > 0 {
        seq![45u8] + v.pre
    } else {
        Seq::<u8>::empty()
    }) + (if v.build.len() > 0 {
        seq![43u8] + v.build
    } else {
        Seq::<u8>::empty()
    })
}

pub fn version_render(v: &Version) -> (r: Vec<u8>)
    ensures
        r@ == render_version(v@),
{
    let mut out: Vec<u8> = Vec::new();
    push_dec(&mut out, v.major);
    out.push(46);
    push_dec(&mut out, v.minor);
    out.push(46);
    push_dec(&mut out, v.patch);
    if v.pre.len() > 0 {
        out.push(45);
        append_bytes(&mut out, &v.pre);
    }
    if v.build.len() > 0 {
        out.push(43);
        append_bytes(&mut out, &v.build);
    }
    proof {
        assert(out@ =~= render_version(v@));
    }
    out
}

pub fn append_bytes(out: &mut Vec<u8>, src: &Vec<u8>)
    ensures
        final(out)@ == old(out)@ + src@,
{
    let mut i: usize = 0;
    while i < src.len()
        invariant
            0 <= i <= src.len(),
            out@ =~= old(out)@ + src@.take(i as int),
        decreases src.len() - i,
    {
        out.push(src[i]);
        i = i + 1;
    }
    proof {
        assert(src@.take(src@.len() as int) =~= src@);
    }
}

} // verus!
