//! Semantic versions: their precedence and their text.

use crate::text::{
    before, decimal, decimal_text, is_digit, lemma_decimal_digits, lemma_decimal_injective,
    lemma_text_connected, lemma_text_irreflexive, lemma_text_transitive, text_before,
};
use vstd::prelude::*;
use vstd::string::*;

verus! {

/// One dot-separated part of a pre-release tag or of build metadata.
#[derive(Clone, Debug, PartialEq, Eq)]
pub enum Identifier {
    /// A part made of digits only, held as its value.
    Numeric(u64),
    /// A part with letters or hyphens in it.
    AlphaNumeric(String),
}

/// What an [`Identifier`] stands for.
pub enum IdentifierView {
    Numeric(nat),
    AlphaNumeric(Seq<char>),
}

impl View for Identifier {
    type V = IdentifierView;

    open spec fn view(&self) -> IdentifierView {
        match self {
            Identifier::Numeric(n) => IdentifierView::Numeric(*n as nat),
            Identifier::AlphaNumeric(s) => IdentifierView::AlphaNumeric(s@),
        }
    }
}

impl DeepView for Identifier {
    type V = IdentifierView;

    open spec fn deep_view(&self) -> IdentifierView {
        self@
    }
}

/// An exact version of a library.
#[derive(Clone, Debug, PartialEq, Eq)]
pub struct Version {
    pub major: u64,
    pub minor: u64,
    pub patch: u64,
    /// The pre-release tag; empty for a release.
    pub pre: Vec<Identifier>,
    /// Build metadata; it plays no part in precedence.
    pub build: Vec<Identifier>,
}

/// What a [`Version`] stands for.
pub struct VersionView {
    pub major: nat,
    pub minor: nat,
    pub patch: nat,
    pub pre: Seq<IdentifierView>,
    pub build: Seq<IdentifierView>,
}

impl View for Version {
    type V = VersionView;

    open spec fn view(&self) -> VersionView {
        VersionView {
            major: self.major as nat,
            minor: self.minor as nat,
            patch: self.patch as nat,
            pre: self.pre.deep_view(),
            build: self.build.deep_view(),
        }
    }
}

impl DeepView for Version {
    type V = VersionView;

    open spec fn deep_view(&self) -> VersionView {
        self@
    }
}

/// Precedence of one part of a pre-release tag over another: numbers by
/// value, texts in text order, and every number before every text.
pub open spec fn identifier_before(a: IdentifierView, b: IdentifierView) -> bool {
    match (a, b) {
        (IdentifierView::Numeric(x), IdentifierView::Numeric(y)) => x < y,
        (IdentifierView::Numeric(_), IdentifierView::AlphaNumeric(_)) => true,
        (IdentifierView::AlphaNumeric(_), IdentifierView::Numeric(_)) => false,
        (IdentifierView::AlphaNumeric(s), IdentifierView::AlphaNumeric(t)) => text_before(s, t),
    }
}

/// Precedence of pre-release tags: part by part, the first difference
/// decides, and a tag comes before every longer tag that starts with it.
pub open spec fn tag_before(a: Seq<IdentifierView>, b: Seq<IdentifierView>) -> bool
    decreases a.len(),
{
    if b.len() == 0 {
        false
    } else if a.len() == 0 {
        true
    } else if identifier_before(a[0], b[0]) {
        true
    } else if identifier_before(b[0], a[0]) {
        false
    } else {
        tag_before(a.drop_first(), b.drop_first())
    }
}

/// Whether a version is a pre-release.
pub open spec fn is_prerelease(v: VersionView) -> bool {
    v.pre.len() > 0
}

/// Precedence of versions: by major, minor and patch number; where these
/// agree a pre-release comes before the release, and two pre-releases go by
/// their tags. Build metadata is not looked at.
pub open spec fn version_before(a: VersionView, b: VersionView) -> bool {
    if a.major != b.major {
        a.major < b.major
    } else if a.minor != b.minor {
        a.minor < b.minor
    } else if a.patch != b.patch {
        a.patch < b.patch
    } else if !is_prerelease(a) {
        false
    } else if !is_prerelease(b) {
        true
    } else {
        tag_before(a.pre, b.pre)
    }
}

/// Two versions of equal precedence: they differ in build metadata at most.
pub open spec fn version_level(a: VersionView, b: VersionView) -> bool {
    &&& a.major == b.major
    &&& a.minor == b.minor
    &&& a.patch == b.patch
    &&& a.pre == b.pre
}

/// The text of one part of a tag.
pub open spec fn identifier_text(i: IdentifierView) -> Seq<char> {
    match i {
        IdentifierView::Numeric(n) => decimal(n),
        IdentifierView::AlphaNumeric(s) => s,
    }
}

/// The parts of a tag, with a dot between each two.
pub open spec fn dotted(parts: Seq<IdentifierView>) -> Seq<char>
    decreases parts.len(),
{
    if parts.len() == 0 {
        Seq::empty()
    } else if parts.len() == 1 {
        identifier_text(parts[0])
    } else {
        dotted(parts.drop_last()) + seq!['.'] + identifier_text(parts.last())
    }
}

/// The three numbers of a version, with `sep` between each two.
pub open spec fn triple_text(v: VersionView, sep: Seq<char>) -> Seq<char> {
    decimal(v.major) + sep + decimal(v.minor) + sep + decimal(v.patch)
}

/// The usual text of a version: `major.minor.patch`, then `-` and the
/// pre-release tag if there is one, then `+` and the build metadata if there
/// is any.
pub open spec fn version_text(v: VersionView) -> Seq<char> {
    triple_text(v, seq!['.']) + (if v.pre.len() > 0 {
        seq!['-'] + dotted(v.pre)
    } else {
        Seq::empty()
    }) + (if v.build.len() > 0 {
        seq!['+'] + dotted(v.build)
    } else {
        Seq::empty()
    })
}

/// No part of a tag comes before itself.
pub proof fn lemma_identifier_irreflexive(a: IdentifierView)
    ensures
        !identifier_before(a, a),
{
    if let IdentifierView::AlphaNumeric(s) = a {
        lemma_text_irreflexive(s);
    }
}

/// Precedence of tag parts is transitive.
pub proof fn lemma_identifier_transitive(a: IdentifierView, b: IdentifierView, c: IdentifierView)
    requires
        identifier_before(a, b),
        identifier_before(b, c),
    ensures
        identifier_before(a, c),
{
    match (a, b, c) {
        (
            IdentifierView::AlphaNumeric(s),
            IdentifierView::AlphaNumeric(t),
            IdentifierView::AlphaNumeric(u),
        ) => {
            lemma_text_transitive(s, t, u);
        },
        _ => {},
    }
}

/// Of two different tag parts one comes before the other.
pub proof fn lemma_identifier_connected(a: IdentifierView, b: IdentifierView)
    requires
        !identifier_before(a, b),
        !identifier_before(b, a),
    ensures
        a == b,
{
    match (a, b) {
        (IdentifierView::AlphaNumeric(s), IdentifierView::AlphaNumeric(t)) => {
            lemma_text_connected(s, t);
        },
        _ => {},
    }
}

/// No tag comes before itself.
pub proof fn lemma_tag_irreflexive(a: Seq<IdentifierView>)
    ensures
        !tag_before(a, a),
    decreases a.len(),
{
    if a.len() > 0 {
        lemma_identifier_irreflexive(a[0]);
        lemma_tag_irreflexive(a.drop_first());
    }
}

/// Precedence of tags is transitive.
pub proof fn lemma_tag_transitive(
    a: Seq<IdentifierView>,
    b: Seq<IdentifierView>,
    c: Seq<IdentifierView>,
)
    requires
        tag_before(a, b),
        tag_before(b, c),
    ensures
        tag_before(a, c),
    decreases a.len(),
{
    if a.len() > 0 {
        let (x, y, z) = (a[0], b[0], c[0]);
        if identifier_before(x, y) {
            if identifier_before(y, z) {
                lemma_identifier_transitive(x, y, z);
            } else {
                lemma_identifier_connected(y, z);
            }
        } else {
            lemma_identifier_connected(x, y);
            if !identifier_before(y, z) {
                lemma_identifier_connected(y, z);
                lemma_tag_transitive(a.drop_first(), b.drop_first(), c.drop_first());
            }
        }
        if identifier_before(z, x) {
            if identifier_before(x, y) {
                lemma_identifier_transitive(z, x, y);
            }
            lemma_identifier_irreflexive(z);
        }
    }
}

/// Two tags of which neither comes before the other are equal.
pub proof fn lemma_tag_connected(a: Seq<IdentifierView>, b: Seq<IdentifierView>)
    requires
        !tag_before(a, b),
        !tag_before(b, a),
    ensures
        a == b,
    decreases a.len(),
{
    if a.len() > 0 && b.len() > 0 {
        lemma_identifier_connected(a[0], b[0]);
        lemma_tag_connected(a.drop_first(), b.drop_first());
        assert(a =~= seq![a[0]] + a.drop_first());
        assert(b =~= seq![b[0]] + b.drop_first());
    } else {
        assert(a =~= b);
    }
}

/// No version comes before itself.
pub proof fn lemma_version_irreflexive(a: VersionView)
    ensures
        !version_before(a, a),
{
    lemma_tag_irreflexive(a.pre);
}

/// Precedence of versions is transitive.
pub proof fn lemma_version_transitive(a: VersionView, b: VersionView, c: VersionView)
    requires
        version_before(a, b),
        version_before(b, c),
    ensures
        version_before(a, c),
{
    if a.major == b.major && b.major == c.major && a.minor == b.minor && b.minor == c.minor
        && a.patch == b.patch && b.patch == c.patch && is_prerelease(c) {
        lemma_tag_transitive(a.pre, b.pre, c.pre);
    }
}

/// Two versions of which neither comes before the other are level: they
/// agree in everything but build metadata.
pub proof fn lemma_version_connected(a: VersionView, b: VersionView)
    requires
        !version_before(a, b),
        !version_before(b, a),
    ensures
        version_level(a, b),
{
    if a.major == b.major && a.minor == b.minor && a.patch == b.patch {
        if is_prerelease(a) && is_prerelease(b) {
            lemma_tag_connected(a.pre, b.pre);
        } else {
            assert(a.pre =~= b.pre);
        }
    }
}

/// Level versions stand alike to every third version.
pub proof fn lemma_version_level_alike(a: VersionView, b: VersionView, c: VersionView)
    requires
        version_level(a, b),
    ensures
        version_before(a, c) == version_before(b, c),
        version_before(c, a) == version_before(c, b),
        !version_before(a, b),
{
    lemma_version_irreflexive(a);
}

/// If `a` is not before `b` and `b` is not before `c`, then `a` is not
/// before `c`.
pub proof fn lemma_version_not_before_chain(a: VersionView, b: VersionView, c: VersionView)
    requires
        !version_before(a, b),
        !version_before(b, c),
    ensures
        !version_before(a, c),
{
    if version_before(a, c) {
        if version_before(b, a) {
            lemma_version_transitive(b, a, c);
        } else {
            lemma_version_connected(a, b);
            lemma_version_level_alike(a, b, c);
        }
    }
}

/// Two texts that each start with digits, then an underscore, are cut at
/// that underscore alike.
proof fn lemma_cut_at_underscore(a: Seq<char>, x: Seq<char>, b: Seq<char>, y: Seq<char>)
    requires
        forall|k: int| 0 <= k < a.len() ==> is_digit(#[trigger] a[k]),
        forall|k: int| 0 <= k < b.len() ==> is_digit(#[trigger] b[k]),
        a + seq!['_'] + x == b + seq!['_'] + y,
    ensures
        a == b,
        x == y,
{
    let left = a + seq!['_'] + x;
    let right = b + seq!['_'] + y;
    if a.len() < b.len() {
        assert(left[a.len() as int] == '_');
        assert(right[a.len() as int] == b[a.len() as int]);
        assert(is_digit(b[a.len() as int]));
    } else if b.len() < a.len() {
        assert(right[b.len() as int] == '_');
        assert(left[b.len() as int] == a[b.len() as int]);
        assert(is_digit(a[b.len() as int]));
    }
    assert(a =~= b) by {
        assert forall|k: int| 0 <= k < a.len() implies a[k] == b[k] by {
            assert(left[k] == a[k]);
            assert(right[k] == b[k]);
        }
    }
    assert(left.len() == right.len());
    assert(x =~= y) by {
        assert forall|k: int| 0 <= k < x.len() implies x[k] == y[k] by {
            assert(left[a.len() + 1 + k] == x[k]);
            assert(right[b.len() + 1 + k] == y[k]);
        }
    }
}

/// Versions that differ in a number differ in the text of their numbers.
pub proof fn lemma_triple_injective(v: VersionView, w: VersionView)
    requires
        triple_text(v, seq!['_']) == triple_text(w, seq!['_']),
    ensures
        v.major == w.major,
        v.minor == w.minor,
        v.patch == w.patch,
{
    lemma_decimal_digits(v.major);
    lemma_decimal_digits(v.minor);
    lemma_decimal_digits(v.patch);
    lemma_decimal_digits(w.major);
    lemma_decimal_digits(w.minor);
    lemma_decimal_digits(w.patch);
    let rest_v = decimal(v.minor) + seq!['_'] + decimal(v.patch);
    let rest_w = decimal(w.minor) + seq!['_'] + decimal(w.patch);
    assert(triple_text(v, seq!['_']) =~= decimal(v.major) + seq!['_'] + rest_v);
    assert(triple_text(w, seq!['_']) =~= decimal(w.major) + seq!['_'] + rest_w);
    lemma_cut_at_underscore(decimal(v.major), rest_v, decimal(w.major), rest_w);
    lemma_cut_at_underscore(decimal(v.minor), decimal(v.patch), decimal(w.minor), decimal(w.patch));
    lemma_decimal_injective(v.major, w.major);
    lemma_decimal_injective(v.minor, w.minor);
    lemma_decimal_injective(v.patch, w.patch);
}

impl Identifier {
    /// Whether this part takes precedence below `other`.
    pub fn precedes(&self, other: &Identifier) -> (r: bool)
        ensures
            r == identifier_before(self@, other@),
    {
        match (self, other) {
            (Identifier::Numeric(x), Identifier::Numeric(y)) => *x < *y,
            (Identifier::Numeric(_), Identifier::AlphaNumeric(_)) => true,
            (Identifier::AlphaNumeric(_), Identifier::Numeric(_)) => false,
            (Identifier::AlphaNumeric(s), Identifier::AlphaNumeric(t)) => before(
                s.as_str(),
                t.as_str(),
            ),
        }
    }

    /// The text of this part.
    pub fn to_string(&self) -> (r: String)
        ensures
            r@ == identifier_text(self@),
    {
        match self {
            Identifier::Numeric(n) => decimal_text(*n),
            Identifier::AlphaNumeric(s) => s.clone(),
        }
    }
}

/// Whether tag `a` takes precedence below tag `b`.
pub fn tag_precedes(a: &Vec<Identifier>, b: &Vec<Identifier>) -> (r: bool)
    ensures
        r == tag_before(a.deep_view(), b.deep_view()),
{
    let ghost x = a.deep_view();
    let ghost y = b.deep_view();
    let mut i: usize = 0;
    proof {
        assert(x.skip(0) =~= x);
        assert(y.skip(0) =~= y);
    }
    while i < a.len() && i < b.len()
        invariant
            i <= a.len(),
            i <= b.len(),
            x == a.deep_view(),
            y == b.deep_view(),
            tag_before(x, y) == tag_before(x.skip(i as int), y.skip(i as int)),
        decreases a.len() - i,
    {
        proof {
            assert(x.skip(i as int).drop_first() =~= x.skip(i + 1));
            assert(y.skip(i as int).drop_first() =~= y.skip(i + 1));
            assert(x.skip(i as int)[0] == a[i as int]@);
            assert(y.skip(i as int)[0] == b[i as int]@);
        }
        if a[i].precedes(&b[i]) {
            return true;
        }
        if b[i].precedes(&a[i]) {
            return false;
        }
        i += 1;
    }
    a.len() < b.len()
}

/// Writes the parts of a tag with a dot between each two.
pub fn dotted_text(parts: &Vec<Identifier>) -> (r: String)
    ensures
        r@ == dotted(parts.deep_view()),
{
    let ghost p = parts.deep_view();
    let mut out = String::new();
    let mut i: usize = 0;
    while i < parts.len()
        invariant
            i <= parts.len(),
            p == parts.deep_view(),
            out@ == dotted(p.take(i as int)),
        decreases parts.len() - i,
    {
        let part = parts[i].to_string();
        proof {
            let now = p.take(i + 1);
            assert(now.drop_last() =~= p.take(i as int));
            assert(now.last() == parts[i as int]@);
            if i > 0 {
                assert(dotted(now) == dotted(p.take(i as int)) + seq!['.'] + identifier_text(
                    now.last(),
                ));
            } else {
                assert(dotted(now) == identifier_text(now.last()));
                assert(out@ + part@ =~= part@);
            }
            reveal_strlit(".");
            assert("."@ =~= seq!['.']);
        }
        if i > 0 {
            out.append(".");
        }
        out.append(part.as_str());
        i += 1;
    }
    proof {
        assert(p.take(parts.len() as int) =~= p);
    }
    out
}

impl Version {
    /// Whether this version is a pre-release.
    pub fn is_prerelease(&self) -> (r: bool)
        ensures
            r == is_prerelease(self@),
    {
        self.pre.len() > 0
    }

    /// Whether this version takes precedence below `other`.
    pub fn precedes(&self, other: &Version) -> (r: bool)
        ensures
            r == version_before(self@, other@),
    {
        if self.major != other.major {
            self.major < other.major
        } else if self.minor != other.minor {
            self.minor < other.minor
        } else if self.patch != other.patch {
            self.patch < other.patch
        } else if self.pre.len() == 0 {
            false
        } else if other.pre.len() == 0 {
            true
        } else {
            tag_precedes(&self.pre, &other.pre)
        }
    }

    /// The three numbers of this version with `sep` between each two.
    pub fn triple(&self, sep: &str) -> (r: String)
        ensures
            r@ == triple_text(self@, sep@),
    {
        let mut out = decimal_text(self.major);
        out.append(sep);
        out.append(decimal_text(self.minor).as_str());
        out.append(sep);
        out.append(decimal_text(self.patch).as_str());
        assert(out@ =~= triple_text(self@, sep@));
        out
    }

    /// The text of this version.
    pub fn to_string(&self) -> (r: String)
        ensures
            r@ == version_text(self@),
    {
        proof {
            reveal_strlit(".");
            reveal_strlit("-");
            reveal_strlit("+");
        }
        let mut out = self.triple(".");
        let ghost head = out@;
        assert("."@ =~= seq!['.']);
        if self.pre.len() > 0 {
            out.append("-");
            out.append(dotted_text(&self.pre).as_str());
        }
        let ghost mid = out@;
        if self.build.len() > 0 {
            out.append("+");
            out.append(dotted_text(&self.build).as_str());
        }
        proof {
            assert("-"@ =~= seq!['-']);
            assert("+"@ =~= seq!['+']);
            assert(mid =~= head + (if self@.pre.len() > 0 {
                seq!['-'] + dotted(self@.pre)
            } else {
                Seq::empty()
            }));
            assert(out@ =~= version_text(self@));
        }
        out
    }
}

} // verus!
