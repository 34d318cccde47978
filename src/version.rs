//! Version identifiers: parsing, ordering and the size of an upgrade.
use vstd::prelude::*;

verus! {

/// A `MAJOR.MINOR.PATCH` triple, ordered lexicographically.
#[derive(Clone, Copy, Debug, PartialEq, Eq, Structural, PartialOrd, Ord)]
pub struct Semver {
    pub major: u32,
    pub minor: u32,
    pub patch: u32,
}

/// A prerelease tag such as `beta.3`.
#[derive(Clone, Debug, PartialEq, Eq)]
pub struct Prerelease {
    pub kind: String,
    pub revision: u32,
}

/// A version with its optional prerelease tag.
#[derive(Clone, Debug, PartialEq, Eq)]
pub struct FullSemverVersion {
    pub semver: Semver,
    pub prerelease: Option<Prerelease>,
}

/// How large a step separates two versions, smallest first.
#[derive(Clone, Copy, Debug, PartialEq, Eq, Structural, PartialOrd, Ord)]
pub enum SemverUpgrade {
    Prerelease,
    Patch,
    Minor,
    Major,
}

/// Why a version could not be parsed or compared.
#[derive(Clone, Copy, Debug, PartialEq, Eq, Structural)]
pub enum VersionError {
    /// The text is not `[v]MAJOR.MINOR.PATCH[-KIND.REVISION]`.
    MalformedVersion,
    /// Two prereleases of the same version carry different kinds.
    UnsupportedPrereleaseComparison,
}

/// The mathematical content of a version.
pub struct VersionModel {
    pub semver: Semver,
    pub pre: Option<(Seq<char>, u32)>,
}

impl View for Prerelease {
    type V = (Seq<char>, u32);

    open spec fn view(&self) -> (Seq<char>, u32) {
        (self.kind@, self.revision)
    }
}

pub open spec fn pre_model(p: Option<Prerelease>) -> Option<(Seq<char>, u32)> {
    match p {
        Some(pr) => Some(pr@),
        None => None,
    }
}

impl View for FullSemverVersion {
    type V = VersionModel;

    open spec fn view(&self) -> VersionModel {
        VersionModel { semver: self.semver, pre: pre_model(self.prerelease) }
    }
}

pub open spec fn rank(u: SemverUpgrade) -> nat {
    match u {
        SemverUpgrade::Prerelease => 0,
        SemverUpgrade::Patch => 1,
        SemverUpgrade::Minor => 2,
        SemverUpgrade::Major => 3,
    }
}

pub open spec fn semver_lt(a: Semver, b: Semver) -> bool {
    a.major < b.major || (a.major == b.major && (a.minor < b.minor || (a.minor == b.minor
        && a.patch < b.patch)))
}

/// Whether `a` is strictly newer than `b`: the triple decides first; on an
/// equal triple a release beats a prerelease, and two prereleases of one kind
/// go by revision. Prereleases of different kinds have no order.
pub open spec fn newer(a: VersionModel, b: VersionModel) -> Result<bool, VersionError> {
    if a.semver != b.semver {
        Ok(semver_lt(b.semver, a.semver))
    } else {
        match (a.pre, b.pre) {
            (None, None) => Ok(false),
            (None, Some(_)) => Ok(true),
            (Some(_), None) => Ok(false),
            (Some(x), Some(y)) => if x.0 != y.0 {
                Err(VersionError::UnsupportedPrereleaseComparison)
            } else {
                Ok(x.1 > y.1)
            },
        }
    }
}

/// The size of the step from `from` to `to`. Each of major, minor and patch
/// is looked at on its own, largest first; then finishing a prerelease, or a
/// later revision of the same kind, is the smallest step. Anything else,
/// prereleases of different kinds among it, counts as a patch step.
pub open spec fn upgrade(from: VersionModel, to: VersionModel) -> SemverUpgrade {
    if from.semver.major < to.semver.major {
        SemverUpgrade::Major
    } else if from.semver.minor < to.semver.minor {
        SemverUpgrade::Minor
    } else if from.semver.patch < to.semver.patch {
        SemverUpgrade::Patch
    } else {
        match (from.pre, to.pre) {
            (Some(_), None) => SemverUpgrade::Prerelease,
            (Some(x), Some(y)) => if x.0 == y.0 && x.1 < y.1 {
                SemverUpgrade::Prerelease
            } else {
                SemverUpgrade::Patch
            },
            _ => SemverUpgrade::Patch,
        }
    }
}

pub open spec fn is_digit(c: char) -> bool {
    48 <= (c as u32) && (c as u32) <= 57
}

pub open spec fn digit_value(c: char) -> nat {
    ((c as u32) - 48) as nat
}

pub open spec fn all_digits(s: Seq<char>) -> bool {
    forall|i: int| 0 <= i < s.len() ==> is_digit(#[trigger] s[i])
}

/// The number that a run of decimal digits spells.
pub open spec fn digits_value(s: Seq<char>) -> nat
    decreases s.len(),
{
    if s.len() == 0 {
        0
    } else {
        digits_value(s.drop_last()) * 10 + digit_value(s.last())
    }
}

/// An unsigned 32-bit number: an optional `+`, then at least one decimal
/// digit, with a value that fits.
pub open spec fn number_of(s: Seq<char>) -> Option<u32> {
    let d = if s.len() > 0 && s[0] == '+' { s.drop_first() } else { s };
    if d.len() > 0 && all_digits(d) && digits_value(d) <= u32::MAX {
        Some(digits_value(d) as u32)
    } else {
        None
    }
}

/// Where the first `c` stands in `s`, or the length of `s` without one.
pub open spec fn first_index(s: Seq<char>, c: char) -> nat
    decreases s.len(),
{
    if s.len() == 0 || s[0] == c {
        0
    } else {
        1 + first_index(s.drop_first(), c)
    }
}

/// The text before the first `c`, and the text after it if there is one.
pub open spec fn split_once(s: Seq<char>, c: char) -> (Seq<char>, Option<Seq<char>>) {
    let k = first_index(s, c) as int;
    if k < s.len() {
        (s.take(k), Some(s.skip(k + 1)))
    } else {
        (s, None)
    }
}

pub open spec fn strip_v(s: Seq<char>) -> Seq<char> {
    if s.len() > 0 && s[0] == 'v' {
        s.drop_first()
    } else {
        s
    }
}

/// `KIND.REVISION`; a further `.` and what follows it are not read.
pub open spec fn prerelease_of(s: Seq<char>) -> Option<(Seq<char>, u32)> {
    let (kind, rest) = split_once(s, '.');
    match rest {
        None => None,
        Some(r) => match number_of(split_once(r, '.').0) {
            None => None,
            Some(rev) => Some((kind, rev)),
        },
    }
}

/// `MAJOR.MINOR.PATCH`; a further `.` and what follows it are not read.
pub open spec fn semver_of(s: Seq<char>) -> Option<Semver> {
    let (ma, r1) = split_once(s, '.');
    match r1 {
        None => None,
        Some(r1) => {
            let (mi, r2) = split_once(r1, '.');
            match r2 {
                None => None,
                Some(r2) => {
                    let pa = split_once(r2, '.').0;
                    match (number_of(ma), number_of(mi), number_of(pa)) {
                        (Some(a), Some(b), Some(c)) => Some(Semver { major: a, minor: b, patch: c }),
                        _ => None,
                    }
                },
            }
        },
    }
}

/// `[v]MAJOR.MINOR.PATCH[-KIND.REVISION]`: one leading `v` is dropped, the
/// text up to the first `-` is the triple, and the text between that `-` and
/// the next one, if any, is the prerelease tag.
pub open spec fn parse_version(text: Seq<char>) -> Result<VersionModel, VersionError> {
    let (core, after) = split_once(strip_v(text), '-');
    match semver_of(core) {
        None => Err(VersionError::MalformedVersion),
        Some(sv) => match after {
            None => Ok(VersionModel { semver: sv, pre: None }),
            Some(a) => match prerelease_of(split_once(a, '-').0) {
                None => Err(VersionError::MalformedVersion),
                Some(pr) => Ok(VersionModel { semver: sv, pre: Some(pr) }),
            },
        },
    }
}

proof fn lemma_first_index(s: Seq<char>, c: char, k: int)
    requires
        0 <= k <= s.len(),
        forall|i: int| 0 <= i < k ==> s[i] != c,
        k < s.len() ==> s[k] == c,
    ensures
        first_index(s, c) == k,
    decreases s.len(),
{
    if k > 0 {
        assert(s[0] != c);
        assert forall|i: int| 0 <= i < k - 1 implies s.drop_first()[i] != c by {
            assert(s.drop_first()[i] == s[i + 1]);
        }
        lemma_first_index(s.drop_first(), c, k - 1);
    }
}

proof fn lemma_digits_prefix(s: Seq<char>, i: int)
    requires
        0 <= i <= s.len(),
    ensures
        digits_value(s.take(i)) <= digits_value(s),
    decreases s.len(),
{
    if i < s.len() {
        assert(s.drop_last().take(i) =~= s.take(i));
        lemma_digits_prefix(s.drop_last(), i);
    } else {
        assert(s.take(i) =~= s);
    }
}

/// Where the first `c` stands in `text[from..to]`, or `to` without one.
fn find_char(text: &str, from: usize, to: usize, c: char) -> (k: usize)
    requires
        from <= to <= text@.len(),
    ensures
        from <= k <= to,
        split_once(text@.subrange(from as int, to as int), c).0 == text@.subrange(
            from as int,
            k as int,
        ),
        k < to ==> split_once(text@.subrange(from as int, to as int), c).1 == Some(
            text@.subrange(k + 1, to as int),
        ),
        k == to ==> split_once(text@.subrange(from as int, to as int), c).1 is None,
{
    let mut k = from;
    while k < to && text.get_char(k) != c
        invariant
            from <= k <= to <= text@.len(),
            forall|i: int| from <= i < k ==> text@[i] != c,
        decreases to - k,
    {
        k = k + 1;
    }
    proof {
        let s = text@.subrange(from as int, to as int);
        lemma_first_index(s, c, k - from);
        assert(s.take(k - from) =~= text@.subrange(from as int, k as int));
        if k < to {
            assert(s.skip(k - from + 1) =~= text@.subrange(k + 1, to as int));
        }
    }
    k
}

/// Reads `text[from..to]` as a number.
fn parse_number(text: &str, from: usize, to: usize) -> (r: Option<u32>)
    requires
        from <= to <= text@.len(),
    ensures
        r == number_of(text@.subrange(from as int, to as int)),
{
    let ghost s = text@.subrange(from as int, to as int);
    let mut start = from;
    if from < to && text.get_char(from) == '+' {
        start = from + 1;
    }
    let ghost d = text@.subrange(start as int, to as int);
    assert(d =~= (if s.len() > 0 && s[0] == '+' { s.drop_first() } else { s }));
    if start == to {
        return None;
    }
    let mut value: u64 = 0;
    let mut i = start;
    while i < to
        invariant
            start <= i <= to <= text@.len(),
            d == text@.subrange(start as int, to as int),
            s == text@.subrange(from as int, to as int),
            d == (if s.len() > 0 && s[0] == '+' { s.drop_first() } else { s }),
            value == digits_value(d.take(i - start)),
            value <= u32::MAX,
            all_digits(d.take(i - start)),
        decreases to - i,
    {
        let c = text.get_char(i);
        if !((c as u32) >= 48 && (c as u32) <= 57) {
            assert(d[i - start] == c);
            assert(!is_digit(d[i - start]));
            assert(!all_digits(d));
            return None;
        }
        let ghost t = d.take(i - start + 1);
        assert(t.drop_last() =~= d.take(i - start));
        assert(t.last() == c);
        value = value * 10 + ((c as u32) - 48) as u64;
        assert(value == digits_value(t));
        i = i + 1;
        if value > u32::MAX as u64 {
            proof {
                lemma_digits_prefix(d, i - start);
            }
            assert(digits_value(d) > u32::MAX);
            return None;
        }
        assert(all_digits(d.take(i - start))) by {
            assert forall|j: int| 0 <= j < t.len() implies is_digit(#[trigger] t[j]) by {
                if j < t.len() - 1 {
                    assert(t[j] == t.drop_last()[j]);
                }
            }
        }
    }
    assert(d.take(i - start) =~= d);
    Some(value as u32)
}

/// Reads `text[from..to]` as `MAJOR.MINOR.PATCH`.
fn parse_semver(text: &str, from: usize, to: usize) -> (r: Option<Semver>)
    requires
        from <= to <= text@.len(),
    ensures
        r == semver_of(text@.subrange(from as int, to as int)),
{
    let k1 = find_char(text, from, to, '.');
    if k1 == to {
        return None;
    }
    let k2 = find_char(text, k1 + 1, to, '.');
    if k2 == to {
        return None;
    }
    let k3 = find_char(text, k2 + 1, to, '.');
    let major = parse_number(text, from, k1);
    let minor = parse_number(text, k1 + 1, k2);
    let patch = parse_number(text, k2 + 1, k3);
    match (major, minor, patch) {
        (Some(major), Some(minor), Some(patch)) => Some(Semver { major, minor, patch }),
        _ => None,
    }
}

/// Reads `text[from..to]` as `KIND.REVISION`.
fn parse_prerelease(text: &str, from: usize, to: usize) -> (r: Option<Prerelease>)
    requires
        from <= to <= text@.len(),
    ensures
        pre_model(r) == prerelease_of(text@.subrange(from as int, to as int)),
{
    let k1 = find_char(text, from, to, '.');
    if k1 == to {
        return None;
    }
    let k2 = find_char(text, k1 + 1, to, '.');
    match parse_number(text, k1 + 1, k2) {
        None => None,
        Some(revision) => {
            let kind = text.substring_char(from, k1).to_owned();
            Some(Prerelease { kind, revision })
        },
    }
}

pub open spec fn digit_char(d: nat) -> char {
    seq!['0', '1', '2', '3', '4', '5', '6', '7', '8', '9'][d as int]
}

/// The decimal spelling of `n`, without leading zeros.
pub open spec fn decimal(n: nat) -> Seq<char>
    decreases n,
{
    if n < 10 {
        seq![digit_char(n)]
    } else {
        decimal(n / 10).push(digit_char(n % 10))
    }
}

/// The text `[v]MAJOR.MINOR.PATCH[-KIND.REVISION]` of a version.
pub open spec fn version_text(with_v: bool, v: VersionModel) -> Seq<char> {
    let lead = if with_v { seq!['v'] } else { Seq::empty() };
    match v.pre {
        None => lead + semver_text(v.semver),
        Some(pr) => lead + semver_text(v.semver) + seq!['-'] + tag_text(pr),
    }
}

pub open spec fn lacks(s: Seq<char>, c: char) -> bool {
    forall|i: int| 0 <= i < s.len() ==> s[i] != c
}

proof fn lemma_decimal(n: nat)
    ensures
        decimal(n).len() > 0,
        all_digits(decimal(n)),
        digits_value(decimal(n)) == n,
    decreases n,
{
    let d = seq!['0', '1', '2', '3', '4', '5', '6', '7', '8', '9'];
    assert(forall|k: int| 0 <= k < 10 ==> is_digit(#[trigger] d[k]) && digit_value(d[k]) == k);
    if n >= 10 {
        lemma_decimal(n / 10);
        let s = decimal(n);
        assert(s.drop_last() =~= decimal(n / 10));
        assert(s.last() == d[(n % 10) as int]);
        assert(digit_value(s.last()) == n % 10);
        assert(digits_value(s) == digits_value(decimal(n / 10)) * 10 + n % 10);
        assert((n / 10) * 10 + n % 10 == n) by (nonlinear_arith);
        assert forall|i: int| 0 <= i < s.len() implies is_digit(#[trigger] s[i]) by {
            if i < s.len() - 1 {
                assert(s[i] == decimal(n / 10)[i]);
            }
        }
    } else {
        assert(seq![digit_char(n)].drop_last() =~= Seq::<char>::empty());
        assert(digit_char(n) == d[n as int]);
        assert(digit_value(digit_char(n)) == n);
        assert(digits_value(Seq::<char>::empty()) == 0);
        assert(seq![digit_char(n)].last() == digit_char(n));
    }
}

proof fn lemma_number_of_decimal(n: u32)
    ensures
        number_of(decimal(n as nat)) == Some(n),
        lacks(decimal(n as nat), '.'),
        lacks(decimal(n as nat), '-'),
        decimal(n as nat)[0] != 'v',
{
    lemma_decimal(n as nat);
    let s = decimal(n as nat);
    assert(is_digit(s[0]));
    assert forall|i: int| 0 <= i < s.len() implies s[i] != '.' && s[i] != '-' by {
        assert(is_digit(s[i]));
    }
}

proof fn lemma_split_at_first(a: Seq<char>, c: char, b: Seq<char>)
    requires
        lacks(a, c),
    ensures
        split_once(a + seq![c] + b, c) == (a, Some(b)),
{
    let s = a + seq![c] + b;
    lemma_first_index(s, c, a.len() as int);
    assert(s.take(a.len() as int) =~= a);
    assert(s.skip(a.len() as int + 1) =~= b);
}

proof fn lemma_split_absent(a: Seq<char>, c: char)
    requires
        lacks(a, c),
    ensures
        split_once(a, c) == (a, None::<Seq<char>>),
{
    lemma_first_index(a, c, a.len() as int);
}

proof fn lemma_lacks_concat(a: Seq<char>, b: Seq<char>, c: char)
    requires
        lacks(a, c),
        lacks(b, c),
    ensures
        lacks(a + b, c),
{
    assert forall|i: int| 0 <= i < (a + b).len() implies (a + b)[i] != c by {
        if i >= a.len() {
            assert((a + b)[i] == b[i - a.len()]);
        }
    }
}

pub open spec fn semver_text(sv: Semver) -> Seq<char> {
    decimal(sv.major as nat) + seq!['.'] + decimal(sv.minor as nat) + seq!['.'] + decimal(
        sv.patch as nat,
    )
}

pub open spec fn tag_text(pr: (Seq<char>, u32)) -> Seq<char> {
    pr.0 + seq!['.'] + decimal(pr.1 as nat)
}

proof fn lemma_semver_text(sv: Semver)
    ensures
        semver_of(semver_text(sv)) == Some(sv),
        lacks(semver_text(sv), '-'),
        semver_text(sv).len() > 0,
        semver_text(sv)[0] != 'v',
{
    let ma = decimal(sv.major as nat);
    let mi = decimal(sv.minor as nat);
    let pa = decimal(sv.patch as nat);
    lemma_number_of_decimal(sv.major);
    lemma_number_of_decimal(sv.minor);
    lemma_number_of_decimal(sv.patch);
    let core = semver_text(sv);
    let tail1 = mi + seq!['.'] + pa;
    assert(core =~= ma + seq!['.'] + tail1);
    lemma_split_at_first(ma, '.', tail1);
    lemma_split_at_first(mi, '.', pa);
    lemma_split_absent(pa, '.');
    assert(lacks(seq!['.'], '-'));
    lemma_lacks_concat(ma, seq!['.'], '-');
    lemma_lacks_concat(ma + seq!['.'], mi, '-');
    lemma_lacks_concat(ma + seq!['.'] + mi, seq!['.'], '-');
    lemma_lacks_concat(ma + seq!['.'] + mi + seq!['.'], pa, '-');
    assert(core[0] == ma[0]);
}

proof fn lemma_tag_text(pr: (Seq<char>, u32))
    requires
        lacks(pr.0, '.'),
        lacks(pr.0, '-'),
    ensures
        prerelease_of(tag_text(pr)) == Some(pr),
        lacks(tag_text(pr), '-'),
{
    let r = decimal(pr.1 as nat);
    lemma_number_of_decimal(pr.1);
    assert(lacks(seq!['.'], '-'));
    lemma_lacks_concat(pr.0, seq!['.'], '-');
    lemma_lacks_concat(pr.0 + seq!['.'], r, '-');
    lemma_split_at_first(pr.0, '.', r);
    lemma_split_absent(r, '.');
}

/// Parsing the text of a version gives back exactly its numbers and its
/// prerelease tag, whether or not the text starts with `v`; a tag's kind must
/// hold neither `.` nor `-`.
pub proof fn lemma_parse_round_trip(with_v: bool, v: VersionModel)
    requires
        v.pre matches Some(pr) ==> lacks(pr.0, '.') && lacks(pr.0, '-'),
    ensures
        parse_version(version_text(with_v, v)) == Ok::<VersionModel, VersionError>(v),
{
    let core = semver_text(v.semver);
    lemma_semver_text(v.semver);
    let lead = if with_v { seq!['v'] } else { Seq::<char>::empty() };
    let body = match v.pre {
        None => core,
        Some(pr) => core + seq!['-'] + tag_text(pr),
    };
    assert(version_text(with_v, v) =~= lead + body);
    assert(body[0] == core[0]);
    assert(strip_v(lead + body) =~= body);
    match v.pre {
        None => {
            lemma_split_absent(core, '-');
        },
        Some(pr) => {
            lemma_tag_text(pr);
            lemma_split_at_first(core, '-', tag_text(pr));
            lemma_split_absent(tag_text(pr), '-');
        },
    }
}

impl Prerelease {
    /// A copy of this tag.
    pub fn copied(&self) -> (r: Prerelease)
        ensures
            r@ == self@,
    {
        Prerelease { kind: self.kind.clone(), revision: self.revision }
    }
}

impl SemverUpgrade {
    /// Whether this step is at least as large as `other`.
    pub fn at_least(&self, other: &SemverUpgrade) -> (r: bool)
        ensures
            r == (rank(*self) >= rank(*other)),
    {
        self.rank_value() >= other.rank_value()
    }

    fn rank_value(&self) -> (r: u8)
        ensures
            r as nat == rank(*self),
    {
        match self {
            SemverUpgrade::Prerelease => 0,
            SemverUpgrade::Patch => 1,
            SemverUpgrade::Minor => 2,
            SemverUpgrade::Major => 3,
        }
    }
}

impl FullSemverVersion {
    /// Parses `[v]MAJOR.MINOR.PATCH[-KIND.REVISION]`.
    pub fn parse(data: &str) -> (r: Result<FullSemverVersion, VersionError>)
        ensures
            match r {
                Ok(v) => parse_version(data@) == Ok::<VersionModel, VersionError>(v@),
                Err(e) => parse_version(data@) == Err::<VersionModel, VersionError>(e),
            },
    {
        let n = data.unicode_len();
        let mut b: usize = 0;
        if n > 0 && data.get_char(0) == 'v' {
            b = 1;
        }
        assert(strip_v(data@) =~= data@.subrange(b as int, n as int));
        let dash = find_char(data, b, n, '-');
        let semver = match parse_semver(data, b, dash) {
            None => return Err(VersionError::MalformedVersion),
            Some(sv) => sv,
        };
        if dash == n {
            return Ok(FullSemverVersion { semver, prerelease: None });
        }
        let end = find_char(data, dash + 1, n, '-');
        assert(data@.subrange(dash + 1, n as int).subrange(0, end - dash - 1) =~= data@.subrange(
            dash + 1,
            end as int,
        ));
        match parse_prerelease(data, dash + 1, end) {
            None => Err(VersionError::MalformedVersion),
            Some(pr) => Ok(FullSemverVersion { semver, prerelease: Some(pr) }),
        }
    }
    /// Whether `self` is strictly newer than `other`.
    pub fn is_newer(&self, other: &FullSemverVersion) -> (r: Result<bool, VersionError>)
        ensures
            r == newer(self@, other@),
    {
        if self.semver != other.semver {
            let a = self.semver;
            let b = other.semver;
            Ok(b.major < a.major || (b.major == a.major && (b.minor < a.minor || (b.minor
                == a.minor && b.patch < a.patch))))
        } else {
            match (&self.prerelease, &other.prerelease) {
                (None, None) => Ok(false),
                (None, Some(_)) => Ok(true),
                (Some(_), None) => Ok(false),
                (Some(x), Some(y)) => if x.kind != y.kind {
                    Err(VersionError::UnsupportedPrereleaseComparison)
                } else {
                    Ok(x.revision > y.revision)
                },
            }
        }
    }

    /// The size of the step from `self` to `other`.
    pub fn upgrade_kind(&self, other: &FullSemverVersion) -> (r: SemverUpgrade)
        ensures
            r == upgrade(self@, other@),
    {
        if self.semver.major < other.semver.major {
            SemverUpgrade::Major
        } else if self.semver.minor < other.semver.minor {
            SemverUpgrade::Minor
        } else if self.semver.patch < other.semver.patch {
            SemverUpgrade::Patch
        } else {
            match (&self.prerelease, &other.prerelease) {
                (Some(_), None) => SemverUpgrade::Prerelease,
                (Some(x), Some(y)) => if x.kind == y.kind && x.revision < y.revision {
                    SemverUpgrade::Prerelease
                } else {
                    SemverUpgrade::Patch
                },
                _ => SemverUpgrade::Patch,
            }
        }
    }
}

} // verus!
