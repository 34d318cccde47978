//! The patch catalog and the choice of patches that bring an install up to date.
use vstd::prelude::*;
use crate::version::{
    FullSemverVersion, Prerelease, Semver, SemverUpgrade, VersionError, VersionModel,
    lemma_parse_round_trip, newer, parse_version, pre_model, rank, upgrade, version_text,
};

verus! {

/// A game and the patches released for it, oldest first.
#[derive(Debug)]
pub struct Game {
    pub name: String,
    pub yno_translation: Option<String>,
    pub patches: Vec<Patch>,
}

/// One released patch.
#[derive(Debug)]
pub struct Patch {
    pub version: Semver,
    pub prerelease: Option<Prerelease>,
    /// Installing this patch alone brings any older install up to date.
    pub standalone: bool,
    pub version_name: String,
    pub link: String,
    pub path: String,
}

/// The value of `standalone` for a catalog entry that does not give one.
pub fn default_true() -> (r: bool)
    ensures
        r,
{
    true
}

pub open spec fn version_of(p: Patch) -> VersionModel {
    VersionModel { semver: p.version, pre: pre_model(p.prerelease) }
}

impl Patch {
    /// The version that this patch installs.
    pub fn full_semver_version(&self) -> (r: FullSemverVersion)
        ensures
            r@ == version_of(*self),
    {
        let prerelease = match &self.prerelease {
            Some(pr) => Some(pr.copied()),
            None => None,
        };
        FullSemverVersion { semver: self.version, prerelease }
    }
}

/// The first index from `i` on whose patch is newer than `installed` and whose
/// step from `installed` is at least `target`.
pub open spec fn first_candidate(
    patches: Seq<Patch>,
    installed: VersionModel,
    target: SemverUpgrade,
    i: int,
) -> Result<Option<int>, VersionError>
    decreases patches.len() - i,
{
    if i < 0 || i >= patches.len() {
        Ok(None)
    } else {
        match newer(version_of(patches[i]), installed) {
            Err(e) => Err(e),
            Ok(false) => first_candidate(patches, installed, target, i + 1),
            Ok(true) => if rank(upgrade(installed, version_of(patches[i]))) >= rank(target) {
                Ok(Some(i))
            } else {
                first_candidate(patches, installed, target, i + 1)
            },
        }
    }
}

/// The last standalone index at or after `i`, or `i` where there is none.
pub open spec fn shortcut_start(patches: Seq<Patch>, i: int) -> int
    decreases patches.len(),
{
    if patches.len() == 0 || patches.len() <= i {
        i
    } else if patches.last().standalone {
        patches.len() - 1
    } else {
        shortcut_start(patches.drop_last(), i)
    }
}

/// Where the patches to apply begin, or `None` when none is due.
pub open spec fn plan_start(patches: Seq<Patch>, installed: VersionModel) -> Result<
    Option<int>,
    VersionError,
> {
    if patches.len() == 0 {
        Ok(None)
    } else {
        let target = upgrade(installed, version_of(patches.last()));
        match first_candidate(patches, installed, target, 0) {
            Err(e) => Err(e),
            Ok(None) => Ok(None),
            Ok(Some(i)) => Ok(Some(shortcut_start(patches, i))),
        }
    }
}

/// The patches to apply, in order, to bring `installed` up to date.
pub open spec fn plan(patches: Seq<Patch>, installed: VersionModel) -> Result<
    Seq<Patch>,
    VersionError,
> {
    match plan_start(patches, installed) {
        Err(e) => Err(e),
        Ok(None) => Ok(Seq::empty()),
        Ok(Some(j)) => Ok(patches.subrange(j, patches.len() as int)),
    }
}

pub open spec fn zero_version_text() -> Seq<char> {
    seq!['0', '.', '0', '.', '0']
}

/// The installed version's text; a fresh install counts as `0.0.0`.
pub open spec fn installed_text(current: Option<Seq<char>>) -> Seq<char> {
    match current {
        Some(t) => t,
        None => zero_version_text(),
    }
}

/// What `calculate_patch` returns, over plain values.
pub open spec fn resolve(patches: Seq<Patch>, current: Option<Seq<char>>) -> Result<
    Seq<Patch>,
    VersionError,
> {
    match parse_version(installed_text(current)) {
        Err(e) => Err(e),
        Ok(v) => plan(patches, v),
    }
}

pub open spec fn text_of(current: Option<&str>) -> Option<Seq<char>> {
    match current {
        Some(t) => Some(t@),
        None => None,
    }
}

pub open spec fn deref_all(s: Seq<&Patch>) -> Seq<Patch> {
    s.map_values(|p: &Patch| *p)
}

fn find_candidate(patches: &[Patch], installed: &FullSemverVersion, target: &SemverUpgrade) -> (r:
    Result<Option<usize>, VersionError>)
    ensures
        r matches Ok(Some(i)) ==> i < patches@.len(),
        match r {
            Ok(Some(i)) => first_candidate(patches@, installed@, *target, 0) == Ok::<
                Option<int>,
                VersionError,
            >(Some(i as int)),
            Ok(None) => first_candidate(patches@, installed@, *target, 0) == Ok::<
                Option<int>,
                VersionError,
            >(None),
            Err(e) => first_candidate(patches@, installed@, *target, 0) == Err::<
                Option<int>,
                VersionError,
            >(e),
        },
{
    let mut i: usize = 0;
    while i < patches.len()
        invariant
            i <= patches@.len(),
            first_candidate(patches@, installed@, *target, 0) == first_candidate(
                patches@,
                installed@,
                *target,
                i as int,
            ),
        decreases patches@.len() - i,
    {
        let v = patches[i].full_semver_version();
        match v.is_newer(installed) {
            Err(e) => return Err(e),
            Ok(false) => {},
            Ok(true) => {
                if installed.upgrade_kind(&v).at_least(target) {
                    return Ok(Some(i));
                }
            },
        }
        i = i + 1;
    }
    Ok(None)
}

fn find_shortcut(patches: &[Patch], i: usize) -> (j: usize)
    requires
        i < patches@.len(),
    ensures
        i <= j < patches@.len(),
        j == shortcut_start(patches@, i as int),
{
    let mut j = patches.len();
    assert(patches@.take(j as int) =~= patches@);
    while j > i && !patches[j - 1].standalone
        invariant
            i <= j <= patches@.len(),
            shortcut_start(patches@, i as int) == shortcut_start(patches@.take(j as int), i as int),
        decreases j,
    {
        assert(patches@.take(j as int).drop_last() =~= patches@.take(j - 1));
        j = j - 1;
    }
    if j > i {
        j - 1
    } else {
        i
    }
}

/// The patches to apply, in catalog order, to bring `installed` up to date.
fn select<'a>(patches: &'a [Patch], installed: &FullSemverVersion) -> (r: Result<
    Vec<&'a Patch>,
    VersionError,
>)
    ensures
        match r {
            Ok(out) => plan(patches@, installed@) == Ok::<Seq<Patch>, VersionError>(
                deref_all(out@),
            ),
            Err(e) => plan(patches@, installed@) == Err::<Seq<Patch>, VersionError>(e),
        },
{
    let mut out: Vec<&'a Patch> = Vec::new();
    let n = patches.len();
    if n == 0 {
        assert(deref_all(out@) =~= Seq::<Patch>::empty());
        return Ok(out);
    }
    let latest = patches[n - 1].full_semver_version();
    let target = installed.upgrade_kind(&latest);
    let first = match find_candidate(patches, installed, &target) {
        Err(e) => return Err(e),
        Ok(None) => {
            assert(deref_all(out@) =~= Seq::<Patch>::empty());
            return Ok(out);
        },
        Ok(Some(i)) => i,
    };
    let start = find_shortcut(patches, first);
    let mut k = start;
    while k < n
        invariant
            start <= k <= n,
            n == patches@.len(),
            deref_all(out@) =~= patches@.subrange(start as int, k as int),
        decreases n - k,
    {
        let ghost before = out@;
        out.push(&patches[k]);
        assert(deref_all(out@) =~= deref_all(before).push(patches@[k as int]));
        k = k + 1;
    }
    Ok(out)
}

/// The patches to apply, in catalog order, to bring the installed version
/// `current` up to the newest patch of `patches`; `None` is a fresh install.
/// `patches` is expected in strictly increasing version order.
pub fn calculate_patch<'a>(patches: &'a [Patch], current: Option<&str>) -> (r: Result<
    Vec<&'a Patch>,
    VersionError,
>)
    ensures
        match r {
            Ok(out) => resolve(patches@, text_of(current)) == Ok::<Seq<Patch>, VersionError>(
                deref_all(out@),
            ),
            Err(e) => resolve(patches@, text_of(current)) == Err::<Seq<Patch>, VersionError>(e),
        },
{
    let text: &str = match current {
        Some(t) => t,
        None => "0.0.0",
    };
    proof {
        reveal_strlit("0.0.0");
    }
    assert(text@ =~= installed_text(text_of(current)));
    let installed = match FullSemverVersion::parse(text) {
        Err(e) => return Err(e),
        Ok(v) => v,
    };
    select(patches, &installed)
}

/// The catalog is in strictly increasing version order.
pub open spec fn sorted(patches: Seq<Patch>) -> bool {
    forall|i: int, j: int|
        0 <= i < j < patches.len() ==> newer(version_of(#[trigger] patches[j]), version_of(
            #[trigger] patches[i],
        )) == Ok::<bool, VersionError>(true)
}

proof fn lemma_candidate_bounds(
    patches: Seq<Patch>,
    installed: VersionModel,
    target: SemverUpgrade,
    i: int,
)
    requires
        0 <= i,
    ensures
        first_candidate(patches, installed, target, i) matches Ok(Some(k)) ==> i <= k
            < patches.len(),
    decreases patches.len() - i,
{
    if i < patches.len() {
        lemma_candidate_bounds(patches, installed, target, i + 1);
    }
}

proof fn lemma_shortcut_bounds(patches: Seq<Patch>, i: int, j: int)
    requires
        0 <= i <= j < patches.len(),
    ensures
        i <= shortcut_start(patches, i) < patches.len(),
        patches[j].standalone ==> j <= shortcut_start(patches, i),
    decreases patches.len(),
{
    if !patches.last().standalone {
        if j < patches.len() - 1 {
            lemma_shortcut_bounds(patches.drop_last(), i, j);
        } else if i < patches.len() - 1 {
            lemma_shortcut_bounds(patches.drop_last(), i, i);
        } else {
            assert(shortcut_start(patches.drop_last(), i) == i);
        }
    }
}

/// Whatever the catalog and the installed version, a nonempty result is a
/// contiguous tail of the catalog.
pub proof fn lemma_result_is_suffix(patches: Seq<Patch>, current: Option<Seq<char>>)
    ensures
        resolve(patches, current) matches Ok(s) ==> s.len() == 0 || exists|j: int|
            0 <= j < patches.len() && s == #[trigger] patches.subrange(j, patches.len() as int),
{
    if let Ok(v) = parse_version(installed_text(current)) {
        if patches.len() > 0 {
            let target = upgrade(v, version_of(patches.last()));
            lemma_candidate_bounds(patches, v, target, 0);
            if let Ok(Some(i)) = first_candidate(patches, v, target, 0) {
                lemma_shortcut_bounds(patches, i, i);
                let j = shortcut_start(patches, i);
                assert(resolve(patches, current) == Ok::<Seq<Patch>, VersionError>(
                    patches.subrange(j, patches.len() as int),
                ));
            }
        }
    }
}

proof fn lemma_not_newer_chain(a: VersionModel, b: VersionModel, c: VersionModel)
    requires
        newer(b, a) == Ok::<bool, VersionError>(true),
        newer(b, c) == Ok::<bool, VersionError>(false),
    ensures
        newer(a, c) == Ok::<bool, VersionError>(false),
{
}

proof fn lemma_no_candidate(
    patches: Seq<Patch>,
    installed: VersionModel,
    target: SemverUpgrade,
    i: int,
)
    requires
        0 <= i,
        forall|k: int|
            0 <= k < patches.len() ==> newer(version_of(#[trigger] patches[k]), installed)
                == Ok::<bool, VersionError>(false),
    ensures
        first_candidate(patches, installed, target, i) == Ok::<Option<int>, VersionError>(None),
    decreases patches.len() - i,
{
    if i < patches.len() {
        lemma_no_candidate(patches, installed, target, i + 1);
    }
}

proof fn lemma_up_to_date_model(patches: Seq<Patch>, installed: VersionModel)
    requires
        sorted(patches),
        patches.len() > 0,
        newer(version_of(patches.last()), installed) == Ok::<bool, VersionError>(false),
    ensures
        plan(patches, installed) == Ok::<Seq<Patch>, VersionError>(Seq::empty()),
{
    let n = patches.len() as int;
    assert forall|k: int| 0 <= k < n implies newer(version_of(#[trigger] patches[k]), installed)
        == Ok::<bool, VersionError>(false) by {
        if k < n - 1 {
            assert(newer(version_of(patches[n - 1]), version_of(patches[k])) == Ok::<
                bool,
                VersionError,
            >(true));
            lemma_not_newer_chain(version_of(patches[k]), version_of(patches[n - 1]), installed);
        }
    }
    lemma_no_candidate(patches, installed, upgrade(installed, version_of(patches.last())), 0);
}

/// An installed version that equals or passes the newest patch of a sorted
/// catalog needs nothing.
pub proof fn lemma_up_to_date(patches: Seq<Patch>, current: Option<Seq<char>>)
    requires
        sorted(patches),
        patches.len() > 0,
        parse_version(installed_text(current)) matches Ok(v) && newer(
            version_of(patches.last()),
            v,
        ) == Ok::<bool, VersionError>(false),
    ensures
        resolve(patches, current) == Ok::<Seq<Patch>, VersionError>(Seq::empty()),
{
    if let Ok(v) = parse_version(installed_text(current)) {
        lemma_up_to_date_model(patches, v);
    }
}

/// A standalone patch in the selected window, which starts at the first
/// patch whose step from the installed version is as large as the step to
/// the newest, leaves out every patch before it: the result is a tail of the
/// catalog that starts at it or later.
pub proof fn lemma_standalone_shortcut(patches: Seq<Patch>, current: Option<Seq<char>>, j: int)
    requires
        patches.len() > 0,
        0 <= j < patches.len(),
        patches[j].standalone,
        parse_version(installed_text(current)) matches Ok(v) && first_candidate(
            patches,
            v,
            upgrade(v, version_of(patches.last())),
            0,
        ) matches Ok(Some(i)) && i <= j,
    ensures
        resolve(patches, current) matches Ok(s) && s.len() <= patches.len() - j && s
            == patches.subrange(patches.len() - s.len(), patches.len() as int),
{
    if let Ok(v) = parse_version(installed_text(current)) {
        let target = upgrade(v, version_of(patches.last()));
        lemma_candidate_bounds(patches, v, target, 0);
        if let Ok(Some(i)) = first_candidate(patches, v, target, 0) {
            lemma_shortcut_bounds(patches, i, j);
        }
    }
}

/// A fresh install is resolved exactly as an install of `0.0.0`.
pub proof fn lemma_fresh_install(patches: Seq<Patch>)
    ensures
        resolve(patches, None) == resolve(patches, Some(zero_version_text())),
        resolve(patches, None) == plan(
            patches,
            VersionModel { semver: Semver { major: 0, minor: 0, patch: 0 }, pre: None },
        ),
{
    let zero = VersionModel { semver: Semver { major: 0, minor: 0, patch: 0 }, pre: None };
    lemma_parse_round_trip(false, zero);
    assert(version_text(false, zero) =~= zero_version_text());
}

} // verus!
