use ynomanager::patch::{calculate_patch, default_true, Patch};
use ynomanager::version::{FullSemverVersion, Prerelease, Semver, SemverUpgrade, VersionError};

fn patch(major: u32, minor: u32, patch: u32, standalone: bool) -> Patch {
    let name = format!("{}.{}.{}", major, minor, patch);
    Patch {
        version: Semver { major, minor, patch },
        prerelease: None,
        standalone,
        version_name: name.clone(),
        link: format!("https://example.com/{}", name),
        path: name,
    }
}

fn pre_patch(major: u32, minor: u32, patch: u32, kind: &str, revision: u32) -> Patch {
    let mut p = self::patch(major, minor, patch, false);
    p.prerelease = Some(Prerelease { kind: kind.to_string(), revision });
    p
}

fn three() -> Vec<Patch> {
    vec![patch(1, 0, 0, false), patch(1, 0, 1, true), patch(1, 0, 2, false)]
}

fn versions(result: &[&Patch]) -> Vec<(u32, u32, u32)> {
    result.iter().map(|p| (p.version.major, p.version.minor, p.version.patch)).collect()
}

fn version(major: u32, minor: u32, patch: u32) -> FullSemverVersion {
    FullSemverVersion { semver: Semver { major, minor, patch }, prerelease: None }
}

fn pre_version(major: u32, minor: u32, patch: u32, kind: &str, revision: u32) -> FullSemverVersion {
    FullSemverVersion {
        semver: Semver { major, minor, patch },
        prerelease: Some(Prerelease { kind: kind.to_string(), revision }),
    }
}

#[test]
fn test_only_take_last_standalone_and_subsequent() {
    let patches = vec![
        Patch {
            version: Semver { major: 1, minor: 0, patch: 0 },
            prerelease: None,
            standalone: false,
            version_name: "1.0.0".to_string(),
            link: "https://example.com/1.0.0".to_string(),
            path: "1.0.0".to_string(),
        },
        Patch {
            version: Semver { major: 1, minor: 0, patch: 1 },
            prerelease: None,
            standalone: true,
            version_name: "1.0.1".to_string(),
            link: "https://example.com/1.0.1".to_string(),
            path: "1.0.1".to_string(),
        },
        Patch {
            version: Semver { major: 1, minor: 0, patch: 2 },
            prerelease: None,
            standalone: false,
            version_name: "1.0.2".to_string(),
            link: "https://example.com/1.0.2".to_string(),
            path: "1.0.2".to_string(),
        },
    ];
    let result = calculate_patch(&patches, None).unwrap();
    assert!(matches!(
        &result[..],
        [
            Patch { version: Semver { major: 1, minor: 0, patch: 1 }, .. },
            Patch { version: Semver { major: 1, minor: 0, patch: 2 }, .. }
        ]
    ));
}

#[test]
fn fresh_install_skips_patches_before_standalone() {
    let patches = three();
    let result = calculate_patch(&patches, None).unwrap();
    assert_eq!(versions(&result), vec![(1, 0, 1), (1, 0, 2)]);
}

#[test]
fn installed_middle_patch_needs_only_the_last() {
    let patches = three();
    let result = calculate_patch(&patches, Some("1.0.1")).unwrap();
    assert_eq!(versions(&result), vec![(1, 0, 2)]);
}

#[test]
fn installed_latest_needs_nothing() {
    let patches = three();
    let result = calculate_patch(&patches, Some("1.0.2")).unwrap();
    assert!(result.is_empty());
}

#[test]
fn older_install_takes_single_standalone() {
    let patches = vec![patch(1, 0, 0, true)];
    let result = calculate_patch(&patches, Some("0.5.0")).unwrap();
    assert_eq!(versions(&result), vec![(1, 0, 0)]);
}

#[test]
fn install_ahead_of_catalog_needs_nothing() {
    let patches = vec![patch(1, 0, 0, true)];
    let result = calculate_patch(&patches, Some("2.0.0")).unwrap();
    assert!(result.is_empty());
}

#[test]
fn empty_catalog_needs_nothing() {
    let patches: Vec<Patch> = vec![];
    assert!(calculate_patch(&patches, None).unwrap().is_empty());
    assert!(calculate_patch(&patches, Some("3.1.4")).unwrap().is_empty());
}

#[test]
fn fresh_install_matches_zero_version() {
    let patches = three();
    let a = calculate_patch(&patches, None).unwrap();
    let b = calculate_patch(&patches, Some("0.0.0")).unwrap();
    assert_eq!(versions(&a), versions(&b));
    let c = calculate_patch(&patches, Some("v0.0.0")).unwrap();
    assert_eq!(versions(&a), versions(&c));
}

#[test]
fn result_is_a_suffix_of_the_catalog() {
    let patches = vec![
        patch(1, 0, 0, true),
        patch(1, 1, 0, false),
        patch(1, 2, 0, false),
        patch(2, 0, 0, false),
    ];
    for current in [None, Some("1.0.0"), Some("1.1.0"), Some("1.2.0"), Some("2.0.0")] {
        let result = calculate_patch(&patches, current).unwrap();
        if !result.is_empty() {
            let start = patches.len() - result.len();
            for (k, p) in result.iter().enumerate() {
                assert!(std::ptr::eq(*p, &patches[start + k]));
            }
        }
    }
}

#[test]
fn no_standalone_keeps_whole_chain() {
    let patches = vec![patch(1, 0, 0, false), patch(1, 0, 1, false), patch(1, 0, 2, false)];
    let result = calculate_patch(&patches, Some("0.9.0")).unwrap();
    assert_eq!(versions(&result), vec![(1, 0, 0), (1, 0, 1), (1, 0, 2)]);
}

#[test]
fn major_jump_starts_at_first_major_patch() {
    // From 1.4.0 the latest 2.1.0 is a major step; 1.5.0 is only a minor one,
    // so the chain starts at 2.0.0.
    let patches = vec![
        patch(1, 5, 0, false),
        patch(2, 0, 0, false),
        patch(2, 1, 0, false),
    ];
    let result = calculate_patch(&patches, Some("1.4.0")).unwrap();
    assert_eq!(versions(&result), vec![(2, 0, 0), (2, 1, 0)]);
}

#[test]
fn later_standalone_wins_over_earlier_one() {
    let patches = vec![
        patch(1, 0, 0, true),
        patch(1, 0, 1, false),
        patch(1, 0, 2, true),
        patch(1, 0, 3, false),
    ];
    let result = calculate_patch(&patches, Some("0.1.0")).unwrap();
    assert_eq!(versions(&result), vec![(1, 0, 2), (1, 0, 3)]);
}

#[test]
fn prerelease_install_finishes_with_release() {
    let patches = vec![pre_patch(1, 0, 0, "beta", 1), pre_patch(1, 0, 0, "beta", 2), patch(1, 0, 0, false)];
    let result = calculate_patch(&patches, Some("1.0.0-beta.1")).unwrap();
    let revs: Vec<Option<u32>> =
        result.iter().map(|p| p.prerelease.as_ref().map(|r| r.revision)).collect();
    assert_eq!(revs, vec![Some(2), None]);
}

#[test]
fn malformed_installed_version_is_rejected() {
    let patches = three();
    assert_eq!(calculate_patch(&patches, Some("1.x.0")).unwrap_err(), VersionError::MalformedVersion);
    assert_eq!(calculate_patch(&patches, Some("1.0")).unwrap_err(), VersionError::MalformedVersion);
}

#[test]
fn mixed_prerelease_kinds_are_rejected() {
    let patches = vec![pre_patch(1, 0, 0, "beta", 1)];
    assert_eq!(
        calculate_patch(&patches, Some("1.0.0-alpha.1")).unwrap_err(),
        VersionError::UnsupportedPrereleaseComparison
    );
}

#[test]
fn parse_plain_and_prefixed() {
    assert_eq!(FullSemverVersion::parse("1.2.3"), Ok(version(1, 2, 3)));
    assert_eq!(FullSemverVersion::parse("v1.2.3"), Ok(version(1, 2, 3)));
    assert_eq!(FullSemverVersion::parse("v10.0.4294967295"), Ok(version(10, 0, 4294967295)));
}

#[test]
fn parse_prerelease_tag() {
    assert_eq!(FullSemverVersion::parse("v2.0.1-beta.7"), Ok(pre_version(2, 0, 1, "beta", 7)));
    assert_eq!(FullSemverVersion::parse("0.123.4-rc.0"), Ok(pre_version(0, 123, 4, "rc", 0)));
}

#[test]
fn parse_rejects_malformed_text() {
    for text in ["", "v", "1", "1.2", "1.2.", "a.b.c", "1.2.3-beta", "1.2.3-beta.x", "1.2.4294967296", "-1.2.3", "vv1.2.3"] {
        assert_eq!(FullSemverVersion::parse(text), Err(VersionError::MalformedVersion), "{}", text);
    }
}

#[test]
fn parse_ignores_extra_segments() {
    assert_eq!(FullSemverVersion::parse("1.2.3.4"), Ok(version(1, 2, 3)));
    assert_eq!(FullSemverVersion::parse("1.2.3-beta.2.9"), Ok(pre_version(1, 2, 3, "beta", 2)));
    assert_eq!(FullSemverVersion::parse("1.2.3-beta.2-x"), Ok(pre_version(1, 2, 3, "beta", 2)));
}

#[test]
fn upgrade_kind_classifies_steps() {
    let base = version(1, 2, 3);
    assert_eq!(base.upgrade_kind(&version(2, 0, 0)), SemverUpgrade::Major);
    assert_eq!(base.upgrade_kind(&version(1, 3, 0)), SemverUpgrade::Minor);
    assert_eq!(base.upgrade_kind(&version(1, 2, 4)), SemverUpgrade::Patch);
    assert_eq!(base.upgrade_kind(&version(1, 2, 3)), SemverUpgrade::Patch);
    let pre = pre_version(1, 2, 3, "beta", 1);
    assert_eq!(pre.upgrade_kind(&version(1, 2, 3)), SemverUpgrade::Prerelease);
    assert_eq!(pre.upgrade_kind(&pre_version(1, 2, 3, "beta", 2)), SemverUpgrade::Prerelease);
    assert_eq!(pre.upgrade_kind(&pre_version(1, 2, 3, "beta", 1)), SemverUpgrade::Patch);
    assert_eq!(pre.upgrade_kind(&pre_version(1, 2, 3, "rc", 5)), SemverUpgrade::Patch);
}

#[test]
fn upgrade_ranks_are_ordered() {
    assert!(SemverUpgrade::Major.at_least(&SemverUpgrade::Minor));
    assert!(SemverUpgrade::Patch.at_least(&SemverUpgrade::Patch));
    assert!(!SemverUpgrade::Prerelease.at_least(&SemverUpgrade::Patch));
    assert!(SemverUpgrade::Prerelease < SemverUpgrade::Patch);
}

#[test]
fn release_is_newer_than_its_prerelease() {
    let release = version(1, 0, 0);
    let beta = pre_version(1, 0, 0, "beta", 3);
    assert_eq!(release.is_newer(&beta), Ok(true));
    assert_eq!(beta.is_newer(&release), Ok(false));
    assert_eq!(pre_version(1, 0, 0, "beta", 4).is_newer(&beta), Ok(true));
    assert_eq!(version(1, 0, 1).is_newer(&release), Ok(true));
    assert_eq!(version(0, 9, 9).is_newer(&beta), Ok(false));
    assert_eq!(release.is_newer(&release), Ok(false));
    assert_eq!(
        pre_version(1, 0, 0, "alpha", 9).is_newer(&beta),
        Err(VersionError::UnsupportedPrereleaseComparison)
    );
}

#[test]
fn patch_reports_its_version() {
    let p = pre_patch(3, 1, 4, "rc", 2);
    assert_eq!(p.full_semver_version(), pre_version(3, 1, 4, "rc", 2));
    assert_eq!(patch(0, 0, 7, true).full_semver_version(), version(0, 0, 7));
}

#[test]
fn standalone_defaults_to_true() {
    assert!(default_true());
}
