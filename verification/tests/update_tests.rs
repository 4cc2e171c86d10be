use ardiex::update::{
    compare_versions, find_release_asset_download_url, is_newer_version, normalize_version,
    parse_semver_triplet, GitHubRelease, GitHubReleaseAsset,
};
use std::cmp::Ordering;

#[test]
fn normalize_version_strips_prefix_and_prerelease() {
    assert_eq!(normalize_version("v1.2.3"), "1.2.3");
    assert_eq!(normalize_version("V2.0.1"), "2.0.1");
    assert_eq!(normalize_version("1.2.3-beta.1"), "1.2.3");
    assert_eq!(normalize_version("1.2.3+build.5"), "1.2.3");
}

#[test]
fn compare_versions_orders_semver_triplets() {
    assert_eq!(compare_versions("1.2.3", "1.2.3"), Ordering::Equal);
    assert_eq!(compare_versions("1.2.3", "1.2.4"), Ordering::Less);
    assert_eq!(compare_versions("1.10.0", "1.2.0"), Ordering::Greater);
}

#[test]
fn is_newer_version_detects_candidate_newer() {
    assert!(is_newer_version("0.1.0", "0.2.0"));
    assert!(!is_newer_version("0.2.0", "0.2.0"));
    assert!(!is_newer_version("0.3.0", "0.2.9"));
}

#[test]
fn find_release_asset_download_url_returns_error_for_missing_asset() {
    let release = GitHubRelease {
        tag_name: String::from("v1.0.0"),
        assets: vec![GitHubReleaseAsset {
            name: String::from("ardiex-linux-amd64.tar.gz"),
            browser_download_url: String::from("https://example.invalid/asset"),
        }],
    };

    let err = find_release_asset_download_url(&release, "ardiex-windows-amd64.zip")
        .expect_err("missing asset must return error");
    assert!(err.message().contains("Release asset"));
}

#[test]
fn find_release_asset_download_url_returns_first_match() {
    let release = GitHubRelease {
        tag_name: String::from("v1.0.0"),
        assets: vec![GitHubReleaseAsset {
            name: String::from("ardiex-linux-amd64.tar.gz"),
            browser_download_url: String::from("https://example.invalid/asset"),
        }],
    };
    let url = find_release_asset_download_url(&release, "ardiex-linux-amd64.tar.gz")
        .expect("present asset must be found");
    assert_eq!(url, "https://example.invalid/asset");
}

#[test]
fn parse_semver_triplet_reads_three_components() {
    assert_eq!(parse_semver_triplet("1.2.3"), Some((1, 2, 3)));
    assert_eq!(parse_semver_triplet("v10.20.30"), Some((10, 20, 30)));
    assert_eq!(parse_semver_triplet("1.2"), None);
    assert_eq!(parse_semver_triplet("1.2.3.4"), None);
    assert_eq!(parse_semver_triplet("1.2.x"), None);
}
