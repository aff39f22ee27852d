use mcpreg::semver::compare_versions;
use std::cmp::Ordering;

#[test]
fn test_compare_versions_equal() {
    assert_eq!(compare_versions("1.0.0", "1.0.0"), Ordering::Equal);
}

#[test]
fn test_compare_versions_greater() {
    assert_eq!(compare_versions("2.0.0", "1.0.0"), Ordering::Greater);
    assert_eq!(compare_versions("1.1.0", "1.0.0"), Ordering::Greater);
    assert_eq!(compare_versions("1.0.1", "1.0.0"), Ordering::Greater);
}

#[test]
fn test_compare_versions_less() {
    assert_eq!(compare_versions("1.0.0", "2.0.0"), Ordering::Less);
}

#[test]
fn test_compare_versions_date_style() {
    assert_eq!(compare_versions("2025.1.0", "2024.11.0"), Ordering::Greater);
}

#[test]
fn test_compare_versions_partial() {
    assert_eq!(compare_versions("1.0", "1.0.0"), Ordering::Equal);
    assert_eq!(compare_versions("2", "1.9.9"), Ordering::Greater);
}

#[test]
fn test_compare_versions_empty() {
    assert_eq!(compare_versions("", ""), Ordering::Equal);
}

#[test]
fn test_compare_versions_prerelease_style() {
    assert_eq!(compare_versions("1.0.0", "1.0.0"), Ordering::Equal);
}

#[test]
fn test_compare_versions_many_segments() {
    assert_eq!(compare_versions("1.2.3.4", "1.2.3.4"), Ordering::Equal);
    assert_eq!(compare_versions("1.2.3.5", "1.2.3.4"), Ordering::Equal);
}

#[test]
fn test_compare_versions_zero_padded() {
    assert_eq!(compare_versions("01.02.03", "1.2.3"), Ordering::Equal);
}

#[test]
fn compare_versions_non_numeric_pieces_count_as_zero() {
    assert_eq!(compare_versions("1.x.3", "1.0.3"), Ordering::Equal);
    assert_eq!(compare_versions("1.0.0-beta", "1.0.0"), Ordering::Equal);
}

#[test]
fn compare_versions_is_antisymmetric_on_samples() {
    let vs = ["1.0.0", "1.2", "0.9.9", "10.0.0", "2024.11.0"];
    for a in vs.iter() {
        for b in vs.iter() {
            assert_eq!(compare_versions(a, b), compare_versions(b, a).reverse());
        }
    }
}
