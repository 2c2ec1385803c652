use furnace::cli::update::{get_latest_git_tag, parse_alpha_tag, version_lt, AlphaVersion};

#[test]
fn test_alpha_version_ordering() {
    assert!(parse_alpha_tag("alpha-4").unwrap() < parse_alpha_tag("alpha-5-half-1").unwrap());

    assert!(parse_alpha_tag("alpha-5-half-1").unwrap() < parse_alpha_tag("alpha-5").unwrap());

    assert!(parse_alpha_tag("alpha-5").unwrap() < parse_alpha_tag("alpha-5.1").unwrap());

    assert!(parse_alpha_tag("alpha-5.1").unwrap() < parse_alpha_tag("alpha-6").unwrap());

    assert!(parse_alpha_tag("v0.3.2").is_none());
}

#[test]
fn alpha_tag_fields() {
    assert_eq!(
        parse_alpha_tag("alpha-5-half-1"),
        Some(AlphaVersion { major: 5, stage: 0, minor: 1 })
    );
    assert_eq!(parse_alpha_tag("alpha-6"), Some(AlphaVersion { major: 6, stage: 1, minor: 0 }));
    assert_eq!(parse_alpha_tag("alpha-5.12"), Some(AlphaVersion { major: 5, stage: 2, minor: 12 }));
    assert_eq!(parse_alpha_tag("alpha-+7"), Some(AlphaVersion { major: 7, stage: 1, minor: 0 }));
}

#[test]
fn alpha_tag_rejects_malformed() {
    assert_eq!(parse_alpha_tag("alpha-"), None);
    assert_eq!(parse_alpha_tag("alpha-x"), None);
    assert_eq!(parse_alpha_tag("alpha-5."), None);
    assert_eq!(parse_alpha_tag("alpha-5-half-"), None);
    assert_eq!(parse_alpha_tag("alpha-4294967296"), None);
    assert_eq!(parse_alpha_tag("Alpha-5"), None);
    assert_eq!(parse_alpha_tag(""), None);
}

#[test]
fn alpha_tag_largest_u32() {
    assert_eq!(
        parse_alpha_tag("alpha-4294967295"),
        Some(AlphaVersion { major: 4294967295, stage: 1, minor: 0 })
    );
}

#[test]
fn version_lt_matches_derived_order() {
    let tags = ["alpha-4", "alpha-5-half-1", "alpha-5-half-2", "alpha-5", "alpha-5.1", "alpha-6"];
    for a in tags.iter() {
        for b in tags.iter() {
            let va = parse_alpha_tag(a).unwrap();
            let vb = parse_alpha_tag(b).unwrap();
            assert_eq!(version_lt(&va, &vb), va < vb);
        }
    }
}

#[test]
fn latest_tag_is_newest() {
    let tags = "alpha-4\nalpha-5.1\nnot-a-tag\nalpha-5-half-3\nalpha-5\n";
    assert_eq!(get_latest_git_tag(tags), Ok("alpha-5.1".to_string()));
}

#[test]
fn latest_tag_none_valid() {
    assert_eq!(
        get_latest_git_tag("v1.0\nrelease\n"),
        Err("No valid ForgeLang alpha tags found".to_string())
    );
    assert!(get_latest_git_tag("").is_err());
}
