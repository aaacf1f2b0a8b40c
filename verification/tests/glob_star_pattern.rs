use mmv_lib::GlobStarPattern;

fn check(pattern: &str, test_data: &[(&str, Option<Vec<&str>>)]) {
    let compiled_pattern = GlobStarPattern::from(pattern);
    for (string_to_match, expected_result) in test_data {
        if let Some(match_result) = expected_result {
            assert_eq!(match_result.len(), compiled_pattern.wildcards_number());
        }
        let expected: Option<Vec<String>> = expected_result
            .as_ref()
            .map(|fragments| fragments.iter().map(|fragment| fragment.to_string()).collect());
        assert_eq!(compiled_pattern.match_string(string_to_match), expected);
    }
}

#[test]
fn single_star() {
    check(
        "*",
        &[
            ("hello", Some(vec!["hello"])),
            ("", Some(vec![""])),
            ("e", Some(vec!["e"])),
        ],
    );
}

#[test]
fn no_wildcard() {
    check(
        "pattern",
        &[
            ("pattern", Some(vec![])),
            ("42", None),
            ("", None),
            ("patternpattern", None),
            ("junkpattern", None),
            ("patternjunk", None),
        ],
    );
}

#[test]
fn simple() {
    check(
        "*.jpg",
        &[
            ("filename.jpg", Some(vec!["filename"])),
            (".jpg", Some(vec![""])),
            ("best_project.rs", None),
            ("", None),
            ("image.jpg.zip", None),
        ],
    );
}

#[test]
fn star_dot_star() {
    check(
        "*.*",
        &[
            ("42.rs", Some(vec!["42", "rs"])),
            (".", Some(vec!["", ""])),
            (".rs", Some(vec!["", "rs"])),
            ("42.", Some(vec!["42", ""])),
            ("nodotrs", None),
            ("", None),
        ],
    );
}

#[test]
fn two_wildcards() {
    check(
        "file*.*",
        &[
            ("file.jpg", Some(vec!["", "jpg"])),
            ("file.", Some(vec!["", ""])),
            ("filename.png", Some(vec!["name", "png"])),
            ("filenoext", None),
            ("file", None),
        ],
    );
}

#[test]
fn repeated_pattern() {
    check(
        "*.rs*.rs",
        &[
            ("file.rs", None),
            ("", None),
            (".rs.rs", Some(vec!["", ""])),
            ("file.rs.rs", Some(vec!["file", ""])),
            ("file.rs42.rs", Some(vec!["file", "42"])),
            (".rs.rsjunk", None),
        ],
    )
}

fn check_blocks(pattern: &str, expected_blocks: &[&str]) {
    assert_eq!(GlobStarPattern::from(pattern).literal_blocks, expected_blocks);
}

#[test]
fn test_parse_from_str() {
    check_blocks("", &[""]);
    check_blocks("*", &["", ""]);
    check_blocks("*.jpg", &["", ".jpg"]);
    check_blocks("original_*.*", &["original_", ".", ""]);
    check_blocks("**.*", &["", "", ".", ""]);
}

#[test]
fn glob_star_pattern_test_display() {
    for pattern in [
        "",
        "hello",
        "*",
        "*hello",
        "**",
        "*hello**",
        "text*.png",
        "text*",
    ] {
        assert_eq!(GlobStarPattern::from(pattern).to_string(), pattern);
    }
}

#[test]
fn wildcards_number_counts_stars() {
    let compiled_pattern = GlobStarPattern::from("IMG*:*:*2010.png");
    assert_eq!(compiled_pattern.wildcards_number(), 3);
}

#[test]
fn match_examples() {
    let png_pattern = GlobStarPattern::from("*.png");
    assert_eq!(
        png_pattern.match_string("ferris.png"),
        Some(vec!["ferris".to_string()])
    );
    assert!(png_pattern.match_string("ferris.jpg").is_none());

    let rust_lang_pattern = GlobStarPattern::from("rust_*_language.*");
    assert_eq!(
        rust_lang_pattern.match_string("rust_is_the_best_language.rs"),
        Some(vec!["is_the_best".to_string(), "rs".to_string()])
    );
}

#[test]
fn match_rebuilds_the_string() {
    let pattern = GlobStarPattern::from("file*.*");
    let captures = pattern.match_string("filename.png").unwrap();
    let blocks = &pattern.literal_blocks;
    let mut rebuilt = blocks[0].clone();
    for (capture, block) in captures.iter().zip(blocks.iter().skip(1)) {
        rebuilt += capture;
        rebuilt += block;
    }
    assert_eq!(rebuilt, "filename.png");
}
