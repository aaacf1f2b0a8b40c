use mmv_lib::{GlobStarPattern, SourcePathPattern, SourcePatternError};

#[test]
fn test_source_path_pattern_from_str() {
    assert_eq!(
        SourcePathPattern::from_str("doctor/in/blue/box/*.tardis"),
        Ok(SourcePathPattern {
            directory: "doctor/in/blue/box/".to_string(),
            filename_pattern: GlobStarPattern::from("*.tardis"),
        })
    );

    assert_eq!(
        SourcePathPattern::from_str("master*dalek"),
        Ok(SourcePathPattern {
            directory: String::default(),
            filename_pattern: GlobStarPattern::from("master*dalek"),
        })
    );

    assert_eq!(
        SourcePathPattern::from_str("/from_root.*"),
        Ok(SourcePathPattern {
            directory: "/".to_string(),
            filename_pattern: GlobStarPattern::from("from_root.*"),
        })
    );

    assert!(SourcePathPattern::from_str("b*d/pattern").is_err());
}

#[test]
fn source_path_pattern_test_display() {
    for pattern in [
        "",
        "/",
        "/path/to/file#1",
        "/hello/world",
        "empty/filename/",
        "path/*.png",
    ] {
        assert_eq!(
            SourcePathPattern::from_str(pattern).unwrap().to_string(),
            pattern
        );
    }
}

#[test]
fn wildcard_in_directory_error_value() {
    assert_eq!(
        SourcePathPattern::from_str("b*d/pattern"),
        Err(SourcePatternError::WildcardInDirectory)
    );
}

#[test]
fn wildcards_number_of_filename_part() {
    let pattern = SourcePathPattern::from_str("rust/version-*.*").unwrap();
    assert_eq!(pattern.wildcards_number(), 2);
}

#[test]
fn matching_files_pairs_names_with_fragments() {
    let pattern = SourcePathPattern::from_str("timelords/*.doc").unwrap();
    let file_names = vec![
        "1.doc".to_string(),
        "2.doc".to_string(),
        "3.master".to_string(),
        "notadoc".to_string(),
    ];
    let matched = pattern.matching_files(&file_names);
    assert_eq!(
        matched,
        vec![
            ("timelords/1.doc".to_string(), vec!["1".to_string()]),
            ("timelords/2.doc".to_string(), vec!["2".to_string()]),
        ]
    );
}

#[test]
fn matching_files_keeps_listing_order() {
    let pattern = SourcePathPattern::from_str("*").unwrap();
    let file_names = vec!["b".to_string(), "a".to_string(), "c".to_string()];
    let matched = pattern.matching_files(&file_names);
    assert_eq!(matched.len(), 3);
    assert_eq!(matched[0].0, "b");
    assert_eq!(matched[1].0, "a");
    assert_eq!(matched[2].0, "c");
}
