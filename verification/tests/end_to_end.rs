use mmv_lib::{DestinationPathTemplate, SourcePathPattern};

#[test]
fn expelled_scenario() {
    let source = SourcePathPattern::from_str("griffindor/H*y").unwrap();
    let file_names = vec![
        "Harry".to_string(),
        "Ron".to_string(),
        "Hermy".to_string(),
        "Neville".to_string(),
    ];
    let matches = source.matching_files(&file_names);
    assert_eq!(matches.len(), 2);
    assert_eq!(matches[0].0, "griffindor/Harry");
    assert_eq!(matches[0].1, vec!["arr".to_string()]);
    assert_eq!(matches[1].0, "griffindor/Hermy");
    assert_eq!(matches[1].1, vec!["erm".to_string()]);

    let wildcards = source.wildcards_number();
    let template = DestinationPathTemplate::compile("expelled/H#1y-#1", wildcards as u8);
    assert_eq!(
        template.substitute(&matches[0].1),
        Ok("expelled/Harry-arr".to_string())
    );
    assert_eq!(
        template.substitute(&matches[1].1),
        Ok("expelled/Hermy-erm".to_string())
    );
}

#[test]
fn empty_pattern_matches_only_empty_name() {
    let source = SourcePathPattern::from_str("").unwrap();
    assert_eq!(source.wildcards_number(), 0);
    let file_names = vec!["".to_string(), "something".to_string()];
    let matched = source.matching_files(&file_names);
    assert_eq!(matched, vec![("".to_string(), Vec::<String>::new())]);
}
