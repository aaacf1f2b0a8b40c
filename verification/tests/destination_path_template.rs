use mmv_lib::{DestinationPathTemplate, SubstituteError};

#[test]
fn compile() {
    assert_eq!(
        DestinationPathTemplate::compile("file_#1_name.#2", 2),
        DestinationPathTemplate {
            directory: "".to_string(),
            markers: vec![1, 2],
            literal_blocks: vec!["file_".to_string(), "_name.".to_string(), "".to_string()],
        }
    );

    assert_eq!(
        DestinationPathTemplate::compile("#1#2#1#1#2", 2),
        DestinationPathTemplate {
            directory: "".to_string(),
            markers: vec![1, 2, 1, 1, 2],
            literal_blocks: vec![String::new(); 6],
        },
    );

    assert_eq!(
        DestinationPathTemplate::compile("#1#12#123#1#123", 12),
        DestinationPathTemplate {
            directory: "".to_string(),
            markers: vec![1, 12, 12, 1, 12],
            literal_blocks: vec![
                "".to_string(),
                "".to_string(),
                "".to_string(),
                "3".to_string(),
                "".to_string(),
                "3".to_string(),
            ],
        }
    );

    assert_eq!(
        DestinationPathTemplate::compile("path/to/file_##1.#2", 5),
        DestinationPathTemplate {
            directory: "path/to/".to_string(),
            markers: vec![1, 2],
            literal_blocks: vec!["file_#".to_string(), ".".to_string(), "".to_string()],
        }
    );

    assert_eq!(
        DestinationPathTemplate::compile("path#1/#1#2.png", 3),
        DestinationPathTemplate {
            directory: "path#1/".to_string(),
            markers: vec![1, 2],
            literal_blocks: vec!["".to_string(), "".to_string(), ".png".to_string()],
        }
    );

    assert_eq!(
        DestinationPathTemplate::compile("/absolute/path/#20.#2", 20),
        DestinationPathTemplate {
            directory: "/absolute/path/".to_string(),
            markers: vec![20, 2],
            literal_blocks: vec!["".to_string(), ".".to_string(), "".to_string()],
        }
    );

    assert_eq!(
        DestinationPathTemplate::compile("/file_in_root#1.png", 1),
        DestinationPathTemplate {
            directory: "/".to_string(),
            markers: vec![1],
            literal_blocks: vec!["file_in_root".to_string(), ".png".to_string()],
        }
    );
}

#[test]
fn substitute_out_of_range() {
    assert_eq!(
        DestinationPathTemplate::compile("#1", 1).substitute(&vec![]),
        Err(SubstituteError::FragmentIndexOutOfRange)
    );
}

#[test]
fn substitute() {
    let pattern = DestinationPathTemplate::compile("dir/file_#2.#1", 2);
    assert_eq!(
        pattern.substitute(&vec!["meow".to_string(), "oink".to_string()]),
        Ok("dir/file_oink.meow".to_string())
    );
    assert_eq!(
        pattern.substitute(&vec!["#2".to_string(), "#1".to_string()]),
        Ok("dir/file_#1.#2".to_string())
    );
}

#[test]
fn unmatched_marker_stays_literal() {
    let unparsed_marker = DestinationPathTemplate::compile("file#1.#2", 1);
    assert_eq!(
        unparsed_marker.substitute(&vec!["hello".to_string(), "world".to_string()]),
        Ok("filehello.#2".to_string())
    );
}

#[test]
fn greedy_marker_prefers_largest_index() {
    let template = DestinationPathTemplate::compile("#100", 10);
    assert_eq!(template.markers, vec![10]);
    assert_eq!(template.literal_blocks, vec!["", "0"]);
}

#[test]
fn substitute_keeps_directory_verbatim() {
    let rust_version_pattern = DestinationPathTemplate::compile("rust/version-#1.#2", 2);
    assert_eq!(rust_version_pattern.directory, "rust/");
    assert_eq!(
        rust_version_pattern.substitute(&vec!["1".to_string(), "75".to_string()]),
        Ok("rust/version-1.75".to_string())
    );
}

#[test]
fn substitute_without_markers() {
    let template = DestinationPathTemplate::compile("plain_name", 4);
    assert_eq!(template.markers, Vec::<u8>::new());
    assert_eq!(template.substitute(&vec![]), Ok("plain_name".to_string()));
}
