use fslab::error::ErrorKind;
use fslab::path_create::split_destination;

#[test]
fn path_create_destination_split_preserves_root_and_nested_parent_paths() {
    assert_eq!(split_destination("/file").unwrap(), ("/", "file"));
    assert_eq!(
        split_destination("/dir/sub/file").unwrap(),
        ("/dir/sub", "file")
    );
}

#[test]
fn path_create_destination_split_rejects_non_absolute_root_and_trailing_slash() {
    for path in ["file", "/", "/dir/"] {
        assert_eq!(
            split_destination(path).unwrap_err().kind(),
            ErrorKind::InvalidInput
        );
    }
}

#[test]
fn path_hard_link_destination_split_preserves_root_and_nested_parent_paths() {
    assert_eq!(split_destination("/link").unwrap(), ("/", "link"));
    assert_eq!(
        split_destination("/dir/sub/link").unwrap(),
        ("/dir/sub", "link")
    );
}

#[test]
fn path_hard_link_destination_split_rejects_non_absolute_root_and_trailing_slash() {
    for path in ["link", "/", "/dir/"] {
        assert_eq!(
            split_destination(path).unwrap_err().kind(),
            ErrorKind::InvalidInput
        );
    }
}
