use spatio::error::SpatioError;
use spatio::report::{
    extract_group_name, extract_test_name, format_group_name, format_test_name, format_timestamp,
};

#[test]
fn group_and_test_names() {
    assert_eq!(extract_group_name("basic_operations/single_insert"), "basic_operations");
    assert_eq!(extract_test_name("basic_operations/single_insert"), "single_insert");
    assert_eq!(extract_test_name("a/b/c"), "b/c");
    assert_eq!(extract_group_name("lonely"), "lonely");
    assert_eq!(extract_test_name("lonely"), "lonely");
    assert_eq!(extract_group_name("é/ü"), "é");
}

#[test]
fn group_labels() {
    assert_eq!(format_group_name("basic_operations"), "🔧 Basic Operations");
    assert_eq!(format_group_name("ttl_operations"), "⏰ TTL Operations");
    assert_eq!(format_group_name("spatial_indexing"), "🗂️ Spatial Indexing");
    assert_eq!(format_group_name("custom"), "custom");
}

#[test]
fn test_labels() {
    assert_eq!(format_test_name("single_insert"), "Single Insert");
    assert_eq!(format_test_name("bulk_INSERT__1000"), "Bulk Insert 1000");
    assert_eq!(format_test_name("  spaced   out "), "Spaced Out");
    assert_eq!(format_test_name(""), "");
}

#[test]
fn timestamps_show_an_approximate_year() {
    assert_eq!(format_timestamp(0), "1970 (UTC)");
    assert_eq!(format_timestamp(1_640_995_200), "2022 (UTC)");
}

#[test]
fn error_messages() {
    assert_eq!(SpatioError::DatabaseClosed.message(), "Database is closed");
    assert_eq!(SpatioError::LockError.message(), "Failed to acquire lock");
    assert_eq!(
        SpatioError::SerializationErrorWithContext("bad point".to_string()).message(),
        "Serialization error: bad point"
    );
    assert_eq!(SpatioError::Other("custom".to_string()).message(), "custom");
    let io = SpatioError::from(std::io::Error::from(std::io::ErrorKind::UnexpectedEof));
    assert!(io.message().starts_with("I/O error: "));
    assert_eq!(SpatioError::InvalidFormat.message(), "Invalid data format");
}

#[test]
fn unicode_white_space_separates_words() {
    assert_eq!(format_test_name("bulk\u{3000}insert\u{a0}x"), "Bulk Insert X");
}
