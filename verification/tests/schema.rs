use curve_engine::document::{check_schema_version, Metadata, FILE_EXTENSION, SCHEMA_VERSION};

#[test]
fn refuses_a_newer_schema_version_by_number() {
    assert_eq!(check_schema_version(999), Err(999));
    assert_eq!(check_schema_version(SCHEMA_VERSION + 1), Err(SCHEMA_VERSION + 1));
}

#[test]
fn accepts_the_current_and_older_schemas() {
    assert_eq!(SCHEMA_VERSION, 1);
    assert_eq!(check_schema_version(1), Ok(()));
    assert_eq!(check_schema_version(0), Ok(()));
}

#[test]
fn new_documents_record_this_build() {
    let metadata = Metadata::for_this_build();
    assert_eq!(metadata.app_version, curve_engine::engine_version());
    assert_eq!(FILE_EXTENSION, "unplot");
}
