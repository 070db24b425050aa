use surreal_iter::import::{authorize, response_format, Format, ImportError, MAX};

#[test]
fn import_formats_by_accept_header() {
    assert_eq!(response_format(&"application/json".to_string()), Ok(Format::Json));
    assert_eq!(response_format(&"application/cbor".to_string()), Ok(Format::Cbor));
    assert_eq!(response_format(&"application/pack".to_string()), Ok(Format::Pack));
    assert_eq!(response_format(&"application/surrealdb".to_string()), Ok(Format::Full));
    assert_eq!(response_format(&"application/octet-stream".to_string()), Ok(Format::Nothing));
}

#[test]
fn import_rejects_unknown_type() {
    assert_eq!(response_format(&"text/plain".to_string()), Err(ImportError::InvalidType));
    assert_eq!(response_format(&"".to_string()), Err(ImportError::InvalidType));
}

#[test]
fn import_needs_database_rights() {
    assert_eq!(authorize(false), Err(ImportError::InvalidAuth));
    assert_eq!(authorize(true), Ok(()));
    assert_eq!(MAX, 4 * 1024 * 1024 * 1024);
}
