use regolith::error::{Error, ErrorKind, IoError};

fn convert(kind: ErrorKind, message: &str) -> Error {
    Error::from(IoError::new(kind, message))
}

#[test]
fn io_error_converts_via_from_when_filesystem_related() {
    let ioe = IoError::new(ErrorKind::NotFound, "nope");
    let e: Error = ioe.into();
    assert!(matches!(e, Error::Io(_)));
}

#[test]
fn invalid_input_converts_to_invalid_argument() {
    let ioe = IoError::new(ErrorKind::InvalidInput, "bad key");
    let e: Error = ioe.into();
    assert!(matches!(e, Error::InvalidArgument(msg) if msg.contains("bad key")));
}

#[test]
fn corruption_kinds_convert_to_corruption() {
    for kind in [ErrorKind::InvalidData, ErrorKind::UnexpectedEof] {
        let ioe = IoError::new(kind, "bad bytes");
        let e: Error = ioe.into();
        assert!(matches!(e, Error::Corruption(source) if source.kind() == kind));
    }
}

#[test]
fn busy_display_contains_reason() {
    let e = Error::Busy("too many L0 files");
    let msg = e.to_text();
    assert!(msg.contains("too many L0 files"));
    assert!(msg.contains("busy"));
}

#[test]
fn merge_failed_display_contains_key_bytes() {
    let e = Error::MergeFailed(b"k".to_vec());
    let msg = e.to_text();
    assert!(msg.contains("merge"));
    // Debug-printed key bytes show up as `[107]`.
    assert!(msg.contains("107"));
}

#[test]
fn every_error_reads_as_its_text() {
    assert_eq!(
        Error::invalid_argument("no").to_text(),
        "invalid argument: no"
    );
    assert_eq!(Error::corruption("torn").to_text(), "corruption: torn");
    assert_eq!(Error::ReadOnly.to_text(), "database was opened read-only");
    assert_eq!(Error::Closed.to_text(), "database is closed");
    assert_eq!(
        Error::invalid_column_family("gone").to_text(),
        "invalid column family: gone"
    );
    assert_eq!(Error::Busy("why").to_text(), "engine busy: why");
    assert_eq!(
        Error::MergeFailed(vec![1, 20, 255]).to_text(),
        "merge operator failed for key [1, 20, 255]"
    );
    assert_eq!(
        Error::MergeFailed(Vec::new()).to_text(),
        "merge operator failed for key []"
    );
    assert_eq!(
        convert(ErrorKind::PermissionDenied, "denied").to_text(),
        "I/O error: denied"
    );
}

#[test]
fn a_closed_handle_round_trips_through_its_io_form() {
    let io = Error::Closed.into_io_error();
    assert_eq!(io.kind(), ErrorKind::NotConnected);
    assert!(matches!(Error::from(io), Error::Closed));
    // Another lost connection is not a closed database.
    assert!(matches!(
        convert(ErrorKind::NotConnected, "peer went away"),
        Error::Io(_)
    ));
}

#[test]
fn io_forms_keep_their_kind_and_message() {
    let cases = [
        (
            Error::ReadOnly,
            ErrorKind::PermissionDenied,
            "database was opened read-only",
        ),
        (Error::invalid_argument("x"), ErrorKind::InvalidInput, "x"),
        (
            Error::invalid_column_family("y"),
            ErrorKind::InvalidInput,
            "y",
        ),
        (Error::corruption("z"), ErrorKind::InvalidData, "z"),
        (Error::Busy("b"), ErrorKind::Other, "engine busy: b"),
        (
            Error::MergeFailed(vec![7]),
            ErrorKind::Other,
            "merge operator failed for key [7]",
        ),
    ];
    for (error, kind, message) in cases {
        let io = error.into_io_error();
        assert_eq!(io.kind(), kind);
        assert_eq!(io.to_text(), message);
    }
}
