use task_manager::error::{AppError, ErrorKind};

#[test]
fn a_missing_row_is_not_found() {
    let e = AppError::from(sqlx::Error::RowNotFound);
    assert_eq!(e.kind(), ErrorKind::NotFound);
    assert_eq!(e.message(), "Record not found");
    assert!(matches!(e, AppError::NotFound(_)));
}

#[test]
fn any_other_storage_error_is_a_database_error() {
    let e = AppError::from(sqlx::Error::Protocol("bad frame".to_string()));
    assert_eq!(e.kind(), ErrorKind::DatabaseError);
    assert_eq!(e.message(), "encountered unexpected or invalid data: bad frame");
    let e = AppError::from(sqlx::Error::PoolTimedOut);
    assert_eq!(e.kind(), ErrorKind::DatabaseError);
    assert!(e.message().len() > 0);
}

#[test]
fn storage_failures_from_plain_values() {
    let e = AppError::from_storage(true, "ignored".to_string());
    assert!(matches!(e, AppError::NotFound(ref m) if m == "Record not found"));
    let e = AppError::from_storage(false, "disk full".to_string());
    assert!(matches!(e, AppError::DatabaseError(ref m) if m == "disk full"));
}

#[test]
fn a_bare_message_is_invalid_input() {
    let e = AppError::from("not a number");
    assert_eq!(e.kind(), ErrorKind::InvalidInput);
    assert_eq!(e.message(), "not a number");
    let e = AppError::from("bad".to_string());
    assert!(matches!(e, AppError::InvalidInput(ref m) if m == "bad"));
    let e: AppError = "converted".into();
    assert_eq!(e.message(), "converted");
}

#[test]
fn each_variant_reports_its_kind_and_message() {
    let cases = vec![
        (AppError::DatabaseError("a".to_string()), ErrorKind::DatabaseError, "a"),
        (AppError::NotFound("b".to_string()), ErrorKind::NotFound, "b"),
        (AppError::ValidationError("c".to_string()), ErrorKind::ValidationError, "c"),
        (AppError::InvalidInput("d".to_string()), ErrorKind::InvalidInput, "d"),
    ];
    for (e, kind, message) in cases {
        assert_eq!(e.kind(), kind);
        assert_eq!(e.message(), message);
    }
}
