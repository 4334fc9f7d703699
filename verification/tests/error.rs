//! The error a backend reports for a function that is not well-formed.

use codegen_lang::{compile, CodegenError};
use ir_lang::{Builder, Type, ValidationError};

#[test]
fn test_invalid_ir_error_wraps_the_validation_reason() {
    let func = Builder::new("f", &[], Type::Unit).finish();
    let err = match compile(&func) {
        Err(e) => e,
        Ok(_) => panic!("an unterminated function must not compile"),
    };
    assert!(matches!(
        err,
        CodegenError::InvalidIr(ValidationError::MissingTerminator { .. })
    ));
}

#[test]
fn test_display_carries_the_underlying_reason() {
    let func = Builder::new("f", &[], Type::Int).finish();
    let err = compile(&func).expect_err("non-unit function with no return is invalid");
    let text = err.to_string();
    assert!(text.starts_with("cannot lower a function that is not well-formed"));
}

#[test]
fn test_error_source_is_the_validation_error() {
    let func = Builder::new("f", &[], Type::Unit).finish();
    let err = compile(&func).expect_err("unterminated function is invalid");
    assert!(err.source().is_some());
}

#[test]
fn test_from_validation_error_constructs_invalid_ir() {
    let func = Builder::new("f", &[], Type::Unit).finish();
    let reason = func
        .validate()
        .expect_err("unterminated function is invalid");
    let err: CodegenError = reason.into();
    assert!(matches!(err, CodegenError::InvalidIr(_)));
}

#[test]
fn test_error_text_is_prefix_then_reason() {
    let func = Builder::new("f", &[], Type::Unit).finish();
    let reason = func.validate().expect_err("unterminated function is invalid");
    let err = compile(&func).expect_err("unterminated function is invalid");
    assert_eq!(
        err.to_string(),
        format!("cannot lower a function that is not well-formed: {reason}")
    );
    assert!(err.to_string().contains("terminator"));
    assert_eq!(err.source(), Some(&reason));
    assert_eq!(err, CodegenError::InvalidIr(reason));
}
