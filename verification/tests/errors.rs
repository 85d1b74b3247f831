use template_engine::error::{AssemblyError, CompileError, RefreshError};

#[test]
fn compile_errors_describe_themselves() {
    assert_eq!(CompileError::InvalidUtf8.message(), "token is not valid UTF-8");
    assert_eq!(CompileError::Lexer("eof-in-tag".to_string()).message(), "lexer error: eof-in-tag");
    assert_eq!(CompileError::NestedRoute.message(), "x-route inside x-route");
    assert_eq!(CompileError::PathOutsideRoute.message(), "Found path outside of route");
    assert_eq!(CompileError::MissingEmbedFile.message(), "x-embed missing \"file\"");
    assert_eq!(
        CompileError::UnexpectedEndTag("div".to_string()).message(),
        "unexpected end tag </div>"
    );
    assert_eq!(
        CompileError::MismatchedEndTag { expected: "span".to_string(), found: "div".to_string() }
            .message(),
        "expected </span>, found </div>"
    );
    assert_eq!(CompileError::UnclosedTag("p".to_string()).message(), "unclosed tag <p>");
}

#[test]
fn assembly_errors_describe_themselves() {
    assert_eq!(
        AssemblyError::NoMatch { segment: "a".to_string(), remainder: "/b".to_string() }.message(),
        "No match for path /b"
    );
    assert_eq!(AssemblyError::MissingTarget("a".to_string()).message(), "No file for path a");
    assert_eq!(
        AssemblyError::UnknownTemplate("nav.html".to_string()).message(),
        "Unable to find: nav.html"
    );
    assert_eq!(AssemblyError::TooDeep.message(), "templates nest too deeply");
}

#[test]
fn a_refresh_error_names_the_file() {
    let error = RefreshError { file: "a.html".to_string(), error: CompileError::NestedRoute };
    assert_eq!(error.message(), "failed to compile a.html: x-route inside x-route");
}
