//! The errors of compilation and of page assembly.

use vstd::prelude::*;
use vstd::string::*;

verus! {

/// Why a source could not be compiled into a template.
#[derive(Debug, PartialEq, Eq)]
pub enum CompileError {
    /// A token holds bytes that are not UTF-8.
    InvalidUtf8,
    /// The lexer reported an error; the payload is its diagnostic.
    Lexer(String),
    /// A route was opened while another one was still open.
    NestedRoute,
    /// A route entry stands outside any open route.
    PathOutsideRoute,
    /// An embed directive names no target file.
    MissingEmbedFile,
    /// An end tag arrived while no tag was open.
    UnexpectedEndTag(String),
    /// An end tag does not close the innermost open tag.
    MismatchedEndTag { expected: String, found: String },
    /// The source ended while a tag was still open; the payload is the innermost one.
    UnclosedTag(String),
}

/// The mathematical value of a [`CompileError`].
pub enum CompileErrorView {
    InvalidUtf8,
    Lexer(Seq<char>),
    NestedRoute,
    PathOutsideRoute,
    MissingEmbedFile,
    UnexpectedEndTag(Seq<char>),
    MismatchedEndTag { expected: Seq<char>, found: Seq<char> },
    UnclosedTag(Seq<char>),
}

impl View for CompileError {
    type V = CompileErrorView;

    open spec fn view(&self) -> CompileErrorView {
        match *self {
            CompileError::InvalidUtf8 => CompileErrorView::InvalidUtf8,
            CompileError::Lexer(diagnostic) => CompileErrorView::Lexer(diagnostic@),
            CompileError::NestedRoute => CompileErrorView::NestedRoute,
            CompileError::PathOutsideRoute => CompileErrorView::PathOutsideRoute,
            CompileError::MissingEmbedFile => CompileErrorView::MissingEmbedFile,
            CompileError::UnexpectedEndTag(found) => CompileErrorView::UnexpectedEndTag(found@),
            CompileError::MismatchedEndTag { expected, found } => CompileErrorView::MismatchedEndTag {
                expected: expected@,
                found: found@,
            },
            CompileError::UnclosedTag(tag) => CompileErrorView::UnclosedTag(tag@),
        }
    }
}

/// Why a page could not be assembled.
#[derive(Debug, PartialEq, Eq)]
pub enum AssemblyError {
    /// No entry of a route answers to the leading segment of the path.
    NoMatch { segment: String, remainder: String },
    /// The entry that answers to the segment names no file.
    MissingTarget(String),
    /// A template refers to a file that the collection does not hold.
    UnknownTemplate(String),
    /// Templates refer to one another more deeply than the limit allows.
    TooDeep,
}

/// The mathematical value of an [`AssemblyError`].
pub enum AssemblyErrorView {
    NoMatch { segment: Seq<char>, remainder: Seq<char> },
    MissingTarget(Seq<char>),
    UnknownTemplate(Seq<char>),
    TooDeep,
}

impl View for AssemblyError {
    type V = AssemblyErrorView;

    open spec fn view(&self) -> AssemblyErrorView {
        match *self {
            AssemblyError::NoMatch { segment, remainder } => AssemblyErrorView::NoMatch {
                segment: segment@,
                remainder: remainder@,
            },
            AssemblyError::MissingTarget(segment) => AssemblyErrorView::MissingTarget(segment@),
            AssemblyError::UnknownTemplate(file) => AssemblyErrorView::UnknownTemplate(file@),
            AssemblyError::TooDeep => AssemblyErrorView::TooDeep,
        }
    }
}

impl AssemblyError {
    /// Whether the error is a routing failure: the path names no page.
    /// Every other error is a fault of the template set.
    pub fn is_not_found(&self) -> (r: bool)
        ensures
            r == (self@ is NoMatch),
    {
        match self {
            AssemblyError::NoMatch { .. } => true,
            _ => false,
        }
    }
}


/// Why a collection could not be refreshed: the file that failed to
/// compile, and why.
#[derive(Debug, PartialEq, Eq)]
pub struct RefreshError {
    pub file: String,
    pub error: CompileError,
}

/// The mathematical value of a [`RefreshError`].
pub struct RefreshErrorView {
    pub file: Seq<char>,
    pub error: CompileErrorView,
}

impl View for RefreshError {
    type V = RefreshErrorView;

    open spec fn view(&self) -> RefreshErrorView {
        RefreshErrorView { file: self.file@, error: self.error@ }
    }
}


/// The text that describes a compile error.
pub open spec fn compile_message(error: CompileErrorView) -> Seq<char> {
    match error {
        CompileErrorView::InvalidUtf8 => "token is not valid UTF-8"@,
        CompileErrorView::Lexer(diagnostic) => "lexer error: "@ + diagnostic,
        CompileErrorView::NestedRoute => "x-route inside x-route"@,
        CompileErrorView::PathOutsideRoute => "Found path outside of route"@,
        CompileErrorView::MissingEmbedFile => "x-embed missing \"file\""@,
        CompileErrorView::UnexpectedEndTag(found) => "unexpected end tag </"@ + found + ">"@,
        CompileErrorView::MismatchedEndTag { expected, found } => "expected </"@ + expected
            + ">, found </"@ + found + ">"@,
        CompileErrorView::UnclosedTag(tag) => "unclosed tag <"@ + tag + ">"@,
    }
}

/// The text that describes an assembly error.
pub open spec fn assembly_message(error: AssemblyErrorView) -> Seq<char> {
    match error {
        AssemblyErrorView::NoMatch { segment, remainder } => "No match for path "@ + remainder,
        AssemblyErrorView::MissingTarget(segment) => "No file for path "@ + segment,
        AssemblyErrorView::UnknownTemplate(file) => "Unable to find: "@ + file,
        AssemblyErrorView::TooDeep => "templates nest too deeply"@,
    }
}

/// The text that describes a refresh error.
pub open spec fn refresh_message(error: RefreshErrorView) -> Seq<char> {
    "failed to compile "@ + error.file + ": "@ + compile_message(error.error)
}

impl CompileError {
    /// A description of the error.
    pub fn message(&self) -> (r: String)
        ensures
            r@ == compile_message(self@),
    {
        match self {
            CompileError::InvalidUtf8 => String::from_str("token is not valid UTF-8"),
            CompileError::Lexer(diagnostic) => {
                let mut text = String::from_str("lexer error: ");
                text.append(diagnostic.as_str());
                text
            },
            CompileError::NestedRoute => String::from_str("x-route inside x-route"),
            CompileError::PathOutsideRoute => String::from_str("Found path outside of route"),
            CompileError::MissingEmbedFile => String::from_str("x-embed missing \"file\""),
            CompileError::UnexpectedEndTag(found) => {
                let mut text = String::from_str("unexpected end tag </");
                text.append(found.as_str());
                text.append(">");
                text
            },
            CompileError::MismatchedEndTag { expected, found } => {
                let mut text = String::from_str("expected </");
                text.append(expected.as_str());
                text.append(">, found </");
                text.append(found.as_str());
                text.append(">");
                text
            },
            CompileError::UnclosedTag(tag) => {
                let mut text = String::from_str("unclosed tag <");
                text.append(tag.as_str());
                text.append(">");
                text
            },
        }
    }
}

impl AssemblyError {
    /// A description of the error.
    pub fn message(&self) -> (r: String)
        ensures
            r@ == assembly_message(self@),
    {
        match self {
            AssemblyError::NoMatch { segment, remainder } => {
                let mut text = String::from_str("No match for path ");
                text.append(remainder.as_str());
                text
            },
            AssemblyError::MissingTarget(segment) => {
                let mut text = String::from_str("No file for path ");
                text.append(segment.as_str());
                text
            },
            AssemblyError::UnknownTemplate(file) => {
                let mut text = String::from_str("Unable to find: ");
                text.append(file.as_str());
                text
            },
            AssemblyError::TooDeep => String::from_str("templates nest too deeply"),
        }
    }
}

impl RefreshError {
    /// A description of the error: the file, and why it did not compile.
    pub fn message(&self) -> (r: String)
        ensures
            r@ == refresh_message(self@),
    {
        let mut text = String::from_str("failed to compile ");
        text.append(self.file.as_str());
        text.append(": ");
        text.append(self.error.message().as_str());
        text
    }
}


} // verus!
