//! The highlighter client, without its input and output.
//!
//! One call of the highlighter is one short-lived run of an external tool: the
//! code goes to its standard input, the markup comes from its standard
//! output. This module decides how the tool is invoked and what its output
//! means; starting the process and moving the bytes is left to the caller.

use vstd::prelude::*;
use vstd::utf8::*;

verus! {

/// What the highlighter is asked for: a code fragment and the tag of its language.
#[derive(Clone, Debug, PartialEq, Eq)]
pub struct HighlightRequest {
    pub code: String,
    pub language_tag: String,
}

/// The view of a [`HighlightRequest`].
pub struct Request {
    pub code: Seq<char>,
    pub language_tag: Seq<char>,
}

impl View for HighlightRequest {
    type V = Request;

    open spec fn view(&self) -> Request {
        Request { code: self.code@, language_tag: self.language_tag@ }
    }
}

/// Why a call of the highlighter gave no markup.
#[derive(Clone, Copy, Debug, PartialEq, Eq)]
pub enum HighlightError {
    /// The external tool could not be started.
    LaunchFailure,
    /// Writing the code to the tool, or reading its output, failed.
    IoFailure,
    /// The tool's output is not valid text.
    EncodingFailure,
}

impl HighlightError {
    /// What is reported to the user when the run ends on this error.
    pub fn message(&self) -> (text: String)
        ensures
            *self is LaunchFailure ==> text@
                == "pygmentize failed to launch error should be above"@,
            *self is IoFailure ==> text@ == "pygmentize wait failed?"@,
            *self is EncodingFailure ==> text@ == "could not read pygmentize output"@,
    {
        match self {
            HighlightError::LaunchFailure => "pygmentize failed to launch error should be above"
                .to_owned(),
            HighlightError::IoFailure => "pygmentize wait failed?".to_owned(),
            HighlightError::EncodingFailure => "could not read pygmentize output".to_owned(),
        }
    }
}

/// How the external tool is run for one request.
#[derive(Clone, Debug, PartialEq, Eq)]
pub struct Invocation {
    /// The program to start.
    pub program: String,
    /// Its arguments, in order.
    pub args: Vec<String>,
    /// What is written to its standard input, in full.
    pub input: String,
}

/// The views of a sequence of strings.
pub open spec fn string_views(strings: Seq<String>) -> Seq<Seq<char>> {
    Seq::new(strings.len(), |i: int| strings[i]@)
}

/// The arguments for a language tag: markup as the output format, the
/// presentation inlined as embedded style, and the tag as the lexer.
pub open spec fn invocation_args(language_tag: Seq<char>) -> Seq<Seq<char>> {
    seq!["-f"@, "html"@, "-O"@, "noclasses"@, "-l"@, language_tag]
}

/// Plans the run of the external tool for a request. The tag is handed on as
/// it is, an empty one too.
pub fn invocation(request: &HighlightRequest) -> (plan: Invocation)
    ensures
        plan.program@ == "pygmentize"@,
        plan.args@.len() == 6,
        string_views(plan.args@) == invocation_args(request.language_tag@),
        plan.input@ == request.code@,
{
    let mut args: Vec<String> = Vec::new();
    args.push("-f".to_owned());
    args.push("html".to_owned());
    args.push("-O".to_owned());
    args.push("noclasses".to_owned());
    args.push("-l".to_owned());
    args.push(request.language_tag.clone());
    assert(string_views(args@) =~= invocation_args(request.language_tag@));
    Invocation { program: "pygmentize".to_owned(), args, input: request.code.clone() }
}

/// How one run of the external tool went, as the caller saw it.
#[derive(Clone, Debug, PartialEq, Eq)]
pub enum Exchange {
    /// The process could not be started.
    NotLaunched,
    /// Writing to or reading from the process failed before it finished.
    PipeBroken,
    /// The process ended; `stdout` is all that it wrote to its standard output.
    Finished { stdout: Vec<u8>, exit_code: Option<i32> },
}

/// The error type of `String::from_utf8`.
#[verifier::external_type_specification]
#[verifier::external_body]
pub struct ExFromUtf8Error(std::string::FromUtf8Error);

/// `String::from_utf8` of std: succeeds exactly on well-formed UTF-8, and the
/// string it then returns is the text that the bytes encode.
#[verifier::external_body]
fn string_from_utf8(bytes: Vec<u8>) -> (decoded: Result<String, std::string::FromUtf8Error>)
    ensures
        decoded is Ok <==> valid_utf8(bytes@),
        decoded matches Ok(text) ==> text@ == decode_utf8(bytes@),
{
    String::from_utf8(bytes)
}

/// What a run of the external tool yields: its captured output as text, or
/// the failure. The exit code plays no part.
pub open spec fn markup_of(exchange: Exchange) -> Result<Seq<char>, HighlightError> {
    match exchange {
        Exchange::NotLaunched => Err(HighlightError::LaunchFailure),
        Exchange::PipeBroken => Err(HighlightError::IoFailure),
        Exchange::Finished { stdout, exit_code } => if valid_utf8(stdout@) {
            Ok(decode_utf8(stdout@))
        } else {
            Err(HighlightError::EncodingFailure)
        },
    }
}

/// Turns a finished run of the external tool into the highlighter's answer.
/// The output is returned as it came, whatever the exit code.
pub fn highlighted(exchange: Exchange) -> (answer: Result<String, HighlightError>)
    ensures
        match markup_of(exchange) {
            Ok(markup) => answer matches Ok(text) && text@ == markup,
            Err(error) => answer matches Err(e) && e == error,
        },
{
    match exchange {
        Exchange::NotLaunched => Err(HighlightError::LaunchFailure),
        Exchange::PipeBroken => Err(HighlightError::IoFailure),
        Exchange::Finished { stdout, exit_code } => match string_from_utf8(stdout) {
            Ok(text) => Ok(text),
            Err(_) => Err(HighlightError::EncodingFailure),
        },
    }
}

} // verus!
