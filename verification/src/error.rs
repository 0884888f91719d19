//! The library's error type.

use std::borrow::Cow;
use vstd::prelude::*;

verus! {

/// What went wrong, in words meant for the user.
#[derive(Debug)]
pub struct Error(pub Cow<'static, str>);

/// A failure of input or output, `std::io::Error`. Nothing is known of what is in it.
#[verifier::external_type_specification]
#[verifier::external_body]
pub struct ExIoError(std::io::Error);

/// What is said where input or output fails.
pub open spec fn io_text(words: Seq<char>) -> Seq<char> {
    "IO error: "@ + words
}

/// What is said where the parser fails.
pub open spec fn dwarf_text(words: Seq<char>) -> Seq<char> {
    "DWARF error: "@ + words
}

/// A result whose error is [`Error`].
pub type Result<T> = std::result::Result<T, Error>;

impl Error {
    /// The words of the error.
    pub open spec fn text(self) -> Seq<char> {
        self.0@
    }

    /// The words of the error.
    pub fn description(&self) -> (text: &str)
        ensures
            text@ == self.text(),
    {
        match &self.0 {
            Cow::Borrowed(text) => *text,
            Cow::Owned(text) => text.as_str(),
        }
    }

    /// The error that says what failed, and then the words of the failure.
    pub fn prefixed(prefix: &str, words: &str) -> (error: Error)
        ensures
            error.text() == prefix@ + words@,
    {
        let mut message = String::new();
        message.append(prefix);
        message.append(words);
        assert(message@ =~= prefix@ + words@);
        Error::from(message)
    }
}

/// The error for a failure of input or output, by its words.
pub fn io_error(words: &str) -> (error: Error)
    ensures
        error.text() == io_text(words@),
        error.text() == "IO error: "@ + words@,
{
    Error::prefixed("IO error: ", words)
}

/// The error for a failure of the parser, by its words.
pub fn dwarf_error(words: &str) -> (error: Error)
    ensures
        error.text() == dwarf_text(words@),
        error.text() == "DWARF error: "@ + words@,
{
    Error::prefixed("DWARF error: ", words)
}

/// The error for a failure of the parser, which says the words that the failure gives of
/// itself.
pub fn dwarf_failure<F: std::fmt::Display>(failure: &F) -> (error: Error)
    ensures
        exists|words: String|
            #![trigger says(failure, words)]
            says(failure, words) && error.text() == dwarf_text(words@),
{
    let words = failure.to_string();
    assert(says(failure, words));
    dwarf_error(words.as_str())
}

/// Whether a failure may give these words of itself.
pub open spec fn says<F: std::fmt::Display>(failure: &F, words: String) -> bool {
    vstd::string::to_string_from_display_ensures(failure, words)
}

impl From<std::io::Error> for Error {
    fn from(failure: std::io::Error) -> (error: Error)
        ensures
            exists|words: String|
                #![trigger says(&failure, words)]
                says(&failure, words) && error.text() == io_text(words@),
    {
        let words = failure.to_string();
        assert(says(&failure, words));
        io_error(words.as_str())
    }
}

impl vstd::std_specs::convert::FromSpecImpl<std::io::Error> for Error {
    open spec fn obeys_from_spec() -> bool {
        false
    }

    open spec fn from_spec(failure: std::io::Error) -> Error {
        arbitrary()
    }
}

/// An error that is made of a text says this text.
pub proof fn lemma_error_says_its_text(literal: &'static str, owned: String)
    ensures
        <Error as vstd::std_specs::convert::FromSpec<&'static str>>::obeys_from_spec(),
        <Error as vstd::std_specs::convert::FromSpec<&'static str>>::from_spec(literal).text() == literal@,
        <Error as vstd::std_specs::convert::FromSpec<String>>::obeys_from_spec(),
        <Error as vstd::std_specs::convert::FromSpec<String>>::from_spec(owned).text() == owned@,
{
}

impl From<&'static str> for Error {
    fn from(text: &'static str) -> (error: Error) {
        Error(Cow::Borrowed(text))
    }
}

impl vstd::std_specs::convert::FromSpecImpl<&'static str> for Error {
    open spec fn obeys_from_spec() -> bool {
        true
    }

    open spec fn from_spec(text: &'static str) -> Error {
        Error(Cow::Borrowed(text))
    }
}

impl From<String> for Error {
    fn from(text: String) -> (error: Error) {
        Error(Cow::Owned(text))
    }
}

impl vstd::std_specs::convert::FromSpecImpl<String> for Error {
    open spec fn obeys_from_spec() -> bool {
        true
    }

    open spec fn from_spec(text: String) -> Error {
        Error(Cow::Owned(text))
    }
}

/// A failure is told by where it comes from and then by its words.
pub proof fn lemma_failures_say_where_they_come_from(words: Seq<char>)
    ensures
        io_text(words) == "IO error: "@ + words,
        dwarf_text(words) == "DWARF error: "@ + words,
{
}

} // verus!
