//! Shared error type for the store.

use vstd::prelude::*;
use vstd::string::*;

verus! {

/// An error of the operating system, carried through as it came.
#[verifier::external_type_specification]
#[verifier::external_body]
pub struct ExIoError(std::io::Error);

#[derive(Debug)]
pub enum StoreError {
    Io(std::io::Error),
    Corrupt(String),
    RecordTooLarge,
}

/// What a [`StoreError`] says, apart from the details of an I/O error.
pub ghost enum ErrorModel {
    Io,
    Corrupt(Seq<char>),
    RecordTooLarge,
}

impl View for StoreError {
    type V = ErrorModel;

    open spec fn view(&self) -> ErrorModel {
        match self {
            StoreError::Io(_) => ErrorModel::Io,
            StoreError::Corrupt(msg) => ErrorModel::Corrupt(msg@),
            StoreError::RecordTooLarge => ErrorModel::RecordTooLarge,
        }
    }
}

/// `text` says `e` in words. What an I/O error adds is the operating system's.
pub open spec fn worded(e: ErrorModel, text: Seq<char>) -> bool {
    match e {
        ErrorModel::Io => "io error: "@.is_prefix_of(text),
        ErrorModel::Corrupt(msg) => text == "store corruption: "@ + msg,
        ErrorModel::RecordTooLarge => text == "record exceeds block payload capacity"@,
    }
}

/// The words for an error tell what it is: those for different corruptions
/// differ, and none are those for a record that is too large.
pub proof fn lemma_words_tell_errors_apart(a: Seq<char>, b: Seq<char>, text: Seq<char>)
    ensures
        worded(ErrorModel::Corrupt(a), text) && worded(ErrorModel::Corrupt(b), text) ==> a == b,
        !(worded(ErrorModel::Corrupt(a), text) && worded(ErrorModel::RecordTooLarge, text)),
        !(worded(ErrorModel::Corrupt(a), text) && worded(ErrorModel::Io, text)),
{
    reveal_strlit("store corruption: ");
    reveal_strlit("record exceeds block payload capacity");
    reveal_strlit("io error: ");
    let head = "store corruption: "@;
    assert((head + a).skip(head.len() as int) =~= a);
    assert((head + b).skip(head.len() as int) =~= b);
    if worded(ErrorModel::Corrupt(a), text) {
        assert(text[0] == 's');
    }
    if worded(ErrorModel::Io, text) {
        assert(text[0] == "io error: "@[0]);
    }
}

/// The text of an I/O error, as `std::io::Error` displays itself. The text is
/// the operating system's, so nothing is said of it.
#[verifier::external_body]
fn io_error_text(e: &std::io::Error) -> (text: String) {
    format!("{e}")
}

impl StoreError {
    /// The error in words.
    pub fn message(&self) -> (text: String)
        ensures
            worded(self@, text@),
    {
        match self {
            StoreError::Io(e) => {
                let mut text = "io error: ".to_string();
                text.append(io_error_text(e).as_str());
                text
            },
            StoreError::Corrupt(msg) => {
                let mut text = "store corruption: ".to_string();
                text.append(msg.as_str());
                text
            },
            StoreError::RecordTooLarge => "record exceeds block payload capacity".to_string(),
        }
    }
}

impl vstd::std_specs::convert::FromSpecImpl<std::io::Error> for StoreError {
    open spec fn obeys_from_spec() -> bool {
        true
    }

    open spec fn from_spec(e: std::io::Error) -> StoreError {
        StoreError::Io(e)
    }
}

impl From<std::io::Error> for StoreError {
    fn from(e: std::io::Error) -> (err: StoreError) {
        StoreError::Io(e)
    }
}

} // verus!
