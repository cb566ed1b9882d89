//! What can go wrong.

use vstd::prelude::*;

verus! {

/// Why an operation failed, with what there is to say about it.
#[derive(Debug, Clone, PartialEq, Eq)]
pub enum Error {
    /// The caller asked for something that makes no sense.
    InvalidInput(String),
    /// A file could not be read or written.
    Io(String),
    /// The scoring service refused or could not be reached.
    Jev(String),
    /// Text could not be embedded.
    Embed(String),
    /// The workspace could not be walked.
    Walk(String),
    /// A search pattern does not compile.
    BadPattern(String),
    /// A language server could not be talked to.
    Lsp(String),
    /// A language server answered with an error.
    LspServer(String),
}

/// What an [`Error`] says, as mathematical values.
pub enum ErrorView {
    InvalidInput(Seq<char>),
    Io(Seq<char>),
    Jev(Seq<char>),
    Embed(Seq<char>),
    Walk(Seq<char>),
    BadPattern(Seq<char>),
    Lsp(Seq<char>),
    LspServer(Seq<char>),
}

impl View for Error {
    type V = ErrorView;

    open spec fn view(&self) -> ErrorView {
        match self {
            Error::InvalidInput(m) => ErrorView::InvalidInput(m@),
            Error::Io(m) => ErrorView::Io(m@),
            Error::Jev(m) => ErrorView::Jev(m@),
            Error::Embed(m) => ErrorView::Embed(m@),
            Error::Walk(m) => ErrorView::Walk(m@),
            Error::BadPattern(m) => ErrorView::BadPattern(m@),
            Error::Lsp(m) => ErrorView::Lsp(m@),
            Error::LspServer(m) => ErrorView::LspServer(m@),
        }
    }
}

/// How an error reads.
pub open spec fn error_text(e: ErrorView) -> Seq<char> {
    match e {
        ErrorView::InvalidInput(m) => m,
        ErrorView::Io(m) => m,
        ErrorView::Jev(m) => "jev: "@ + m,
        ErrorView::Embed(m) => m,
        ErrorView::Walk(m) => m,
        ErrorView::BadPattern(m) => m,
        ErrorView::Lsp(m) => m,
        ErrorView::LspServer(m) => m,
    }
}

impl Error {
    /// How the error reads.
    pub fn message(&self) -> (r: String)
        ensures
            r@ == error_text(self@),
    {
        match self {
            Error::InvalidInput(m) => m.clone(),
            Error::Io(m) => m.clone(),
            Error::Jev(m) => {
                let mut out = "jev: ".to_owned();
                out.append(m.as_str());
                out
            },
            Error::Embed(m) => m.clone(),
            Error::Walk(m) => m.clone(),
            Error::BadPattern(m) => m.clone(),
            Error::Lsp(m) => m.clone(),
            Error::LspServer(m) => m.clone(),
        }
    }
}

/// An error reads as what it was told, behind the name of the service where it
/// is the service's.
pub proof fn errors_say_what_they_were_told(m: Seq<char>)
    ensures
        error_text(ErrorView::InvalidInput(m)) == m,
        error_text(ErrorView::Io(m)) == m,
        error_text(ErrorView::Embed(m)) == m,
        error_text(ErrorView::Walk(m)) == m,
        error_text(ErrorView::BadPattern(m)) == m,
        error_text(ErrorView::Lsp(m)) == m,
        error_text(ErrorView::LspServer(m)) == m,
        error_text(ErrorView::Jev(m)).len() == m.len() + 5,
        m.is_suffix_of(error_text(ErrorView::Jev(m))),
{
    reveal_strlit("jev: ");
    let t = error_text(ErrorView::Jev(m));
    assert(m =~= t.subrange(t.len() - m.len(), t.len() as int));
}

} // verus!
