//! Why a query has no answer.

use vstd::prelude::*;

use crate::seqs;
use crate::text;
use crate::text::{join2, join3};

verus! {

broadcast use crate::seqs::group_text;

/// Why a query has no answer.
#[derive(Debug)]
pub enum Failure {
    /// The text is not JSON, for this reason.
    Json(String),
    /// The translation index is not an object.
    NotAnObject,
    /// No symbol is called this.
    NoSymbol(String),
    /// More than one symbol is called this: the ids of those.
    Ambiguous(String, Vec<String>),
    /// No table is called this.
    NoTable(String),
}

/// What a [`Failure`] says.
pub enum FailureView {
    Json(Seq<char>),
    NotAnObject,
    NoSymbol(Seq<char>),
    Ambiguous(Seq<char>, Seq<Seq<char>>),
    NoTable(Seq<char>),
}

impl View for Failure {
    type V = FailureView;

    open spec fn view(&self) -> FailureView {
        match self {
            Failure::Json(m) => FailureView::Json(m@),
            Failure::NotAnObject => FailureView::NotAnObject,
            Failure::NoSymbol(s) => FailureView::NoSymbol(s@),
            Failure::Ambiguous(s, ids) => FailureView::Ambiguous(s@, seqs::views(ids@)),
            Failure::NoTable(s) => FailureView::NoTable(s@),
        }
    }
}

impl FailureView {
    /// The words of the failure.
    pub open spec fn words(self) -> Seq<char> {
        match self {
            FailureView::Json(m) => m,
            FailureView::NotAnObject => "lang.json: not an object"@,
            FailureView::NoSymbol(s) => "no symbol matches '"@ + s + "'"@,
            FailureView::Ambiguous(s, ids) => "ambiguous '"@ + s + "':\n  "@ + text::joined(ids, "\n  "@),
            FailureView::NoTable(s) => "no table '"@ + s + "'"@,
        }
    }
}

impl Failure {
    /// The words of the failure.
    pub fn message(&self) -> (r: String)
        ensures
            r@ == self@.words(),
    {
        match self {
            Failure::Json(m) => m.clone(),
            Failure::NotAnObject => "lang.json: not an object".to_string(),
            Failure::NoSymbol(s) => join3("no symbol matches '", s, "'"),
            Failure::Ambiguous(s, ids) => join2(
                &join3("ambiguous '", s, "':\n  "),
                &text::join_strings(ids, "\n  "),
            ),
            Failure::NoTable(s) => join3("no table '", s, "'"),
        }
    }
}

} // verus!
