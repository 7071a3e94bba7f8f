use vstd::prelude::*;

verus! {

/// The broad category of a failure, following the kinds of `std::io::ErrorKind`
/// that the parser reports.
#[derive(Debug, Clone, Copy, PartialEq, Eq, Structural)]
pub enum ErrorKind {
    /// The input ended before the parser found what it needed.
    UnexpectedEof,
    /// The input does not have the expected shape.
    InvalidInput,
    /// The bytes written out were not valid UTF-8.
    InvalidData,
}

/// Every way in which parsing a notebook can fail.
#[derive(Debug, Clone, Copy, PartialEq, Eq, Structural)]
pub enum ParseError {
    /// The input ended inside a function `Foo[...]`.
    EofInFunction,
    /// Fewer bytes were left than had to be read or compared.
    EofBeforeBytes,
    /// No `(* Content-type: ` comment was found.
    NoContentType,
    /// No `(* Beginning of Notebook Content *)` comment was found.
    NoBeginningOfNotebook,
    /// No `Notebook[` was found.
    NoNotebook,
    /// No `{` opening the list of cells of `Notebook[]` was found.
    NoNotebookCellList,
    /// The text after the list of cells of `Notebook[]` does not start an argument.
    BadNotebookEnd,
    /// A list of cells does not start with `{`.
    NotCellList,
    /// A list of cells has neither a further `Cell[` nor a closing `}`.
    NoCellOrListEnd,
    /// A cell does not start with `Cell[`.
    NotCell,
    /// A `Cell[]` whose argument list has no closing bracket.
    CellWithoutArgument,
    /// A cell group does not start with `CellGroupData[`.
    NotCellGroupData,
    /// No `{` opening the list of cells of `CellGroupData[]` was found.
    NoCellGroupDataList,
    /// The text after the list of cells of `CellGroupData[]` does not start an argument.
    BadCellGroupDataEnd,
    /// A piece of the output given to the whitespace cleaner was not valid UTF-8.
    InvalidUtf8,
}

impl ParseError {
    /// The category of this error.
    pub fn kind(&self) -> (k: ErrorKind)
        ensures
            k == self.spec_kind(),
    {
        match self {
            ParseError::EofInFunction => ErrorKind::UnexpectedEof,
            ParseError::EofBeforeBytes => ErrorKind::UnexpectedEof,
            ParseError::NoContentType => ErrorKind::InvalidInput,
            ParseError::NoBeginningOfNotebook => ErrorKind::InvalidInput,
            ParseError::NoNotebook => ErrorKind::UnexpectedEof,
            ParseError::NoNotebookCellList => ErrorKind::UnexpectedEof,
            ParseError::BadNotebookEnd => ErrorKind::InvalidInput,
            ParseError::NotCellList => ErrorKind::InvalidInput,
            ParseError::NoCellOrListEnd => ErrorKind::UnexpectedEof,
            ParseError::NotCell => ErrorKind::InvalidInput,
            ParseError::CellWithoutArgument => ErrorKind::InvalidInput,
            ParseError::NotCellGroupData => ErrorKind::InvalidInput,
            ParseError::NoCellGroupDataList => ErrorKind::UnexpectedEof,
            ParseError::BadCellGroupDataEnd => ErrorKind::InvalidInput,
            ParseError::InvalidUtf8 => ErrorKind::InvalidData,
        }
    }

    /// The category of each error.
    pub open spec fn spec_kind(self) -> ErrorKind {
        match self {
            ParseError::EofInFunction => ErrorKind::UnexpectedEof,
            ParseError::EofBeforeBytes => ErrorKind::UnexpectedEof,
            ParseError::NoContentType => ErrorKind::InvalidInput,
            ParseError::NoBeginningOfNotebook => ErrorKind::InvalidInput,
            ParseError::NoNotebook => ErrorKind::UnexpectedEof,
            ParseError::NoNotebookCellList => ErrorKind::UnexpectedEof,
            ParseError::BadNotebookEnd => ErrorKind::InvalidInput,
            ParseError::NotCellList => ErrorKind::InvalidInput,
            ParseError::NoCellOrListEnd => ErrorKind::UnexpectedEof,
            ParseError::NotCell => ErrorKind::InvalidInput,
            ParseError::CellWithoutArgument => ErrorKind::InvalidInput,
            ParseError::NotCellGroupData => ErrorKind::InvalidInput,
            ParseError::NoCellGroupDataList => ErrorKind::UnexpectedEof,
            ParseError::BadCellGroupDataEnd => ErrorKind::InvalidInput,
            ParseError::InvalidUtf8 => ErrorKind::InvalidData,
        }
    }

    /// The human-readable description of this error.
    pub fn message(&self) -> (r: &'static str)
        ensures
            r@ == self.spec_message(),
    {
        match self {
            ParseError::EofInFunction => "EOF reached before end of a function.",
            ParseError::EofBeforeBytes => "EOF reached before being able to read specified number of bytes.",
            ParseError::NoContentType => "Unable to locate the content type specification near the start of the file.",
            ParseError::NoBeginningOfNotebook => "Unable to locate the beginning of Notebook content specification.",
            ParseError::NoNotebook => "Unable to locate the `Notebook[]` function.",
            ParseError::NoNotebookCellList => "EOF reached before finding start of the list of cells within `Notebook[]`.",
            ParseError::BadNotebookEnd => "Expected to be right after an argument when parsing the end of `Notebook[]`.",
            ParseError::NotCellList => "Expected the start of a list of cells.",
            ParseError::NoCellOrListEnd => "Unable to locate the next cell or end of list in list of cells.",
            ParseError::NotCell => "Expected the start of a Cell[].",
            ParseError::CellWithoutArgument => "Cell[] must have at least one argument.",
            ParseError::NotCellGroupData => "Expected the start of CellGroupData[].",
            ParseError::NoCellGroupDataList => "EOF reached before finding start of the list of cells within CellGroupData[].",
            ParseError::BadCellGroupDataEnd => "Expected to be right after an argument when parsing the end of CellGroupData[].",
            ParseError::InvalidUtf8 => "stream did not contain valid UTF-8",
        }
    }

    /// The description of each error, as text.
    pub open spec fn spec_message(self) -> Seq<char> {
        match self {
            ParseError::EofInFunction => "EOF reached before end of a function."@,
            ParseError::EofBeforeBytes => "EOF reached before being able to read specified number of bytes."@,
            ParseError::NoContentType => "Unable to locate the content type specification near the start of the file."@,
            ParseError::NoBeginningOfNotebook => "Unable to locate the beginning of Notebook content specification."@,
            ParseError::NoNotebook => "Unable to locate the `Notebook[]` function."@,
            ParseError::NoNotebookCellList => "EOF reached before finding start of the list of cells within `Notebook[]`."@,
            ParseError::BadNotebookEnd => "Expected to be right after an argument when parsing the end of `Notebook[]`."@,
            ParseError::NotCellList => "Expected the start of a list of cells."@,
            ParseError::NoCellOrListEnd => "Unable to locate the next cell or end of list in list of cells."@,
            ParseError::NotCell => "Expected the start of a Cell[]."@,
            ParseError::CellWithoutArgument => "Cell[] must have at least one argument."@,
            ParseError::NotCellGroupData => "Expected the start of CellGroupData[]."@,
            ParseError::NoCellGroupDataList => "EOF reached before finding start of the list of cells within CellGroupData[]."@,
            ParseError::BadCellGroupDataEnd => "Expected to be right after an argument when parsing the end of CellGroupData[]."@,
            ParseError::InvalidUtf8 => "stream did not contain valid UTF-8"@,
        }
    }
}

} // verus!
