use mathematica_notebook_filter::error::{ErrorKind, ParseError};
use mathematica_notebook_filter::parser::whitespace::WhitespaceCleaner;
use mathematica_notebook_filter::parser::{cell, cell_group_data, header, notebook, utilities};
use mathematica_notebook_filter::sink::ByteSink;

#[test]
fn error_eof_in_function() {
    let mut input = &b"Foo[x, [y]"[..];
    assert_eq!(utilities::load_function(&mut input), Err(ParseError::EofInFunction));
    assert!(input.is_empty());
    let mut input = &b"x, {y"[..];
    assert_eq!(utilities::load_rest_of_function(&mut input), Err(ParseError::EofInFunction));
    assert!(input.is_empty());
}

#[test]
fn error_eof_before_bytes() {
    let mut input = &b"Ce"[..];
    let mut output = Vec::new();
    assert_eq!(cell::parse_cell(&mut input, &mut output), Err(ParseError::EofBeforeBytes));
    assert_eq!(input, &b"Ce"[..]);
}

#[test]
fn error_no_content_type() {
    let mut input = &b"(* Content type *)"[..];
    let mut output: Vec<u8> = Vec::new();
    assert_eq!(header::parse_content_type(&mut input, &mut output), Err(ParseError::NoContentType));
    assert_eq!(input, &b"(* Content type *)"[..]);
    assert!(output.is_empty());
}

#[test]
fn error_no_beginning_of_notebook() {
    let mut input = &b"Notebook[{}]"[..];
    let mut output: Vec<u8> = Vec::new();
    assert_eq!(
        header::parse_beginning_notebook(&mut input, &mut output),
        Err(ParseError::NoBeginningOfNotebook)
    );
}

#[test]
fn error_no_notebook() {
    let mut input = &b"Notebook {}"[..];
    let mut output: Vec<u8> = Vec::new();
    assert_eq!(notebook::parse_notebook(&mut input, &mut output), Err(ParseError::NoNotebook));
    assert_eq!(input, &b"Notebook {}"[..]);
}

#[test]
fn error_no_notebook_cell_list() {
    let mut input = &b"Notebook[Cell[1]]"[..];
    let mut output: Vec<u8> = Vec::new();
    assert_eq!(
        notebook::parse_notebook_start(&mut input, &mut output),
        Err(ParseError::NoNotebookCellList)
    );
}

#[test]
fn error_bad_notebook_end() {
    let mut input = &b" x]"[..];
    let mut output: Vec<u8> = Vec::new();
    assert_eq!(notebook::parse_notebook_end(&mut input, &mut output), Err(ParseError::BadNotebookEnd));
    assert!(input.is_empty());
    assert!(output.is_empty());
}

#[test]
fn error_not_cell_list() {
    let mut input = &b"[Cell[1]]"[..];
    let mut output: Vec<u8> = Vec::new();
    assert_eq!(cell::parse_cell_list(&mut input, &mut output), Err(ParseError::NotCellList));
}

#[test]
fn error_no_cell_or_list_end() {
    let mut input = &b"{Cell[1], Cell[2]"[..];
    let mut output: Vec<u8> = Vec::new();
    assert_eq!(cell::parse_cell_list(&mut input, &mut output), Err(ParseError::NoCellOrListEnd));
    assert_eq!(output, b"{Cell[1], Cell[2]");
}

#[test]
fn error_not_cell() {
    let mut input = &b"Celt[1]"[..];
    let mut output = Vec::new();
    assert_eq!(cell::parse_cell(&mut input, &mut output), Err(ParseError::NotCell));
}

#[test]
fn error_cell_without_argument() {
    let mut input = &b"Cell[1}, rest"[..];
    let mut output = Vec::new();
    assert_eq!(cell::parse_cell(&mut input, &mut output), Err(ParseError::CellWithoutArgument));
    assert_eq!(input, &b", rest"[..]);
    assert!(output.is_empty());
}

#[test]
fn error_not_cell_group_data() {
    let mut input = &b"CellGroupDat[{}]"[..];
    let mut output = Vec::new();
    assert_eq!(
        cell_group_data::parse_cell_group_data(&mut input, &mut output),
        Err(ParseError::NotCellGroupData)
    );
}

#[test]
fn error_no_cell_group_data_list() {
    let mut input = &b"CellGroupData[Cell[1]]"[..];
    let mut output = Vec::new();
    assert_eq!(
        cell_group_data::parse_cell_group_data_start(&mut input, &mut output),
        Err(ParseError::NoCellGroupDataList)
    );
}

#[test]
fn error_bad_cell_group_data_end() {
    let mut input = &b"Open]"[..];
    let mut output = Vec::new();
    assert_eq!(
        cell_group_data::parse_cell_group_data_end(&mut input, &mut output),
        Err(ParseError::BadCellGroupDataEnd)
    );
}

#[test]
fn error_invalid_utf8() {
    let mut wc = WhitespaceCleaner::new(Vec::new());
    assert_eq!(wc.write_all(b"ok line\nbad \xff byte\n"), Err(ParseError::InvalidUtf8));
    assert_eq!(wc.into_inner(), b"ok line\n");
}

#[test]
fn error_kinds_and_messages() {
    assert_eq!(ParseError::EofInFunction.kind(), ErrorKind::UnexpectedEof);
    assert_eq!(ParseError::NoContentType.kind(), ErrorKind::InvalidInput);
    assert_eq!(ParseError::InvalidUtf8.kind(), ErrorKind::InvalidData);
    assert_eq!(ParseError::NoCellOrListEnd.kind(), ErrorKind::UnexpectedEof);
    assert_eq!(ParseError::EofInFunction.message(), "EOF reached before end of a function.");
    assert_eq!(
        ParseError::NotCellList.message(),
        "Expected the start of a list of cells."
    );
}
