use mathematica_notebook_filter::error::ParseError;
use mathematica_notebook_filter::parser::{cell, parse_input, utilities};

const NOTEBOOK: &str = "(* Content-type: application/vnd.wolfram.mathematica *)

(*** Wolfram Notebook File ***)
(* http://www.wolfram.com/nb *)

(* CreatedBy='Mathematica 11.1' *)

(* Beginning of Notebook Content *)
Notebook[{
Cell[CellGroupData[{
Cell[BoxData[
 RowBox[{\"1\", \"+\", \"1\"}]], \"Input\",
 CellChangeTimes->{{3.7*^9, 3.7*^9}}, ExpressionUUID->\"abc\"],   
Cell[BoxData[\"2\"], \"Output\",
 CellChangeTimes->{3.7*^9}, ExpressionUUID->\"def\"]
}, Open  ]],
Cell[\"Some text\", \"Text\"]
},
WindowSize->{808, 911},
FrontEndVersion->\"11.1 for Linux x86 (64-bit) (April 18, 2017)\"
]
(* End of Notebook Content *)

(* Internal cache information *)
";

const FILTERED: &str = "(* Content-type: application/vnd.wolfram.mathematica *)

(* Beginning of Notebook Content *)
Notebook[{
Cell[CellGroupData[{
Cell[BoxData[
 RowBox[{\"1\", \"+\", \"1\"}]], \"Input\"]
}]],
Cell[\"Some text\", \"Text\"]
}]
(* End of Notebook Content *)
";

#[test]
fn whole_notebook_is_filtered() {
    let mut input = NOTEBOOK.as_bytes();
    let mut output = Vec::new();
    assert_eq!(parse_input(&mut input, &mut output), Ok(()));
    assert_eq!(String::from_utf8(output).unwrap(), FILTERED);
    assert_eq!(input, &b"\n(* End of Notebook Content *)\n\n(* Internal cache information *)\n"[..]);
}

#[test]
fn filtered_notebook_is_filtered_unchanged() {
    let mut input = FILTERED.as_bytes();
    let mut output = Vec::new();
    assert_eq!(parse_input(&mut input, &mut output), Ok(()));
    assert_eq!(String::from_utf8(output).unwrap(), FILTERED);
}

#[test]
fn missing_header_is_an_error_but_notebook_still_runs() {
    let mut input = &b"Notebook[{Cell[1, \"Output\"], Cell[2]}]"[..];
    let mut output = Vec::new();
    assert_eq!(parse_input(&mut input, &mut output), Err(ParseError::NoContentType));
    assert_eq!(output, b"Notebook[{Cell[2]}]\n(* End of Notebook Content *)\n");
}

#[test]
fn strings_hide_brackets_from_load_function() {
    let mut input = &b"Cell[\"a]b\", \"Input\"] tail"[..];
    let (s, args) = utilities::load_function(&mut input).unwrap();
    assert_eq!(s, b"Cell[\"a]b\", \"Input\"]");
    assert_eq!(args, vec![5, 11, 20]);
    assert_eq!(input, &b" tail"[..]);
}

#[test]
fn strings_hide_brackets_from_load_rest_of_function() {
    let mut input = &b"\"a,]\", c]x"[..];
    let (s, args) = utilities::load_rest_of_function(&mut input).unwrap();
    assert_eq!(s, b"\"a,]\", c]");
    assert_eq!(args, vec![6, 9]);
    assert_eq!(input, &b"x"[..]);

    let mut input = &b", \"a]b\"] tail"[..];
    let (s, args) = utilities::load_rest_of_function(&mut input).unwrap();
    assert_eq!(s, b", \"a]b\"]");
    assert_eq!(args, vec![1, 8]);
    assert_eq!(input, &b" tail"[..]);
}

#[test]
fn print_and_message_cells_are_dropped() {
    let mut input =
        &b"{Cell[1, \"Input\"], Cell[2, \"Print\"], Cell[3, \"Message\", \"MSG\"], Cell[4, \"PrintTemporary\"]}"[..];
    let mut output: Vec<u8> = Vec::new();
    assert!(cell::parse_cell_list(&mut input, &mut output).is_ok());
    assert_eq!(output, b"{Cell[1, \"Input\"]}");
}

#[test]
fn expression_uuid_is_dropped() {
    let mut input = &b"Cell[1, \"Input\", ExpressionUUID->\"x-y\", Background->Red]"[..];
    let mut output = Vec::new();
    assert_eq!(cell::parse_cell(&mut input, &mut output), Ok(true));
    assert_eq!(output, b"Cell[1, \"Input\", Background->Red]");
}
