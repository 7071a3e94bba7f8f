use mathematica_notebook_filter::parser::notebook;

#[test]
fn notebook_start() {
    // Valid
    let mut output: Vec<u8> = Vec::new();
    let mut input = &b"Notebook[{\n\nCell["[..];
    assert!(notebook::parse_notebook_start(&mut input, &mut output).is_ok());
    assert_eq!(input, b"{\n\nCell[");
    assert_eq!(&output, b"Notebook[");

    // Invalid
    let mut output: Vec<u8> = Vec::new();
    let mut input = &b"Notebook[\n\nCell["[..];
    assert!(notebook::parse_notebook_start(&mut input, &mut output).is_err());

    let mut output: Vec<u8> = Vec::new();
    let mut input = &b"Cell[\n\nCell["[..];
    assert!(notebook::parse_notebook_start(&mut input, &mut output).is_err());
}

#[test]
fn notebook_end() {
    // Valid
    let mut output: Vec<u8> = Vec::new();
    let mut input = &br#",
WindowSize->{808, 911},
WindowMargins->{{4, Automatic}, {Automatic, 30}},
FrontEndVersion->"11.1 for Linux x86 (64-bit) (April 18, 2017)",
StyleDefinitions->FrontEnd`FileName[{$RootDirectory, "home", "josh", "src", 
   "Mathematica"}, "Stylesheet.nb", CharacterEncoding -> "UTF-8"]
]
(* End of Notebook Content *)

(* Internal cache information *)
(*CellTagsOutline
CellTagsIndex->{}
*)
(*CellTagsIndex
CellTagsIndex->{}
*)"#[..];
    assert!(notebook::parse_notebook_end(&mut input, &mut output).is_ok());
    assert_eq!(
        input,
        &br#"
(* End of Notebook Content *)

(* Internal cache information *)
(*CellTagsOutline
CellTagsIndex->{}
*)
(*CellTagsIndex
CellTagsIndex->{}
*)"#[..]
    );
    assert_eq!(
        output.as_slice(),
        &b"]\n(* End of Notebook Content *)\n"[..]
    );

    // Invalid
    let mut output: Vec<u8> = Vec::new();
    let mut input = &br"WindowSize->{808, 911}"[..];
    assert!(notebook::parse_notebook_end(&mut input, &mut output).is_err());
}

#[test]
fn notebook() {
    // Valid
    let mut output: Vec<u8> = Vec::new();
    let mut input = &br#"
(* Beginning of Notebook Content *)
Notebook[{
  Cell[1],
  Cell[2]
},
WindowSize->{1272, 1534},
WindowMargins->{{4, Automatic}, {Automatic, 30}},
FrontEndVersion->"11.1 for Linux x86 (64-bit) (April 18, 2017)",
StyleDefinitions->FrontEnd`FileName[{$RootDirectory, "home", "josh", "src", 
   "Mathematica"}, "Stylesheet.nb", CharacterEncoding -> "UTF-8"]
]
(* End of Notebook Content *)
"#[..];
    assert!(notebook::parse_notebook(&mut input, &mut output).is_ok());
    assert_eq!(input, &b"\n(* End of Notebook Content *)\n"[..]);
    assert_eq!(
        output,
        &br#"Notebook[{
  Cell[1],
  Cell[2]
}]
(* End of Notebook Content *)
"#[..]
    );

    // Invalid
    let mut output: Vec<u8> = Vec::new();
    let mut input = &br#"CellGroupData[{
  Cell[1],
  Cell[2]
}]"#[..];
    assert!(notebook::parse_notebook(&mut input, &mut output).is_err());
}
