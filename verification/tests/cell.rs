use mathematica_notebook_filter::parser::cell;

#[test]
fn cell() {
    // Output Cells
    let mut output = Vec::new();
    let mut input = &br#"Cell[123, "Output"]"#[..];
    assert!(cell::parse_cell(&mut input, &mut output).is_ok());
    assert!(input.is_empty());
    assert!(output.is_empty());

    let mut output = Vec::new();
    let mut input = &br#"Cell[{Cell[1, "Input"], Cell[2, "Output"]}, "Output"]"#[..];
    assert!(cell::parse_cell(&mut input, &mut output).is_ok());
    assert!(input.is_empty());
    assert!(output.is_empty());

    let mut output = Vec::new();
    let mut input = &br#"Cell[123, "Output", MetaData->Foo, Timestamp->123]"#[..];
    assert!(cell::parse_cell(&mut input, &mut output).is_ok());
    assert!(input.is_empty());
    assert!(output.is_empty());

    // Non-output Cells
    let mut output = Vec::new();
    let mut input = &br#"Cell[123, "Input"]"#[..];
    assert!(cell::parse_cell(&mut input, &mut output).is_ok());
    assert!(input.is_empty());
    assert_eq!(&output, br#"Cell[123, "Input"]"#);

    let mut output = Vec::new();
    let mut input = &br#"Cell[123, "Input", Foo->Bar]"#[..];
    assert!(cell::parse_cell(&mut input, &mut output).is_ok());
    assert!(input.is_empty());
    assert_eq!(&output, br#"Cell[123, "Input", Foo->Bar]"#);

    let mut output = Vec::new();
    let mut input = &br#"Cell[123, "Input", CellChangeTimes->123]"#[..];
    assert!(cell::parse_cell(&mut input, &mut output).is_ok());
    assert!(input.is_empty());
    assert_eq!(&output, br#"Cell[123, "Input"]"#);

    let mut output = Vec::new();
    let mut input = &br#"Cell[123, "Input", CellChangeTimes->123, Foo->Bar]"#[..];
    assert!(cell::parse_cell(&mut input, &mut output).is_ok());
    assert!(input.is_empty());
    assert_eq!(&output, br#"Cell[123, "Input", Foo->Bar]"#);

    // Cell with CellGroupData
    let mut output = Vec::new();
    let mut input =
        &b"Cell[CellGroupData[{Cell[1, \"Input\"], Cell[2, \"Output\"]}, Open]], Foo"[..];
    assert!(cell::parse_cell(&mut input, &mut output).is_ok());
    assert_eq!(input, b", Foo");
    assert_eq!(output, &br#"Cell[CellGroupData[{Cell[1, "Input"]}]]"#[..]);

    let mut output = Vec::new();
    let mut input = &br#"Cell[
CellGroupData[{
  Cell[CellGroupData[{Cell[1, "Input"], Cell[2, "Output"]}]],
  Cell[3, "Input"],
  Cell[4, "Output"]
}, Open]],
Foo"#[..];
    assert!(cell::parse_cell(&mut input, &mut output).is_ok());
    assert_eq!(input, &b",\nFoo"[..]);
    assert_eq!(
        output,
        &br#"Cell[
CellGroupData[{
  Cell[CellGroupData[{Cell[1, "Input"]}]],
  Cell[3, "Input"]
}]]"#[..]
    );

    // Invalid Cells
    let mut output = Vec::new();
    let mut input = &br#"Foo Cell[123, "Input"]"#[..];
    assert!(cell::parse_cell(&mut input, &mut output).is_err());

    // Although technically invalid from the Mathematica notebook, this is
    // outputted fine.
    let mut output = Vec::new();
    let mut input = &b"Cell[]"[..];
    assert!(cell::parse_cell(&mut input, &mut output).is_ok());
    assert!(input.is_empty());
    assert_eq!(output, b"Cell[]");
}

#[test]
fn cell_list() {
    // Simple lists
    let mut output: Vec<u8> = Vec::new();
    let mut input = &b"{} Foo"[..];
    assert!(cell::parse_cell_list(&mut input, &mut output).is_ok());
    assert_eq!(input, b" Foo");
    assert_eq!(output, b"{}");

    let mut output: Vec<u8> = Vec::new();
    let mut input = &b"{Cell[1]} Cell[2]"[..];
    assert!(cell::parse_cell_list(&mut input, &mut output).is_ok());
    assert_eq!(input, b" Cell[2]");
    assert_eq!(output, b"{Cell[1]}");

    // Combinations of Input and Output
    let mut output: Vec<u8> = Vec::new();
    let mut input = &br#"{Cell[1], Cell[2], Cell[3]}"#[..];
    assert!(cell::parse_cell_list(&mut input, &mut output).is_ok());
    assert!(input.is_empty());
    assert_eq!(output, &br#"{Cell[1], Cell[2], Cell[3]}"#[..]);

    let mut output: Vec<u8> = Vec::new();
    let mut input = &br#"{Cell[1, "Output"], Cell[2], Cell[3]}"#[..];
    assert!(cell::parse_cell_list(&mut input, &mut output).is_ok());
    assert!(input.is_empty());
    assert_eq!(output, &br#"{Cell[2], Cell[3]}"#[..]);

    let mut output: Vec<u8> = Vec::new();
    let mut input = &br#"{Cell[1], Cell[2, "Output"], Cell[3]}"#[..];
    assert!(cell::parse_cell_list(&mut input, &mut output).is_ok());
    assert!(input.is_empty());
    assert_eq!(output, &br#"{Cell[1], Cell[3]}"#[..]);

    let mut output: Vec<u8> = Vec::new();
    let mut input = &br#"{Cell[1], Cell[2], Cell[3, "Output"]}"#[..];
    assert!(cell::parse_cell_list(&mut input, &mut output).is_ok());
    assert!(input.is_empty());
    assert_eq!(output, &br#"{Cell[1], Cell[2]}"#[..]);

    let mut output: Vec<u8> = Vec::new();
    let mut input = &br#"{Cell[1], Cell[2, "Output"], Cell[3, "Output"]}"#[..];
    assert!(cell::parse_cell_list(&mut input, &mut output).is_ok());
    assert!(input.is_empty());
    assert_eq!(output, &br#"{Cell[1]}"#[..]);

    let mut output: Vec<u8> = Vec::new();
    let mut input = &br#"{Cell[1, "Output"], Cell[2], Cell[3, "Output"]}"#[..];
    assert!(cell::parse_cell_list(&mut input, &mut output).is_ok());
    assert!(input.is_empty());
    assert_eq!(output, &br#"{Cell[2]}"#[..]);

    let mut output: Vec<u8> = Vec::new();
    let mut input = &br#"{Cell[1, "Output"], Cell[2, "Output"], Cell[3]}"#[..];
    assert!(cell::parse_cell_list(&mut input, &mut output).is_ok());
    assert!(input.is_empty());
    assert_eq!(output, &br#"{Cell[3]}"#[..]);

    let mut output: Vec<u8> = Vec::new();
    let mut input = &br#"{Cell[1, "Output"], Cell[2, "Output"], Cell[3, "Output"]}"#[..];
    assert!(cell::parse_cell_list(&mut input, &mut output).is_ok());
    assert!(input.is_empty());
    assert_eq!(output, &br#"{}"#[..]);

    // Invalid Cell lists
    let mut output: Vec<u8> = Vec::new();
    let mut input = &b"Foo"[..];
    assert!(cell::parse_cell_list(&mut input, &mut output).is_err());

    let mut output: Vec<u8> = Vec::new();
    let mut input = &b"{Foo"[..];
    assert!(cell::parse_cell_list(&mut input, &mut output).is_err());
}
