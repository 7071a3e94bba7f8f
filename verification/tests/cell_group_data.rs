use mathematica_notebook_filter::parser::cell_group_data;

#[test]
fn cell_group_data_start() {
    // Valid with Cell list as first argument
    let mut output = Vec::new();
    let mut input = &b"CellGroupData[{\nCell["[..];
    assert!(cell_group_data::parse_cell_group_data_start(&mut input, &mut output).is_ok());
    assert_eq!(input, &b"{\nCell["[..]);
    assert_eq!(output, &b"CellGroupData["[..]);

    // No cell list in first argument
    let mut output = Vec::new();
    let mut input = &b"CellGroupData[Cell["[..];
    assert!(cell_group_data::parse_cell_group_data_start(&mut input, &mut output).is_err());
}

#[test]
fn cell_group_data_end() {
    // Valid
    let mut output = Vec::new();
    let mut input = &b", Open], Cell[{}, \"Output\"]"[..];
    assert!(cell_group_data::parse_cell_group_data_end(&mut input, &mut output).is_ok());
    assert_eq!(input, &b", Cell[{}, \"Output\"]"[..]);
    assert_eq!(output.as_slice(), &b"]"[..]);

    let mut output = Vec::new();
    let mut input = &b"], Cell[{}, \"Output\"]"[..];
    assert!(cell_group_data::parse_cell_group_data_end(&mut input, &mut output).is_ok());
    assert_eq!(input, &b", Cell[{}, \"Output\"]"[..]);
    assert_eq!(output.as_slice(), &b"]"[..]);

    // Invalid
    let mut output = Vec::new();
    let mut input = &b"Open], Cell[{}, \"Output\"]"[..];
    assert!(cell_group_data::parse_cell_group_data_end(&mut input, &mut output).is_err());
}

#[test]
fn cell_group_data() {
    // Valid
    let mut output = Vec::new();
    let mut input = &b"CellGroupData[{Cell[1, \"Input\"], Cell[2, \"Output\"]}, Open], Foo"[..];
    assert!(cell_group_data::parse_cell_group_data(&mut input, &mut output).is_ok());
    assert_eq!(input, &b", Foo"[..]);
    assert_eq!(output, &b"CellGroupData[{Cell[1, \"Input\"]}]"[..]);

    let mut output = Vec::new();
    let mut input = &b"CellGroupData[{Cell[1, \"Input\"], Cell[2, \"Output\"]}], Foo"[..];
    assert!(cell_group_data::parse_cell_group_data(&mut input, &mut output).is_ok());
    assert_eq!(input, &b", Foo"[..]);
    assert_eq!(output, &b"CellGroupData[{Cell[1, \"Input\"]}]"[..]);

    // Invalid Cells
    let mut output = Vec::new();
    let mut input = &b"CellGroupData[{Cell[1, \"Input\"], Cell[2, \"Output\"]} Open], Foo"[..];
    assert!(cell_group_data::parse_cell_group_data(&mut input, &mut output).is_err());

    let mut output = Vec::new();
    let mut input = &b"Foo[CellGroupData[{Cell[1, \"Input\"], Cell[2, \"Output\"]} Open], Foo"[..];
    assert!(cell_group_data::parse_cell_group_data(&mut input, &mut output).is_err());
}
