use mathematica_notebook_filter::parser::whitespace::WhitespaceCleaner;
use mathematica_notebook_filter::parser::{cell, notebook, utilities};
use mathematica_notebook_filter::sink::ByteSink;

#[test]
fn read_consume_output_moves_bytes() {
    let whole = &b"Cell[1], rest"[..];
    let mut input = whole;
    let mut output = b"prefix:".to_vec();
    assert!(utilities::read_consume_output(&mut input, &mut output, 8).is_ok());
    assert_eq!(output, b"prefix:Cell[1],");
    let moved = &output[b"prefix:".len()..];
    assert_eq!([moved, input].concat(), whole);
}

#[test]
fn output_cell_is_dropped() {
    for text in [
        &b"Cell[BoxData[\"2\"], \"Output\", CellLabel->\"Out[1]=\"], next"[..],
        &b"Cell[\"hello\", \"Print\"], next"[..],
        &b"Cell[\"warning\", \"Message\", \"MSG\"], next"[..],
        &b"Cell[\"busy\", \"PrintTemporary\"], next"[..],
    ] {
        let mut input = text;
        let mut output = b"kept".to_vec();
        assert_eq!(cell::parse_cell(&mut input, &mut output), Ok(false));
        assert_eq!(output, b"kept");
        assert_eq!(input, &b", next"[..]);
    }
}

#[test]
fn cell_result_tells_if_written() {
    for (text, kept) in [
        (&b"Cell[1, \"Output\"]"[..], false),
        (&b"Cell[1, \"Input\"]"[..], true),
        (&b"Cell[]"[..], true),
        (&b"Cell[CellGroupData[{Cell[2, \"Output\"]}]]"[..], true),
    ] {
        let mut input = text;
        let mut output = Vec::new();
        assert_eq!(cell::parse_cell(&mut input, &mut output), Ok(kept));
        assert_eq!(!output.is_empty(), kept);
    }
}

#[test]
fn plain_cell_is_copied() {
    for text in [&b"Cell[\"Some text\", \"Text\"]"[..], &b"Cell[BoxData[RowBox[{\"x\", \"+\", \"y\"}]]]"[..]] {
        let mut input = text;
        let mut output = Vec::new();
        assert_eq!(cell::parse_cell(&mut input, &mut output), Ok(true));
        assert_eq!(output, text);
        assert!(input.is_empty());
    }
}

#[test]
fn cell_list_is_braced() {
    let mut input = &b"{\n Cell[1, \"Output\"],\n Cell[2, \"Input\"]\n} tail"[..];
    let mut output: Vec<u8> = b"before ".to_vec();
    assert!(cell::parse_cell_list(&mut input, &mut output).is_ok());
    assert_eq!(output, b"before {\n Cell[2, \"Input\"]\n}");
    assert_eq!(input, &b" tail"[..]);
}

#[test]
fn notebook_ends_with_end_marker() {
    let mut input = &b"Notebook[{Cell[1]}, WindowSize->{1, 2}]"[..];
    let mut output: Vec<u8> = Vec::new();
    assert!(notebook::parse_notebook(&mut input, &mut output).is_ok());
    assert!(output.ends_with(b"]\n(* End of Notebook Content *)\n"));
    assert_eq!(output, b"Notebook[{Cell[1]}]\n(* End of Notebook Content *)\n");
}

#[test]
fn cleaner_lines_have_no_trailing_white_space() {
    let mut wc = WhitespaceCleaner::new(Vec::new());
    let text = "tabs\t\t\nnbsp\u{a0}\u{85}\nideographic\u{3000}\u{2003}\u{202f} \n\n  indented stays\r\nend";
    assert!(wc.write_all(text.as_bytes()).is_ok());
    let out = wc.into_inner();
    assert_eq!(
        String::from_utf8(out.clone()).unwrap(),
        "tabs\nnbsp\nideographic\n\n  indented stays\n"
    );
    for line in String::from_utf8(out).unwrap().split('\n') {
        assert_eq!(line, line.trim_end());
    }
}

#[test]
fn cleaner_write_in_pieces() {
    let text = "first line   \nsecond \u{e9}t\u{e9}  \nthird";
    let bytes = text.as_bytes();
    let mut whole = WhitespaceCleaner::new(Vec::new());
    assert!(whole.write_all(bytes).is_ok());
    assert!(whole.flush().is_ok());
    let whole = whole.into_inner();
    for cut in [0, 3, 14, 16, 20, bytes.len()] {
        if !text.is_char_boundary(cut) {
            continue;
        }
        let mut pieces = WhitespaceCleaner::new(Vec::new());
        assert!(pieces.write_all(&bytes[..cut]).is_ok());
        assert!(pieces.write_all(&bytes[cut..]).is_ok());
        assert!(pieces.flush().is_ok());
        assert_eq!(pieces.into_inner(), whole);
    }
    assert_eq!(whole, b"first line\nsecond \xc3\xa9t\xc3\xa9\nthird");
}

#[test]
fn function_ends_at_closing_bracket() {
    for (text, expected) in [
        (&b"Foo[x, {y}] rest"[..], &b"Foo[x, {y}]"[..]),
        (&b"List[{1, 2}} rest"[..], &b"List[{1, 2}}"[..]),
        (&b"Foo[\"]\"] rest"[..], &b"Foo[\"]\"]"[..]),
    ] {
        let mut input = text;
        let (s, _) = utilities::load_function(&mut input).unwrap();
        assert_eq!(s, expected);
        assert!(matches!(s.last(), Some(b']') | Some(b'}')));
        assert_eq!(input, &b" rest"[..]);
    }
}

#[test]
fn trim_is_trim_end() {
    for text in ["plain", "spaces  ", "mixed \t\u{a0}\u{2009}\u{3000}", "\u{200b}zero width stays\u{200b}", "é \u{85}"] {
        let mut wc = WhitespaceCleaner::new(Vec::new());
        assert!(wc.write_all(format!("{}\n", text).as_bytes()).is_ok());
        let out = wc.into_inner();
        assert_eq!(String::from_utf8(out).unwrap(), format!("{}\n", text.trim_end()));
    }
}

#[test]
fn kept_cell_list_is_copied() {
    let list = &b"{Cell[1], Cell[2], Cell[3]}"[..];
    let mut input = &b"{Cell[1], Cell[2], Cell[3]} tail"[..];
    let mut output = b"before".to_vec();
    assert!(cell::parse_cell_list(&mut input, &mut output).is_ok());
    assert_eq!(output, [&b"before"[..], list].concat());
    assert_eq!(input, &b" tail"[..]);

    let mut input = &b"{\n }rest"[..];
    let mut output = Vec::new();
    assert!(cell::parse_cell_list(&mut input, &mut output).is_ok());
    assert_eq!(output, b"{\n }");
    assert_eq!(input, &b"rest"[..]);
}

#[test]
fn cleaner_output_is_cleaned_lines() {
    let mut one = WhitespaceCleaner::new(b"o:".to_vec());
    for chunk in [&b"ab \t"[..], &b"\ncd\xc2\xa0"[..], &b"  \r\n\nef  "[..]] {
        assert_eq!(one.write(chunk), Ok(chunk.len()));
    }
    assert_eq!(one.output(), &b"o:ab\ncd\n\n".to_vec());
    let mut two = WhitespaceCleaner::new(b"o:".to_vec());
    assert!(two.write(b"ab \t\ncd\xc2\xa0  \r\n\nef  ").is_ok());
    assert_eq!(two.output(), one.output());
}

#[test]
fn flush_passes_last_line() {
    let mut cleaner = WhitespaceCleaner::new(Vec::new());
    assert!(cleaner.write(b"ab \ncd  ").is_ok());
    assert_eq!(cleaner.flush(), Ok(()));
    assert_eq!(cleaner.output(), &b"ab\ncd  ".to_vec());
    assert_eq!(cleaner.flush(), Ok(()));
    assert_eq!(cleaner.into_inner(), b"ab\ncd  ");
}

#[test]
fn cleaner_takes_valid_utf8() {
    let mut cleaner = WhitespaceCleaner::new(Vec::new());
    for chunk in ["π ≈ 3.14\u{3000}\n", "\u{2003}", "é\n"] {
        assert_eq!(cleaner.write(chunk.as_bytes()), Ok(chunk.len()));
    }
    assert_eq!(cleaner.into_inner(), "π ≈ 3.14\n\u{2003}é\n".as_bytes());
}

#[test]
fn parse_input_output_ends_with_end_line() {
    let text = "(* Content-type: application/vnd.wolfram.mathematica *)  \n\
                (* Beginning of Notebook Content *)\n\
                Notebook[{Cell[\"x\", \"Text\"],   \nCell[1, \"Output\"]}, WindowSize->{1, 2}]";
    let mut input = text.as_bytes();
    let mut output = Vec::new();
    assert_eq!(mathematica_notebook_filter::parser::parse_input(&mut input, &mut output), Ok(()));
    let out = String::from_utf8(output).unwrap();
    assert_eq!(
        out,
        "(* Content-type: application/vnd.wolfram.mathematica *)\n\n\
         (* Beginning of Notebook Content *)\n\
         Notebook[{Cell[\"x\", \"Text\"]}]\n\
         (* End of Notebook Content *)\n"
    );
    assert!(out.ends_with("(* End of Notebook Content *)\n"));
    assert!(out.lines().all(|l| l.trim_end() == l));
}

#[test]
fn cell_list_writes_kept_cells() {
    let mut input =
        &b"{\n Cell[1, \"Output\"], Cell[2], Cell[3, \"Print\"],\n Cell[4, \"Input\", ExpressionUUID->\"u\"]\n}x"[..];
    let mut output = Vec::new();
    assert!(cell::parse_cell_list(&mut input, &mut output).is_ok());
    assert_eq!(output, b"{\n Cell[2],\n Cell[4, \"Input\"]\n}");
    assert_eq!(input, &b"x"[..]);
}

#[test]
fn read_consume_output_in_two_steps() {
    let whole = &b"FooBar 1234567890"[..];
    let mut input = whole;
    let mut output = Vec::new();
    assert!(utilities::read_consume_output(&mut input, &mut output, 3).is_ok());
    assert!(utilities::read_consume_output(&mut input, &mut output, 4).is_ok());
    let mut input2 = whole;
    let mut output2 = Vec::new();
    assert!(utilities::read_consume_output(&mut input2, &mut output2, 7).is_ok());
    assert_eq!(output, output2);
    assert_eq!(input, input2);
    assert_eq!(output, b"FooBar ");
}

#[test]
fn kept_cell_list_with_c_in_separators_is_copied() {
    let list = &b"{Cell[1], (* Cel C *) Cell[2],\nCell[3]}"[..];
    let input = [list, &b"rest"[..]].concat();
    let mut slice = &input[..];
    let mut output = Vec::new();
    assert!(cell::parse_cell_list(&mut slice, &mut output).is_ok());
    assert_eq!(output, list);
    assert_eq!(slice, &b"rest"[..]);
}

#[test]
fn kept_cells_are_clean() {
    let mut input = &b"Cell[CellGroupData[{Cell[CellGroupData[{Cell[\"a\", \"Input\", CellChangeTimes->{1}, Background->Red], Cell[\"b\", \"Output\"]}, Open], \"Input\", ExpressionUUID->\"u\"], Cell[\"c\", \"Message\"]}, Closed], \"Section\", ExpressionUUID->\"v\"]"[..];
    let mut output = Vec::new();
    assert_eq!(cell::parse_cell(&mut input, &mut output), Ok(true));
    assert_eq!(
        output,
        &b"Cell[CellGroupData[{Cell[CellGroupData[{Cell[\"a\", \"Input\", Background->Red]}], \"Input\"]}], \"Section\"]"[..]
    );
    assert!(input.is_empty());
    let text = String::from_utf8(output).unwrap();
    for word in ["Output", "Message", "CellChangeTimes", "ExpressionUUID"] {
        assert!(!text.contains(word));
    }
}
