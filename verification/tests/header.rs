use mathematica_notebook_filter::parser::header;

#[test]
fn content_type() {
    // Extra before input
    let mut output: Vec<u8> = Vec::new();
    let mut input = &b"ABC(* Content-type: application/vnd.wolfram.mathematica *)\n"[..];
    assert!(header::parse_content_type(&mut input, &mut output).is_ok());
    assert_eq!(input, &b"\n"[..]);
    assert_eq!(
        output.as_slice(),
        &b"(* Content-type: application/vnd.wolfram.mathematica *)\n"[..]
    );

    // Longer valid input
    let mut output: Vec<u8> = Vec::new();
    let mut input = &b"(* Content-type: application/vnd.wolfram.mathematica *)\n\
                             \n\
                             (*** Wolfram Notebook File ***)\n\
                             (* http://www.wolfram.com/nb *)"[..];
    assert!(header::parse_content_type(&mut input, &mut output).is_ok());
    assert_eq!(
        input,
        &b"\n\n(*** Wolfram Notebook File ***)\n(* http://www.wolfram.com/nb *)"[..]
    );
    assert_eq!(
        output.as_slice(),
        &b"(* Content-type: application/vnd.wolfram.mathematica *)\n"[..]
    );
}

#[test]
fn beginning_notebook() {
    let mut output: Vec<u8> = Vec::new();
    let mut input = &b"(* Other stuff *)\n\
                              \n\
                              (* Beginning of Notebook Content *)\n\
                              Notebook[{\n\
                              \n"[..];
    assert!(header::parse_beginning_notebook(&mut input, &mut output).is_ok());
    assert_eq!(input, &b"\nNotebook[{\n\n"[..]);
    assert_eq!(
        output.as_slice(),
        &b"\n(* Beginning of Notebook Content *)\n"[..]
    );
}
