use mathematica_notebook_filter::parser::whitespace::WhitespaceCleaner;
use mathematica_notebook_filter::sink::ByteSink;

#[test]
fn write() {
    // First with nicely terminated lines
    let output: Vec<u8> = Vec::new();
    let input = &br#"
 the quick   
brown fox    
    jump     
over   	     
   the       
lazy dog.    
"#[..];

    let output = {
        let mut wc = WhitespaceCleaner::new(output);
        wc.write_all(input).is_ok();
        wc.flush().is_ok();
        wc.into_inner()
    };
    assert_eq!(
        &String::from_utf8(output).unwrap(),
        r#"
 the quick
brown fox
    jump
over
   the
lazy dog.
"#
    );

    // Try a slightly messier output
    let output: Vec<u8> = Vec::new();
    let input = "abc  \n123 \n456";

    let output = {
        let mut wc = WhitespaceCleaner::new(output);
        wc.write_all(input.as_bytes()).is_ok();
        wc.flush().is_ok();
        wc.into_inner()
    };
    assert_eq!(&String::from_utf8(output).unwrap(), "abc\n123\n456");
}
