use mathematica_notebook_filter::parser::utilities;

#[test]
fn load_function() {
    // Simple function
    let mut input = &b"Foo[x, y, z] Bar[x, y, z]"[..];
    let (s, args) = utilities::load_function(&mut input).unwrap();
    assert_eq!(input, &b" Bar[x, y, z]"[..]);
    assert_eq!(s, b"Foo[x, y, z]");
    assert_eq!(args, vec![4, 6, 9, 12]);
    assert_eq!(&s[args[0]..args[1]], b"x,");
    assert_eq!(&s[args[1]..args[2]], b" y,");
    assert_eq!(&s[args[2]..args[3]], b" z]");

    // Nested functions
    let mut input = &b"Foo[Bar[Sin[x, y], z], P[x]]"[..];
    let (s, args) = utilities::load_function(&mut input).unwrap();
    assert!(input.is_empty());
    assert_eq!(s, b"Foo[Bar[Sin[x, y], z], P[x]]");
    assert_eq!(args, vec![4, 22, 28]);
    assert_eq!(&s[args[0]..args[1]], b"Bar[Sin[x, y], z],");
    assert_eq!(&s[args[1]..args[2]], b" P[x]]");

    // With list
    let mut input = &b"Foo[{x, y, z}, {1, 2, 3}]"[..];
    let (s, args) = utilities::load_function(&mut input).unwrap();
    assert!(input.is_empty());
    assert_eq!(s, b"Foo[{x, y, z}, {1, 2, 3}]");
    assert_eq!(args, vec![4, 14, 25]);
    assert_eq!(&s[args[0]..args[1]], b"{x, y, z},");
    assert_eq!(&s[args[1]..args[2]], b" {1, 2, 3}]");
}

#[test]
fn load_rest_of_function() {
    // Simple function
    let mut input = &b"x, y, z] Bar[x, y, z]"[..];
    let (s, args) = utilities::load_rest_of_function(&mut input).unwrap();
    assert_eq!(input, b" Bar[x, y, z]");
    assert_eq!(s, b"x, y, z]");
    assert_eq!(args, vec![2, 5, 8]);
    assert_eq!(&s[..args[0]], b"x,");
    assert_eq!(&s[args[0]..args[1]], b" y,");
    assert_eq!(&s[args[1]..args[2]], b" z]");

    // Nested functions
    let mut input = &b"Bar[Sin[x, y], z], P[x]]"[..];
    let (s, args) = utilities::load_rest_of_function(&mut input).unwrap();
    assert!(input.is_empty());
    assert_eq!(s, b"Bar[Sin[x, y], z], P[x]]");
    assert_eq!(args, vec![18, 24]);
    assert_eq!(&s[..args[0]], b"Bar[Sin[x, y], z],");
    assert_eq!(&s[args[0]..args[1]], b" P[x]]");

    // With list
    let mut input = &b"{x, y, z}, {1, 2, 3}]"[..];
    let (s, args) = utilities::load_rest_of_function(&mut input).unwrap();
    assert!(input.is_empty());
    assert_eq!(s, b"{x, y, z}, {1, 2, 3}]");
    assert_eq!(args, vec![10, 21]);
    assert_eq!(&s[..args[0]], b"{x, y, z},");
    assert_eq!(&s[args[0]..args[1]], b" {1, 2, 3}]");
}

#[test]
fn read_consume_output() {
    let mut input = &b"FooBar 1234567890"[..];
    let mut output = Vec::new();
    assert!(utilities::read_consume_output(&mut input, &mut output, 3).is_ok());
    assert_eq!(input, b"Bar 1234567890");
    assert_eq!(&output, b"Foo");

    assert!(utilities::read_consume_output(&mut input, &mut output, 3).is_ok());
    assert_eq!(input, b" 1234567890");
    assert_eq!(&output, b"FooBar");

    assert!(utilities::read_consume_output(&mut input, &mut output, 100).is_err());
}

#[test]
fn check_start() {
    let mut input = &b"FooBar"[..];
    assert!(utilities::check_start(&mut input, b"Foo").is_ok());
    assert_eq!(utilities::check_start(&mut input, b"Foo").unwrap(), true);
    assert!(utilities::check_start(&mut input, b"Bar").is_ok());
    assert_eq!(utilities::check_start(&mut input, b"Bar").unwrap(), false);
    assert!(utilities::check_start(&mut input, b"FooBar123").is_err());
}
