use tangle::text::{dedent, remove_return};

#[test]
fn dedent_strips_indentation() {
    assert_eq!(dedent("if a:\n        b\n    c".to_string(), 4), "if a:\r\n    b\r\nc");
    assert_eq!(dedent("  x\n y".to_string(), 2), "x\r\n y");
    assert_eq!(dedent("a\r\nb\n\nc\n".to_string(), 0), "a\r\nb\r\n\r\nc");
    assert_eq!(dedent(String::new(), 4), "");
    assert_eq!(dedent("a\r\nb\r".to_string(), 0), "a\r\nb\r");
}

#[test]
fn remove_return_keeps_lines_before_it() {
    assert_eq!(remove_return("x = 1\ny = 2\nreturn [x]\nz = 3".to_string()), "x = 1\r\ny = 2");
    assert_eq!(remove_return("x = 1".to_string()), "x = 1");
    assert_eq!(remove_return("return 1".to_string()), "");
    assert_eq!(remove_return(String::new()), "");
}
