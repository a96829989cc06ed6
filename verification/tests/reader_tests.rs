use partial_precedence::{expr_token, next, peek, token, whitespace, Error, Expr};

#[test]
fn next_reads_one_character() {
    let mut src = "ab";
    assert_eq!(next(&mut src), Some('a'));
    assert_eq!(src, "b");
    assert_eq!(next(&mut src), Some('b'));
    assert_eq!(src, "");
    assert_eq!(next(&mut src), None);
    assert_eq!(src, "");
}

#[test]
fn next_reads_a_character_of_several_bytes() {
    let mut src = "\u{4eac}x\u{1f49d}";
    assert_eq!(next(&mut src), Some('\u{4eac}'));
    assert_eq!(src, "x\u{1f49d}");
    assert_eq!(next(&mut src), Some('x'));
    assert_eq!(next(&mut src), Some('\u{1f49d}'));
    assert_eq!(next(&mut src), None);
}

#[test]
fn peek_leaves_the_source_as_it_was() {
    let src = "xyz";
    assert_eq!(peek(&src, next), Some('x'));
    assert_eq!(src, "xyz");
    assert_eq!(peek(&src, token), Ok("xyz".to_string()));
    assert_eq!(src, "xyz");
    let empty = "";
    assert_eq!(peek(&empty, next), None);
}

#[test]
fn whitespace_stops_at_the_first_other_character() {
    let mut src = "  \t\n a b ";
    assert_eq!(whitespace(&mut src), Ok(()));
    assert_eq!(src, "a b ");
    assert_eq!(whitespace(&mut src), Ok(()));
    assert_eq!(src, "a b ");
}

#[test]
fn whitespace_reads_all_of_a_blank_source() {
    let mut src = " \u{a0}\u{2003} ";
    assert_eq!(whitespace(&mut src), Ok(()));
    assert_eq!(src, "");
    assert_eq!(whitespace(&mut src), Ok(()));
    assert_eq!(src, "");
}

#[test]
fn token_reads_a_run_of_letters() {
    let mut src = "  hello world";
    assert_eq!(token(&mut src), Ok("hello".to_string()));
    assert_eq!(src, " world");
    assert_eq!(token(&mut src), Ok("world".to_string()));
    assert_eq!(src, "");
}

#[test]
fn token_reads_one_character_that_is_no_letter() {
    let mut src = "->x1";
    assert_eq!(token(&mut src), Ok("-".to_string()));
    assert_eq!(src, ">x1");
    assert_eq!(token(&mut src), Ok(">".to_string()));
    assert_eq!(token(&mut src), Ok("x".to_string()));
    assert_eq!(src, "1");
    assert_eq!(token(&mut src), Ok("1".to_string()));
    assert_eq!(src, "");
}

#[test]
fn token_splits_the_example_input() {
    let mut src = "@a,#b:c.q";
    let mut tokens = Vec::new();
    while let Ok(t) = token(&mut src) {
        tokens.push(t);
    }
    assert_eq!(tokens, vec!["@", "a", ",", "#", "b", ":", "c", ".", "q"]);
    assert_eq!(src, "");
}

#[test]
fn token_takes_letters_of_any_script() {
    let mut src = "\u{4eac}\u{90fd}+\u{e9}t\u{e9}";
    assert_eq!(token(&mut src), Ok("\u{4eac}\u{90fd}".to_string()));
    assert_eq!(token(&mut src), Ok("+".to_string()));
    assert_eq!(token(&mut src), Ok("\u{e9}t\u{e9}".to_string()));
    assert_eq!(src, "");
}

#[test]
fn token_fails_at_the_end_of_input() {
    let mut src = "";
    assert_eq!(token(&mut src), Err((String::new(), Error::EOF)));
    assert_eq!(src, "");
    let mut src = "  \n ";
    assert_eq!(token(&mut src), Err((String::new(), Error::EOF)));
    assert_eq!(src, "");
}

#[test]
fn expr_token_wraps_the_token_in_a_name() {
    let mut src = " foo(";
    assert_eq!(expr_token(&mut src), Ok(Box::new(Expr::Name("foo".to_string()))));
    assert_eq!(src, "(");
    assert_eq!(expr_token(&mut src), Ok(Box::new(Expr::Name("(".to_string()))));
    assert_eq!(expr_token(&mut src), Err((String::new(), Error::EOF)));
}
