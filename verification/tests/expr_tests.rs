use partial_precedence::{leftmost, render, Associativity, Error, Expr};

fn name(text: &str) -> Box<Expr> {
    Box::new(Expr::Name(text.to_string()))
}

fn app(left: Box<Expr>, right: Box<Expr>) -> Box<Expr> {
    Box::new(Expr::App(left, right))
}

#[test]
fn leftmost_of_a_name_is_the_name() {
    assert_eq!(leftmost(&name("f")), "f");
}

#[test]
fn leftmost_follows_the_left_spine() {
    let tree = app(app(app(name("f"), name("x")), name("y")), app(name("g"), name("z")));
    assert_eq!(leftmost(&tree), "f");
    let tree = app(name("h"), app(app(name("g"), name("x")), name("y")));
    assert_eq!(leftmost(&tree), "h");
}

#[test]
fn render_of_a_name_is_the_name() {
    assert_eq!(render(&name("abc")), "abc");
    assert_eq!(render(&name(".")), ".");
    assert_eq!(render(&name("")), "");
}

#[test]
fn render_puts_each_application_in_parentheses() {
    assert_eq!(render(&app(name("f"), name("x"))), "(f x)");
    assert_eq!(render(&app(app(name("."), name("a")), name("b"))), "((. a) b)");
    assert_eq!(render(&app(name("f"), app(name("g"), name("x")))), "(f (g x))");
    let tree = app(
        name("@"),
        app(
            app(name(","), name("a")),
            app(app(name("."), app(name("#"), app(app(name(":"), name("b")), name("c")))), name("q")),
        ),
    );
    assert_eq!(render(&tree), "(@ ((, a) ((. (# ((: b) c))) q)))");
}

#[test]
fn expressions_compare_by_shape_and_names() {
    assert_eq!(app(name("f"), name("x")), app(name("f"), name("x")));
    assert_ne!(app(name("f"), name("x")), app(name("x"), name("f")));
    assert_ne!(name("f"), app(name("f"), name("x")));
}

#[test]
fn associativity_and_errors_compare_by_value() {
    assert_eq!(Associativity::Left, Associativity::Left);
    assert_ne!(Associativity::Left, Associativity::Right);
    assert_eq!(Error::EOF, Error::EOF);
    assert_ne!(
        Error::UndefinedAssociativity("+".to_string(), "*".to_string()),
        Error::UndefinedAssociativity("*".to_string(), "+".to_string())
    );
    assert_ne!(
        Error::InvalidInfixSplice("a".to_string(), "+".to_string()),
        Error::UndefinedAssociativity("a".to_string(), "+".to_string())
    );
}
