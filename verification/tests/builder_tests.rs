use partial_precedence::{
    append, append_left, append_right, associativity, build, combine, infix, leftmost, parse,
    render, Associativity, Context, Error, Expr,
};

fn name(text: &str) -> Box<Expr> {
    Box::new(Expr::Name(text.to_string()))
}

fn app(left: Box<Expr>, right: Box<Expr>) -> Box<Expr> {
    Box::new(Expr::App(left, right))
}

fn example_context() -> Context {
    let mut context = Context::new();
    context.infix(".");
    assert!(context.gt("a", "@"));
    assert!(context.gt("a", "-"));
    assert!(context.gt(".", "-"));
    assert!(context.gt("@", "."));
    context
}

fn parsed_text(context: &Context, text: &str) -> String {
    let mut input = text;
    let tree = parse(context, &mut input).unwrap();
    assert_eq!(input, "");
    render(&tree)
}

#[test]
fn example_configuration_parses_the_example_input() {
    let context = example_context();
    let mut input = "@a,#b:c.q";
    let tree = parse(&context, &mut input).unwrap();
    assert_eq!(input, "");
    assert_eq!(leftmost(&tree), "@");
    // `a` binds tighter than `@`, so everything after `@` is its argument.
    // Of the operators that follow only `.` is infix: the others are applied
    // one after the other, and `.` then closes over what stands before it.
    assert_eq!(render(&tree), "(@ ((. (((((a ,) #) b) :) c)) q))");
    let expected = app(
        name("@"),
        app(
            app(
                name("."),
                app(app(app(app(app(name("a"), name(",")), name("#")), name("b")), name(":")), name("c")),
            ),
            name("q"),
        ),
    );
    assert_eq!(tree, expected);
}

#[test]
fn standard_context_parses_like_the_example_configuration() {
    let standard = Context::standard();
    let example = example_context();
    for text in ["@a,#b:c.q", "-a.b", "a b c", "a.b", "@ a", "- . a"] {
        let mut left = text;
        let mut right = text;
        assert_eq!(parse(&standard, &mut left), parse(&example, &mut right));
    }
}

#[test]
fn prefix_chain_groups_to_the_right() {
    let context = Context::standard();
    let mut input = "-a.b";
    let tree = parse(&context, &mut input).unwrap();
    assert_eq!(leftmost(&tree), "-");
    assert_eq!(render(&tree), "(- ((. a) b))");
    assert_eq!(input, "");
}

#[test]
fn two_unrelated_infix_operators_are_an_error() {
    let mut context = Context::new();
    context.infix("+");
    context.infix("*");
    let mut input = "+ * b";
    assert_eq!(
        parse(&context, &mut input),
        Err((" b".to_string(), Error::UndefinedAssociativity("+".to_string(), "*".to_string())))
    );
    assert_eq!(input, " b");
}

#[test]
fn an_infix_operator_twice_without_its_own_rule_is_an_error() {
    let context = Context::standard();
    let mut input = "a.b.c";
    assert_eq!(
        parse(&context, &mut input),
        Err(("c".to_string(), Error::UndefinedAssociativity(".".to_string(), ".".to_string())))
    );
    assert_eq!(input, "c");
}

#[test]
fn a_collision_inside_a_sub_expression_ends_the_whole_parse() {
    let mut context = Context::standard();
    context.infix("+");
    let mut input = "- a . b + c d";
    assert_eq!(
        parse(&context, &mut input),
        Err((" c d".to_string(), Error::UndefinedAssociativity(".".to_string(), "+".to_string())))
    );
    assert_eq!(input, " c d");
}

#[test]
fn a_declared_relation_resolves_the_collision() {
    let mut context = Context::new();
    context.infix("+");
    context.infix("*");
    context.gt("*", "+");
    context.gt("x", "+");
    context.gt("x", "*");
    // `+` groups to the right against `*`: `*` is spliced in under `+`.
    assert_eq!(parsed_text(&context, "x + y * z"), "((+ x) ((* y) z))");
    // `*` groups to the left against `+`: `+` closes over all that stands before it.
    assert_eq!(parsed_text(&context, "x * y + z"), "((+ ((* x) y)) z)");
}

#[test]
fn self_associativity_decides_a_repeated_operator() {
    let mut left = Context::new();
    left.infix("-");
    left.gt("a", "-");
    left.la("-");
    assert_eq!(parsed_text(&left, "a - b - c"), "((- ((- a) b)) c)");
    let mut right = Context::new();
    right.infix("-");
    right.gt("a", "-");
    right.ra("-");
    assert_eq!(parsed_text(&right, "a - b - c"), "((- a) ((- b) c))");
}

#[test]
fn an_infix_operator_cannot_be_spliced_into_a_bare_name() {
    let mut context = Context::new();
    context.infix("+");
    let mut input = "a + b";
    assert_eq!(
        parse(&context, &mut input),
        Err((" b".to_string(), Error::InvalidInfixSplice("a".to_string(), "+".to_string())))
    );
    assert_eq!(input, " b");
}

#[test]
fn parse_of_nothing_is_the_end_of_input() {
    let context = Context::standard();
    let mut input = "";
    assert_eq!(parse(&context, &mut input), Err((String::new(), Error::EOF)));
    let mut input = " \n\t ";
    assert_eq!(parse(&context, &mut input), Err((String::new(), Error::EOF)));
    assert_eq!(input, "");
}

#[test]
fn parse_of_one_token_is_that_name() {
    let context = Context::standard();
    let mut input = "  foo  ";
    assert_eq!(parse(&context, &mut input), Ok(name("foo")));
    assert_eq!(input, "");
    let mut input = ".";
    assert_eq!(parse(&context, &mut input), Ok(name(".")));
}

#[test]
fn plain_names_apply_from_left_to_right() {
    let context = Context::new();
    assert_eq!(parsed_text(&context, "f x y z"), "(((f x) y) z)");
    assert_eq!(parsed_text(&context, "f(x)"), "(((f () x) ))");
}

#[test]
fn a_tighter_name_takes_the_rest_of_the_input() {
    let mut context = Context::new();
    context.gt("g", "f");
    assert_eq!(parsed_text(&context, "f g x y"), "(f ((g x) y))");
    assert_eq!(parsed_text(&context, "f x g y"), "((f x) (g y))");
    assert_eq!(parsed_text(&context, "g f x"), "((g f) x)");
}

#[test]
fn rendering_a_single_name_parses_to_the_same_rendering() {
    let context = Context::standard();
    for text in ["a", "  word ", ".", "-", "\u{4eac}\u{90fd}"] {
        let first = parsed_text(&context, text);
        let second = parsed_text(&context, &first);
        assert_eq!(second, first);
    }
}

#[test]
fn rendering_an_application_does_not_parse_back() {
    let context = Context::new();
    let first = parsed_text(&context, "a b");
    assert_eq!(first, "(a b)");
    let second = parsed_text(&context, &first);
    assert_eq!(second, "(((( a) b) ))");
    assert_ne!(second, first);
}

#[test]
fn associativity_compares_the_heads() {
    let context = Context::standard();
    let minus = app(name("-"), name("x"));
    let a = app(app(name("a"), name("y")), name("z"));
    assert_eq!(associativity(&context, &minus, &a, &"rest"), Ok(Associativity::Right));
    assert_eq!(associativity(&context, &a, &minus, &"rest"), Ok(Associativity::Left));
    assert_eq!(associativity(&context, &name("f"), &name("."), &"rest"), Ok(Associativity::Right));
    assert_eq!(
        associativity(&context, &app(name("."), name("x")), &name("."), &"rest"),
        Err(("rest".to_string(), Error::UndefinedAssociativity(".".to_string(), ".".to_string())))
    );
}

#[test]
fn infix_holds_of_bare_infix_names_only() {
    let context = Context::standard();
    assert!(infix(&context, &name(".")));
    assert!(!infix(&context, &name("a")));
    assert!(!infix(&context, &app(name("."), name("a"))));
}

#[test]
fn combine_puts_an_infix_operator_in_front() {
    let context = Context::standard();
    assert_eq!(combine(&context, name("a"), name(".")), app(name("."), name("a")));
    assert_eq!(combine(&context, name("a"), name("b")), app(name("a"), name("b")));
    assert_eq!(
        combine(&context, name("a"), app(name("."), name("b"))),
        app(name("a"), app(name("."), name("b")))
    );
    assert_eq!(append_left(&context, app(name("f"), name("x")), name(".")), app(name("."), app(name("f"), name("x"))));
    assert_eq!(append_left(&context, app(name("f"), name("x")), name("y")), app(app(name("f"), name("x")), name("y")));
}

#[test]
fn append_to_the_left_reads_nothing() {
    let context = Context::standard();
    let mut input = " y z";
    assert_eq!(append(&context, name("f"), name("x"), &mut input), Ok(app(name("f"), name("x"))));
    assert_eq!(input, " y z");
}

#[test]
fn append_to_the_right_reads_the_rest() {
    let context = Context::standard();
    let mut input = " y z";
    assert_eq!(
        append(&context, name("-"), name("a"), &mut input),
        Ok(app(name("-"), app(app(name("a"), name("y")), name("z"))))
    );
    assert_eq!(input, "");
}

#[test]
fn append_right_splices_an_infix_operator_under_the_base() {
    let context = Context::standard();
    let mut input = "c d";
    assert_eq!(
        append_right(&context, app(name("-"), name("b")), name("."), &mut input),
        Ok(app(name("-"), app(app(app(name("."), name("b")), name("c")), name("d"))))
    );
    assert_eq!(input, "");
    let mut input = "c";
    assert_eq!(
        append_right(&context, name("-"), name("."), &mut input),
        Err(("c".to_string(), Error::InvalidInfixSplice("-".to_string(), ".".to_string())))
    );
    assert_eq!(input, "c");
}

#[test]
fn build_grows_a_tree_by_all_tokens() {
    let context = Context::standard();
    let mut input = "";
    assert_eq!(build(&context, name("f"), &mut input), Ok(name("f")));
    let mut input = " x . y";
    assert_eq!(
        build(&context, app(name("a"), name("w")), &mut input),
        Ok(app(app(name("."), app(app(name("a"), name("w")), name("x"))), name("y")))
    );
    assert_eq!(input, "");
}
