use strex::StrexHir;

fn assert_parse_pretty(parse: &str, pretty: &str) {
    assert_eq!(StrexHir::parse(parse).unwrap().to_string(), pretty);
}

fn assert_pretty(pretty: &str) {
    assert_parse_pretty(pretty, pretty);
}

fn lit(word: &str) -> StrexHir {
    StrexHir::Literal(word.to_string())
}

#[test]
fn parse_and_pretty_print_equal() {
    assert_pretty(".*");
    assert_pretty("foo.*bar.*baz");
    assert_pretty("(foo|faaa).*bar.*baz");
}

#[test]
fn parse_builds_the_tree_of_the_grammar() {
    assert_eq!(StrexHir::parse("foo"), Some(lit("foo")));
    assert_eq!(StrexHir::parse(".*"), Some(StrexHir::Wild));
    assert_eq!(
        StrexHir::parse("foo.*bar"),
        Some(StrexHir::Concat(vec![lit("foo"), StrexHir::Wild, lit("bar")]))
    );
    assert_eq!(StrexHir::parse("a|b|c"), Some(StrexHir::Or(vec![lit("a"), lit("b"), lit("c")])));
    assert_eq!(
        StrexHir::parse("(sa.*lam|hello).*foo"),
        Some(StrexHir::Concat(vec![
            StrexHir::Or(vec![
                StrexHir::Concat(vec![lit("sa"), StrexHir::Wild, lit("lam")]),
                lit("hello"),
            ]),
            StrexHir::Wild,
            lit("foo"),
        ]))
    );
}

#[test]
fn parse_takes_letters_digits_and_underscore_as_one_word() {
    assert_eq!(StrexHir::parse("aZ_09"), Some(lit("aZ_09")));
    assert_eq!(StrexHir::parse("9lives"), Some(lit("9lives")));
    assert_eq!(StrexHir::parse("_"), Some(lit("_")));
}

#[test]
fn parse_collapses_single_elements() {
    assert_eq!(StrexHir::parse("(foo)"), Some(lit("foo")));
    assert_eq!(StrexHir::parse("((foo))"), Some(lit("foo")));
    assert_eq!(StrexHir::parse("(.*)"), Some(StrexHir::Wild));
    assert_eq!(StrexHir::parse("(a|b)"), Some(StrexHir::Or(vec![lit("a"), lit("b")])));
    assert_eq!(
        StrexHir::parse("(a)(b)"),
        Some(StrexHir::Concat(vec![lit("a"), lit("b")]))
    );
}

#[test]
fn parse_refuses_what_is_not_in_the_grammar() {
    assert_eq!(StrexHir::parse(""), None);
    assert_eq!(StrexHir::parse("a|"), None);
    assert_eq!(StrexHir::parse("|a"), None);
    assert_eq!(StrexHir::parse("a||b"), None);
    assert_eq!(StrexHir::parse("(a"), None);
    assert_eq!(StrexHir::parse("a)"), None);
    assert_eq!(StrexHir::parse("()"), None);
    assert_eq!(StrexHir::parse("a b"), None);
    assert_eq!(StrexHir::parse("a."), None);
    assert_eq!(StrexHir::parse("a*"), None);
    assert_eq!(StrexHir::parse("a-b"), None);
    assert_eq!(StrexHir::parse("caf\u{e9}"), None);
}

#[test]
fn to_string_writes_alternations_in_parentheses() {
    let tree = StrexHir::Or(vec![
        lit("a"),
        StrexHir::Concat(vec![lit("b"), StrexHir::Wild, StrexHir::Or(vec![lit("c"), lit("d")])]),
    ]);
    assert_eq!(tree.to_string(), "(a|b.*(c|d))");
    assert_eq!(StrexHir::Or(vec![]).to_string(), "()");
    assert_eq!(StrexHir::Concat(vec![]).to_string(), "");
    assert_eq!(StrexHir::Wild.to_string(), ".*");
}

#[test]
fn printed_tree_parses_back_to_itself() {
    let trees = vec![
        lit("foo"),
        StrexHir::Wild,
        StrexHir::Concat(vec![lit("a"), StrexHir::Wild, StrexHir::Wild, lit("b")]),
        StrexHir::Or(vec![lit("a"), StrexHir::Or(vec![lit("b"), lit("c")])]),
        StrexHir::Concat(vec![
            StrexHir::Or(vec![lit("x"), StrexHir::Concat(vec![lit("y"), StrexHir::Wild])]),
            lit("z"),
            StrexHir::Wild,
        ]),
    ];
    for tree in trees {
        assert_eq!(StrexHir::parse(&tree.to_string()), Some(tree));
    }
}

#[test]
fn printed_tree_that_is_not_canonical_parses_to_another() {
    let nested = StrexHir::Concat(vec![
        StrexHir::Concat(vec![lit("a"), StrexHir::Wild]),
        StrexHir::Wild,
    ]);
    assert_eq!(
        StrexHir::parse(&nested.to_string()),
        Some(StrexHir::Concat(vec![lit("a"), StrexHir::Wild, StrexHir::Wild]))
    );
    let adjacent = StrexHir::Concat(vec![lit("a"), lit("b")]);
    assert_eq!(StrexHir::parse(&adjacent.to_string()), Some(lit("ab")));
}

#[test]
fn words_lists_the_literals_left_to_right() {
    let tree = StrexHir::parse("(sa.*lam|hello).*(fooo|sa)").unwrap();
    assert_eq!(tree.words(), vec!["sa", "lam", "hello", "fooo", "sa"]);
    assert_eq!(StrexHir::Wild.words(), Vec::<String>::new());
    assert_eq!(lit("w").words(), vec!["w"]);
}

#[test]
fn clone_gives_an_equal_tree() {
    let tree = StrexHir::parse("(a|b.*c).*d").unwrap();
    assert_eq!(tree.clone(), tree);
}
