use potato::expression::{AtomType, Expression, ExpressionType};
use potato::parser::{atom, Parser};
use potato::tokenizer::{Tokenizer, END_LINE};

fn show(e: &Expression) -> String {
    match e.get_value() {
        ExpressionType::Atom(AtomType::Symbol(s)) => format!("sym:{}", s),
        ExpressionType::Atom(AtomType::String(s)) => format!("str:{}", s),
        ExpressionType::Atom(AtomType::Number(s)) => format!("num:{}", s),
        ExpressionType::List(items) => {
            let parts: Vec<String> = items.iter().map(show).collect();
            format!("[{}]", parts.join(" "))
        }
    }
}

fn words(list: &[&str]) -> Vec<String> {
    list.iter().map(|w| w.to_string()).collect()
}

fn parse(list: &[&str]) -> String {
    let mut tokens = words(list);
    let mut parser = Parser::new();
    show(&parser.parse(&mut tokens).unwrap())
}

#[test]
fn name() {
    let mut tokenizer = Tokenizer::new();
    let mut tokens = tokenizer
        .tokenize("\nprint(\"hello\")\ndef x = 0\n".to_string())
        .unwrap();
    let mut parser = Parser::new();
    let tree = parser.parse(&mut tokens).unwrap();
    assert_eq!(
        show(&tree),
        "[[sym:print [str:\"hello\"]] [sym:def sym:x sym:= num:0]]"
    );
    assert!(tokens.is_empty());
    assert_eq!(parser.depth(), 0);
    assert!(parser.diagnostics().is_empty());
}

#[test]
fn no_tokens_is_the_only_error() {
    let mut tokens: Vec<String> = Vec::new();
    let mut parser = Parser::new();
    let e = parser.parse(&mut tokens).unwrap_err();
    assert_eq!(e.message(), "Unexpected EOF");
    assert_eq!(e.clone().message(), "Unexpected EOF");
    assert_eq!(parser.depth(), 0);
    assert!(parser.diagnostics().is_empty());
}

#[test]
fn a_single_symbol() {
    assert_eq!(parse(&["x"]), "[[sym:x]]");
}

#[test]
fn a_parameter_list_is_one_child() {
    let mut tokenizer = Tokenizer::new();
    let mut tokens = tokenizer.tokenize("f(a, b)".to_string()).unwrap();
    let mut parser = Parser::new();
    let tree = parser.parse(&mut tokens).unwrap();
    assert_eq!(show(&tree), "[[sym:f [sym:a sym:b]]]");
}

#[test]
fn atoms_are_classified_by_shape() {
    assert_eq!(show(&atom(&"3.14".to_string())), "num:3.14");
    assert_eq!(show(&atom(&"-2".to_string())), "num:-2");
    assert_eq!(show(&atom(&"x1".to_string())), "sym:x1");
    assert_eq!(show(&atom(&"\"3.14\"".to_string())), "str:\"3.14\"");
    assert_eq!(show(&atom(&"\"".to_string())), "str:\"");
    assert_eq!(show(&atom(&"".to_string())), "sym:");
    assert_eq!(show(&atom(&"inf".to_string())), "num:inf");
    assert_eq!(parse(&["3.14", "-2", "x1"]), "[[num:3.14 num:-2 sym:x1]]");
    assert_eq!(parse(&["f", "(", "1", "\"s\"", "y", ")"]), "[[sym:f [num:1 str:\"s\" sym:y]]]");
}

#[test]
fn lines_are_statements() {
    assert_eq!(parse(&["a", "b", END_LINE, "c"]), "[[sym:a sym:b] [sym:c]]");
    assert_eq!(parse(&[END_LINE, END_LINE, "a", END_LINE, END_LINE]), "[[sym:a]]");
    assert_eq!(parse(&[END_LINE]), "[]");
}

#[test]
fn a_line_break_inside_parentheses_is_passed_over() {
    assert_eq!(
        parse(&["f", "(", "a", END_LINE, "b", ")", END_LINE, "g"]),
        "[[sym:f [sym:a sym:b]] [sym:g]]"
    );
}

#[test]
fn parentheses_nest_into_one_list() {
    assert_eq!(parse(&["f", "(", "(", "a", ")", "b", ")"]), "[[sym:f [sym:a sym:b]]]");
    assert_eq!(parse(&["f", "(", ")"]), "[[sym:f []]]");
}

#[test]
fn an_open_parameter_list_joins_the_statement_at_the_end() {
    assert_eq!(parse(&["f", "(", "a", "b"]), "[[sym:f [sym:a sym:b]]]");
    assert_eq!(parse(&["f", "("]), "[[sym:f]]");
}

#[test]
fn a_stray_closing_parenthesis() {
    assert_eq!(parse(&[")", "a"]), "[[sym:a]]");
    assert_eq!(parse(&[")", "(", "a", ")", "b"]), "[[[sym:a sym:b]]]");
}

#[test]
fn a_block_is_one_child_of_its_statement() {
    assert_eq!(
        parse(&["if", "x", "then", "a", END_LINE, "b", "end", "c"]),
        "[[sym:if sym:x [[sym:a] [sym:b]] sym:c]]"
    );
}

#[test]
fn blocks_nest() {
    let mut tokens = words(&["then", "then", "a", "end", "b", "end", "c"]);
    let mut parser = Parser::new();
    let tree = parser.parse(&mut tokens).unwrap();
    assert_eq!(show(&tree), "[[[[[[sym:a]] sym:b]] sym:c]]");
    assert_eq!(parser.depth(), 0);
    assert!(tokens.is_empty());
    assert!(parser.diagnostics().is_empty());
}

#[test]
fn an_unclosed_block_holds_the_rest() {
    let mut tokens = words(&["if", "then", "a", "b", END_LINE, "c"]);
    let mut parser = Parser::new();
    let tree = parser.parse(&mut tokens).unwrap();
    assert_eq!(show(&tree), "[[sym:if [[sym:a sym:b] [sym:c]]]]");
    assert_eq!(parser.depth(), 1);
    assert!(tokens.is_empty());
    assert!(parser.diagnostics().is_empty());
}

#[test]
fn then_as_the_last_token_is_reported_and_passed_over() {
    let mut tokens = words(&["a", "then"]);
    let mut parser = Parser::new();
    let tree = parser.parse(&mut tokens).unwrap();
    assert_eq!(show(&tree), "[[sym:a]]");
    assert_eq!(parser.depth(), 1);
    assert_eq!(parser.diagnostics(), &vec!["Unexpected EOF".to_string()]);

    let mut tokens = words(&["then", "b", "then"]);
    let tree = parser.parse(&mut tokens).unwrap();
    assert_eq!(show(&tree), "[[[[sym:b]]]]");
    assert_eq!(parser.depth(), 2);
    assert_eq!(parser.diagnostics(), &vec!["Unexpected EOF".to_string()]);
}

#[test]
fn end_stops_the_block_it_is_read_in() {
    let mut tokens = words(&["a", "end", "b", "c"]);
    let mut parser = Parser::new();
    let tree = parser.parse(&mut tokens).unwrap();
    assert_eq!(show(&tree), "[[sym:a]]");
    assert_eq!(tokens, words(&["b", "c"]));
    assert_eq!(parser.depth(), -1);

    let tree = parser.parse(&mut tokens).unwrap();
    assert_eq!(show(&tree), "[[sym:b sym:c]]");
    assert!(tokens.is_empty());
    assert_eq!(parser.depth(), 0);
}

#[test]
fn end_leaves_an_open_parameter_list_out() {
    assert_eq!(parse(&["then", "f", "(", "a", "end", "g"]), "[[[[sym:f]] sym:g]]");
    assert_eq!(parse(&["end"]), "[]");
}

#[test]
fn depth_counts_blocks_left_open() {
    let mut tokens = words(&["then", "a", "then", "b", "end"]);
    let mut parser = Parser::new();
    parser.parse(&mut tokens).unwrap();
    assert_eq!(parser.depth(), 1);
}

#[test]
fn each_parse_starts_afresh() {
    let mut parser = Parser::new();
    let mut tokens = words(&["a", "then"]);
    parser.parse(&mut tokens).unwrap();
    let mut tokens = words(&["b"]);
    let tree = parser.parse(&mut tokens).unwrap();
    assert_eq!(show(&tree), "[[sym:b]]");
    assert_eq!(parser.depth(), 0);
    assert!(parser.diagnostics().is_empty());
}

#[test]
fn quoted_keywords_are_strings() {
    assert_eq!(parse(&["\"then\"", "\"end\""]), "[[str:\"then\" str:\"end\"]]");
}
