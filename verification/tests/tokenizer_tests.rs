use potato::tokenizer::{Tokenizer, END_LINE};

fn lex(text: &str) -> Result<Vec<String>, String> {
    let mut tokenizer = Tokenizer::new();
    match tokenizer.tokenize(text.to_string()) {
        Ok(tokens) => Ok(tokens),
        Err(e) => Err(e.message()),
    }
}

#[test]
fn test_print_hello() {
    let input = r#"print("hello")"#.to_string();

    let mut tokenizer = Tokenizer::new();

    assert_eq!(
        tokenizer.tokenize(input).unwrap(),
        vec!["print", "(", "\"hello\"", ")"]
    )
}

#[test]
fn empty_text_has_no_tokens() {
    assert_eq!(lex("").unwrap(), Vec::<String>::new());
}

#[test]
fn separators_are_not_tokens() {
    assert_eq!(lex("f(a, b)").unwrap(), vec!["f", "(", "a", "b", ")"]);
    assert_eq!(lex(" a\tb,,c  ").unwrap(), vec!["a", "b", "c"]);
}

#[test]
fn line_breaks_give_the_sentinel() {
    assert_eq!(END_LINE, "\n");
    assert_eq!(lex("a\nb").unwrap(), vec!["a", END_LINE, "b"]);
    assert_eq!(lex("a\r\n").unwrap(), vec!["a", END_LINE, END_LINE]);
    assert_eq!(
        lex("\nprint(\"hello\")\ndef x = 0\n").unwrap(),
        vec![END_LINE, "print", "(", "\"hello\"", ")", END_LINE, "def", "x", "=", "0", END_LINE]
    );
}

#[test]
fn no_sentinel_without_a_line_break() {
    let tokens = lex("alpha (beta) \"ga mma\" [d] {e}; f").unwrap();
    assert!(tokens.iter().all(|t| t != END_LINE));
}

#[test]
fn every_bracket_is_its_own_token() {
    assert_eq!(lex("a[b]{c}").unwrap(), vec!["a", "[", "b", "]", "{", "c", "}"]);
    assert_eq!(lex("(())").unwrap(), vec!["(", "(", ")", ")"]);
}

#[test]
fn a_quoted_run_keeps_what_it_holds() {
    assert_eq!(lex("\"a (b, c]\"").unwrap(), vec!["\"a (b, c]\""]);
    assert_eq!(lex("\"two\nlines\"").unwrap(), vec!["\"two\nlines\""]);
    assert_eq!(lex("x\"y\"z").unwrap(), vec!["x", "\"y\"", "z"]);
    assert_eq!(lex("\"\"").unwrap(), vec!["\"\""]);
}

#[test]
fn an_escaped_quote_stays_inside() {
    assert_eq!(lex(r#""say \"hi\"""#).unwrap(), vec!["\"say \"hi\"\""]);
}

#[test]
fn the_escape_lasts_one_character() {
    assert_eq!(lex(r#""a\nb" c"#).unwrap(), vec!["\"anb\"", "c"]);
    assert_eq!(lex(r#""a\\" b"#).unwrap(), vec!["\"a\" b"]);
}

#[test]
fn an_open_quoted_run_ends_with_the_text() {
    assert_eq!(lex("a \"bc").unwrap(), vec!["a", "\"bc"]);
}

#[test]
fn a_semicolon_only_separates() {
    assert_eq!(lex("a;b").unwrap(), vec!["a", "b"]);
    assert_eq!(lex("a ; b c\nd").unwrap(), vec!["a", "b", "c", END_LINE, "d"]);
    assert_eq!(lex("(;").unwrap_err(), "Mismatched parens");
}

#[test]
fn the_first_imbalance_is_reported() {
    assert_eq!(lex("(").unwrap_err(), "Mismatched parens");
    assert_eq!(lex("a)").unwrap_err(), "Mismatched parens");
    assert_eq!(lex("[").unwrap_err(), "Mismatched square brackets");
    assert_eq!(lex("}").unwrap_err(), "Mismatched curly brackets");
    assert_eq!(lex("{[(").unwrap_err(), "Mismatched parens");
    assert_eq!(lex("{[").unwrap_err(), "Mismatched square brackets");
    assert_eq!(lex("(]").unwrap_err(), "Mismatched parens");
}

#[test]
fn balance_is_checked_at_the_end_only() {
    assert_eq!(lex(")(").unwrap(), vec![")", "("]);
    assert_eq!(lex("(]").unwrap_err(), "Mismatched parens");
    assert_eq!(lex("([)]").unwrap(), vec!["(", "[", ")", "]"]);
}

#[test]
fn brackets_in_quotes_do_not_count() {
    assert_eq!(lex("\"(\"").unwrap(), vec!["\"(\""]);
    assert_eq!(lex("(\")\"").unwrap_err(), "Mismatched parens");
}

#[test]
fn each_scan_starts_afresh() {
    let mut tokenizer = Tokenizer::new();
    assert!(tokenizer.tokenize("(a".to_string()).is_err());
    assert_eq!(tokenizer.tokenize("b c".to_string()).unwrap(), vec!["b", "c"]);
    assert_eq!(tokenizer.tokenize("d".to_string()).unwrap(), vec!["d"]);
}

#[test]
fn the_error_can_be_copied() {
    let mut tokenizer = Tokenizer::new();
    let e = tokenizer.tokenize("[".to_string()).unwrap_err();
    assert_eq!(e.clone().message(), "Mismatched square brackets");
}

#[test]
fn other_alphabets_are_symbols() {
    assert_eq!(lex("größe(π)").unwrap(), vec!["größe", "(", "π", ")"]);
}

#[test]
fn a_quoted_text_comes_back_as_it_was() {
    for text in ["", "plain", "say \"hi\"", "\"\"", "a (b] {c", "two\nlines; x, y"] {
        let mut source = String::from("\"");
        for c in text.chars() {
            if c == '"' {
                source.push('\\');
            }
            source.push(c);
        }
        source.push('"');
        assert_eq!(lex(&source).unwrap(), vec![format!("\"{}\"", text)]);
    }
}

#[test]
fn every_token_has_one_of_four_shapes() {
    let tokens = lex("f(a, \"b c\")\n[x1] {-2.5}; g \"open").unwrap();
    assert_eq!(
        tokens,
        vec!["f", "(", "a", "\"b c\"", ")", END_LINE, "[", "x1", "]", "{", "-2.5", "}", "g", "\"open"]
    );
    for t in tokens {
        let first = t.chars().next().unwrap();
        let symbol = t.chars().all(|c| !"\"()[]{} \t,\r\n;".contains(c));
        assert!(t == END_LINE || (t.len() == 1 && "()[]{}".contains(first)) || first == '"' || symbol);
        assert_eq!(t == END_LINE, first == '\n');
    }
}

#[test]
fn without_quotes_balance_is_a_matter_of_counting() {
    for text in ["", "()", ")(", "(()", "[(])", "{a}[b](c)", "a]", "((]]"] {
        let count = |c: char| text.chars().filter(|x| *x == c).count();
        let even = count('(') == count(')') && count('[') == count(']') && count('{') == count('}');
        assert_eq!(lex(text).is_ok(), even, "{}", text);
    }
}
