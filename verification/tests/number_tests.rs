use potato::number::is_float;

#[test]
fn numbers_of_the_grammar() {
    for text in [
        "0", "7", "42", "3.14", "-2", "+2", ".5", "5.", "-.5", "+5.", "1e5", "1E5", "1e+5", "1e-5",
        "1.5e10", ".5e1", "5.e1", "-1.25E-3", "007", "1e0005", "inf", "INF", "Inf", "-inf",
        "+infinity", "Infinity", "INFINITY", "nan", "NaN", "-nan", "+NAN",
        "123456789012345678901234567890", "1e99999",
    ] {
        assert!(is_float(text), "{}", text);
    }
}

#[test]
fn texts_outside_the_grammar() {
    for text in [
        "", "+", "-", ".", "+.", "e", "e5", "1e", "1e+", "1e-", "1.e", ".e1", "x1", "1x", "1.2.3",
        "1..2", "--1", "+-1", " 1", "1 ", "1_000", "0x10", "1f32", "in", "infi", "infinit",
        "infinityy", "na", "nann", "++inf", "1e5e5", "1e5.5", "1e.5", "one", "٣", "π", "i\u{131}f",
        "ınf", "1,5", "\"1\"",
    ] {
        assert!(!is_float(text), "{}", text);
    }
}

#[test]
fn agrees_with_the_standard_parse() {
    let alphabet = ['0', '7', '.', 'e', 'E', '+', '-', 'i', 'n', 'f', 'a', 'N', 'x'];
    let mut texts: Vec<String> = vec![String::new()];
    let mut from = 0;
    for _ in 0..4 {
        let upto = texts.len();
        for at in from..upto {
            for c in alphabet {
                let mut longer = texts[at].clone();
                longer.push(c);
                texts.push(longer);
            }
        }
        from = upto;
    }
    for text in texts {
        assert_eq!(is_float(&text), text.parse::<f32>().is_ok(), "{}", text);
    }
    for text in ["infinity", "INFINITY", "-Infinity", "infinitx", "+nan", "1e+07", "12.5e-3x"] {
        assert_eq!(is_float(text), text.parse::<f32>().is_ok(), "{}", text);
    }
}
