use lib::{parse, tokenise, Num, Oexp, RomeError};

fn toks(s: &str) -> Vec<String> {
    tokenise(s.to_string())
}

fn strs(v: &[&str]) -> Vec<String> {
    v.iter().map(|s| s.to_string()).collect()
}

fn reader_message(e: RomeError) -> String {
    match e {
        RomeError::ReaderError(m) => m,
        other => panic!("expected a reader error, got {:?}", other),
    }
}

fn describe(e: &Oexp) -> String {
    match e {
        Oexp::Boolean(b) => format!("B{}", b),
        Oexp::Symbol(s) => format!("S{}", s),
        Oexp::Number(Num::Lit(s)) => format!("N{}", s),
        Oexp::Number(_) => "N?".to_string(),
        Oexp::List(l) => {
            let xs: Vec<String> = l.iter().map(describe).collect();
            format!("[{}]", xs.join(" "))
        }
        Oexp::Function(_) => "F".to_string(),
        Oexp::FunctionDef(_) => "D".to_string(),
    }
}

#[test]
fn tokenise_wraps_and_splits() {
    assert_eq!(toks("1 2 +"), strs(&["(", "1", "2", "+", ")"]));
}

#[test]
fn tokenise_sets_parentheses_apart() {
    assert_eq!(
        toks("(a(b c))d"),
        strs(&["(", "(", "a", "(", "b", "c", ")", ")", "d", ")"])
    );
}

#[test]
fn tokenise_empty_program() {
    assert_eq!(toks(""), strs(&["(", ")"]));
}

#[test]
fn tokenise_any_white_space() {
    assert_eq!(
        toks("  x\t=\n5\u{a0}. "),
        strs(&["(", "x", "=", "5", ".", ")"])
    );
}

#[test]
fn parse_reads_one_list() {
    let t = toks("1 2 +");
    let (e, rest) = parse(&t).unwrap();
    assert_eq!(describe(&e), "[N1 N2 S+]");
    assert!(rest.is_empty());
}

#[test]
fn parse_gives_back_the_rest() {
    let t = strs(&["a", "b", "c"]);
    let (e, rest) = parse(&t).unwrap();
    assert_eq!(describe(&e), "Sa");
    assert_eq!(rest, &t[1..]);
}

#[test]
fn parse_nested_lists() {
    let t = toks("(1 (2 3)) true false");
    let (e, _) = parse(&t).unwrap();
    assert_eq!(describe(&e), "[[N1 [N2 N3]] Btrue Bfalse]");
}

#[test]
fn parse_atoms_numbers_and_symbols() {
    let t = toks("1.5 -2 +.5 1e5 2E-3 inf -Infinity NaN 1e . e5 1_0 abc 0x10 1.2.3");
    let (e, _) = parse(&t).unwrap();
    assert_eq!(
        describe(&e),
        "[N1.5 N-2 N+.5 N1e5 N2E-3 Ninf N-Infinity NNaN S1e S. Se5 S1_0 Sabc S0x10 S1.2.3]"
    );
}

#[test]
fn parse_atoms_agree_with_f64_parsing() {
    for s in [
        "1", "1.", ".1", ".", "+", "-", "e", "1e", "1e+", "1e+2", "+1E-2", "inf", "INF", "infinit",
        "infinity", "nan", "-nan", "+", "++1", "1..2", "12abc", "007", "٣",
    ] {
        let t = strs(&[s]);
        let (e, _) = parse(&t).unwrap();
        let is_number = matches!(e, Oexp::Number(_));
        assert_eq!(is_number, s.parse::<f64>().is_ok(), "token {}", s);
    }
}

#[test]
fn parse_error_no_tokens() {
    let t: Vec<String> = Vec::new();
    assert_eq!(reader_message(parse(&t).unwrap_err()), "Could not parse token");
}

#[test]
fn parse_error_closing_parenthesis() {
    let t = strs(&[")"]);
    assert_eq!(
        reader_message(parse(&t).unwrap_err()),
        "unexpectedly encountered a closing parens"
    );
}

#[test]
fn parse_error_unclosed_list() {
    let t = strs(&["(", "1", "(", "2", ")"]);
    assert_eq!(
        reader_message(parse(&t).unwrap_err()),
        "could not find closing parens"
    );
}

#[test]
fn tokens_keep_every_non_white_character() {
    let input = " (a  b)\tc(d) ";
    let joined: String = toks(input).concat();
    let expected: String = format!("({})", input.chars().filter(|c| !c.is_whitespace()).collect::<String>());
    assert_eq!(joined, expected);
}

#[test]
fn tokens_of_a_space_joined_program() {
    let a = "x = (1 2 +) .";
    let b = "(y) z";
    let ta = toks(a);
    let tb = toks(b);
    let joined = [&ta[..ta.len() - 1], &tb[1..]].concat();
    assert_eq!(toks(&format!("{} {}", a, b)), joined);
}

#[test]
fn tokens_do_not_depend_on_the_white_space() {
    assert_eq!(toks("a b"), toks("a \t\n b"));
    assert_eq!(toks("(a)b"), toks(" ( a ) b"));
    assert_eq!(toks("a(b"), toks("a (b"));
    assert_eq!(toks("a)b"), toks("a) b"));
}

#[test]
fn unbalanced_program_is_a_reader_error() {
    let t = toks("(1 2 +");
    assert_eq!(reader_message(parse(&t).unwrap_err()), "could not find closing parens");
}

#[test]
fn balanced_program_leaves_no_tokens() {
    let t = toks("(a (b)) c ((d))");
    let (e, rest) = parse(&t).unwrap();
    assert_eq!(describe(&e), "[[Sa [Sb]] Sc [[Sd]]]");
    assert!(rest.is_empty());
}

#[test]
fn tokens_are_a_parenthesis_or_hold_none() {
    for program in ["a(b)c", "((x))", "f(g)h)(", "1.5e3)\t(x\u{2003}y", ""] {
        let t = toks(program);
        assert!(t.len() >= 2);
        assert_eq!(t[0], "(");
        assert_eq!(t[t.len() - 1], ")");
        for tok in &t {
            assert!(
                tok == "(" || tok == ")" || (!tok.contains('(') && !tok.contains(')')),
                "token {:?} of {:?}",
                tok,
                program
            );
        }
    }
}

#[test]
fn balanced_text_reads_as_one_list() {
    let t = toks("x(y(z)w)(v)");
    let (e, rest) = parse(&t).unwrap();
    assert_eq!(describe(&e), "[Sx [Sy [Sz] Sw] [Sv]]");
    assert!(rest.is_empty());
}

#[test]
fn more_opening_than_closing_text_is_a_reader_error() {
    let t = toks("x(y(z)w");
    assert_eq!(reader_message(parse(&t).unwrap_err()), "could not find closing parens");
}
