use doxyparse::lexer::{lex, LexItem};
use doxyparse::parser::{parse, parse_items, GrammarItem, ParamParser, ParseError};

fn cs(s: &str) -> Vec<char> {
    s.chars().collect()
}

fn text(s: &str) -> GrammarItem {
    GrammarItem::Text(cs(s))
}

fn notation(meta: &[&str], params: &[&str], tag: &str) -> GrammarItem {
    GrammarItem::Notation {
        meta: meta.iter().map(|m| cs(m)).collect(),
        params: params.iter().map(|p| cs(p)).collect(),
        tag: cs(tag),
    }
}

fn reconstruct(tokens: &[LexItem]) -> String {
    let mut acc: Vec<char> = Vec::new();
    for t in tokens {
        t.push_to(&mut acc);
    }
    acc.into_iter().collect()
}

#[test]
fn lossless_reconstruction() {
    let inputs = [
        "@name Memory Management",
        "@{\n* @name Memory Management\n@}",
        "@code\nfn main() {}\n@endcode",
        "\\\\escaped  and\ttabbed\n",
        "",
        "plain words only",
    ];
    for input in inputs {
        let tokens = lex(input);
        assert_eq!(reconstruct(&tokens), input);
    }
}

#[test]
fn relex_is_identical() {
    let inputs = [
        "@param[in] x some description",
        "@code{.py}\nraw { text }\n@endcode",
        "  leading   spaces\n\nand newlines",
    ];
    for input in inputs {
        let tokens = lex(input);
        let rebuilt = reconstruct(&tokens);
        assert_eq!(lex(&rebuilt), tokens);
    }
}

#[test]
fn escape_run_merges_into_one_marker() {
    let result = lex("\\\\keyword");
    assert_eq!(result, vec![LexItem::At(cs("\\\\")), LexItem::Word(cs("keyword"))]);
}

#[test]
fn whitespace_runs_collapse_identically() {
    let one = parse("@name Memory").unwrap();
    let many = parse("@name      Memory").unwrap();
    assert_eq!(one, many);
    assert_eq!(one, vec![notation(&[], &[], "name"), text("Memory")]);
}

#[test]
fn param_without_bracket() {
    let result = parse("@param x text").unwrap();
    assert_eq!(
        result,
        vec![notation(&[], &["x"], "param"), text(" text")]
    );
}

#[test]
fn param_both_directions() {
    let result = parse("@param[in,out] x y").unwrap();
    assert_eq!(result, vec![notation(&["in", "out"], &["x"], "param"), text(" y")]);

    let reversed = parse("@param[out,in] x y").unwrap();
    assert_eq!(reversed, result);

    let out_only = parse("@param[out] x y").unwrap();
    assert_eq!(out_only, vec![notation(&["out"], &["x"], "param"), text(" y")]);
}

#[test]
fn param_prefix_words_are_plain_tags() {
    let result = parse("@params x").unwrap();
    assert_eq!(result, vec![notation(&[], &[], "params"), text("x")]);

    let bracketed = parse("@paramX[y] x").unwrap();
    assert_eq!(bracketed, vec![notation(&[], &[], "paramX[y]"), text("x")]);
}

#[test]
fn bracket_body_must_match_exactly() {
    let result = parse("@param[in]x text");
    match result {
        Err(ParseError::UnexpectedInput { found, expected }) => {
            assert_eq!(found, "in]x");
            assert_eq!(expected, vec!["in]".to_string(), "out]".to_string()]);
        }
        other => panic!("expected a direction-annotation error, got {:?}", other),
    }
}

#[test]
fn verbatim_keeps_delimiters() {
    let result = parse("@code\nraw { text }\n@endcode").unwrap();
    assert_eq!(
        result,
        vec![
            notation(&[], &[], "code"),
            text("\nraw { text }\n"),
            notation(&[], &[], "endcode"),
            text(""),
        ]
    );
}

#[test]
fn empty_code_region_yields_empty_text() {
    let result = parse("@code@endcode").unwrap();
    assert_eq!(
        result,
        vec![notation(&[], &[], "code"), notation(&[], &[], "endcode"), text("")]
    );
}

#[test]
fn unbalanced_groups_are_accepted() {
    assert!(parse("@{ never closed").is_ok());
    assert!(parse("closed never @}").is_ok());
    assert!(parse("@} @} @{").is_ok());
    assert!(parse("@endcode without a start").is_ok());
}

#[test]
fn bad_direction_annotation_is_an_error() {
    let result = parse("@param[foo] x text");
    match result {
        Err(ParseError::UnexpectedInput { found, expected }) => {
            assert_eq!(found, "foo]");
            assert_eq!(expected, vec!["in]".to_string(), "out]".to_string()]);
        }
        other => panic!("expected a direction-annotation error, got {:?}", other),
    }
}

#[test]
fn bad_group_delimiter_is_an_error() {
    let tokens = vec![LexItem::At(cs("@")), LexItem::Paren('(')];
    let result = parse_items(tokens);
    match result {
        Err(ParseError::UnexpectedInput { found, expected }) => {
            assert_eq!(found, "(");
            assert_eq!(expected, vec!["{".to_string(), "}".to_string()]);
        }
        other => panic!("expected a group-marker error, got {:?}", other),
    }
}

#[test]
fn code_argument_requires_immediate_braces() {
    let spaced = parse("@code {.py}\n@endcode").unwrap();
    assert_eq!(
        spaced,
        vec![
            notation(&[], &[], "code"),
            text(" {.py}\n"),
            notation(&[], &[], "endcode"),
            text(""),
        ]
    );
}

#[test]
fn strategy_table() {
    assert_eq!(ParamParser::ParenArg, doxyparse::parser::param_parser_of(&cs("code")));
    assert_eq!(ParamParser::WhitespaceArg, doxyparse::parser::param_parser_of(&cs("param")));
    assert_eq!(ParamParser::WhitespaceArg, doxyparse::parser::param_parser_of(&cs("see")));
    assert_eq!(ParamParser::WhitespaceArg, doxyparse::parser::param_parser_of(&cs("param[out]")));
    assert_eq!(ParamParser::NoArg, doxyparse::parser::param_parser_of(&cs("params")));
    assert_eq!(ParamParser::NoArg, doxyparse::parser::param_parser_of(&cs("name")));
    assert_eq!(ParamParser::NoArg, doxyparse::parser::param_parser_of(&cs("endcode")));
}
