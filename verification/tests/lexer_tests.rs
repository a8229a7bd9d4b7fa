use doxyparse::lexer::{lex, LexItem};

fn cs(s: &str) -> Vec<char> {
    s.chars().collect()
}

#[test]
fn basic_notation() {
    let result = lex("@name Memory Management");
    assert_eq!(
        result,
        vec![
            LexItem::At(cs("@")),
            LexItem::Word(cs("name")),
            LexItem::Whitespace(cs(" ")),
            LexItem::Word(cs("Memory")),
            LexItem::Whitespace(cs(" ")),
            LexItem::Word(cs("Management")),
        ]
    );

    let result = lex("\\name Memory Management");
    assert_eq!(
        result,
        vec![
            LexItem::At(cs("\\")),
            LexItem::Word(cs("name")),
            LexItem::Whitespace(cs(" ")),
            LexItem::Word(cs("Memory")),
            LexItem::Whitespace(cs(" ")),
            LexItem::Word(cs("Management")),
        ]
    );

    let result = lex("\\\\name Memory Management");
    assert_eq!(
        result,
        vec![
            LexItem::At(cs("\\\\")),
            LexItem::Word(cs("name")),
            LexItem::Whitespace(cs(" ")),
            LexItem::Word(cs("Memory")),
            LexItem::Whitespace(cs(" ")),
            LexItem::Word(cs("Management")),
        ]
    );
}

#[test]
fn basic_groups() {
    let result = lex("@{\n* @name Memory Management\n@}");
    assert_eq!(
        result,
        vec![
            LexItem::At(cs("@")),
            LexItem::Paren('{'),
            LexItem::NewLine,
            LexItem::Word(cs("*")),
            LexItem::Whitespace(cs(" ")),
            LexItem::At(cs("@")),
            LexItem::Word(cs("name")),
            LexItem::Whitespace(cs(" ")),
            LexItem::Word(cs("Memory")),
            LexItem::Whitespace(cs(" ")),
            LexItem::Word(cs("Management")),
            LexItem::NewLine,
            LexItem::At(cs("@")),
            LexItem::Paren('}'),
        ]
    );
}
