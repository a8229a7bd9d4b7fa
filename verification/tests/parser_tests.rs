use doxyparse::parser::{parse, GrammarItem};

fn cs(s: &str) -> Vec<char> {
    s.chars().collect()
}

fn text(s: &str) -> GrammarItem {
    GrammarItem::Text(cs(s))
}

fn notation(meta: &[&str], params: &[&str], tag: &str) -> GrammarItem {
    GrammarItem::Notation {
        meta: meta.iter().map(|m| cs(m)).collect(),
        params: params.iter().map(|p| cs(p)).collect(),
        tag: cs(tag),
    }
}

#[test]
pub fn simple_notation() {
    let result = parse("@name Memory Management").unwrap();
    assert_eq!(
        result,
        vec![notation(&[], &[], "name"), text("Memory Management")]
    );
}

#[test]
pub fn paren_in_notation() {
    let result = parse("@note hoge_t = {a, b, c}").unwrap();
    assert_eq!(
        result,
        vec![notation(&[], &[], "note"), text("hoge_t = {a, b, c}")]
    );
}

#[test]
pub fn param() {
    let result = parse("@param[in] random This is, without a doubt, a random argument.").unwrap();
    assert_eq!(
        result,
        vec![
            notation(&["in"], &["random"], "param"),
            text(" This is, without a doubt, a random argument."),
        ]
    );
}

#[test]
pub fn param_tabs() {
    let result =
        parse("@param[in]\trandom\t\t\tThis is, without a doubt, a random argument.").unwrap();
    assert_eq!(
        result,
        vec![
            notation(&["in"], &["random"], "param"),
            text(" This is, without a doubt, a random argument."),
        ]
    );
}

#[test]
pub fn groups() {
    let result = parse("@{\n* @name Memory Management\n@}").unwrap();
    assert_eq!(
        result,
        vec![
            GrammarItem::GroupStart,
            text("* "),
            notation(&[], &[], "name"),
            text("Memory Management\n"),
            GrammarItem::GroupEnd,
        ]
    );
}

#[test]
pub fn trims_param_texts() {
    let result = parse(
        "@param[in]           var                                         Example description",
    )
    .unwrap();
    assert_eq!(
        result,
        vec![
            notation(&["in"], &["var"], "param"),
            text(" Example description"),
        ]
    )
}

#[test]
pub fn code() {
    let result = parse("@code\nfn main() {}\n@endcode").unwrap();

    assert_eq!(
        result,
        vec![
            notation(&[], &[], "code"),
            text("\nfn main() {}\n"),
            notation(&[], &[], "endcode"),
            text(""),
        ]
    )
}

#[test]
pub fn code_with_param() {
    let result = parse("@code{.py}\nfn main() {}\n@endcode").unwrap();

    assert_eq!(
        result,
        vec![
            notation(&[], &[".py"], "code"),
            text("\nfn main() {}\n"),
            notation(&[], &[], "endcode"),
            text(""),
        ]
    )
}

#[test]
pub fn code_with_args() {
    let result = parse("@code\nfn main() {}\n@endcode\n\n@param[in] a - a").unwrap();

    assert_eq!(
        result,
        vec![
            notation(&[], &[], "code"),
            text("\nfn main() {}\n"),
            notation(&[], &[], "endcode"),
            text("\n\n"),
            notation(&["in"], &["a"], "param"),
            text(" - a"),
        ]
    )
}
