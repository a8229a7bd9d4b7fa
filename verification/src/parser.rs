//! Parsing: a single forward scan over the lexer's token stream that
//! emits grammar items. The scan carries a skip count for tokens already
//! consumed as a notation's argument, and detects verbatim-code mode by
//! inspecting the tail of the items built so far.

use crate::lexer::{group_parens_only, lex, lex_spec, token_views, LexItem, LexItemView};
use vstd::prelude::*;

verus! {

/// Mathematical model of a parse error.
pub enum ParseErrorView {
    UnexpectedEndOfInput,
    UnexpectedInput { found: Seq<char>, expected: Seq<Seq<char>> },
}

/// A parse error. `UnexpectedEndOfInput` is reserved for forward
/// compatibility; `UnexpectedInput` carries the offending literal and the
/// literals that would have been acceptable at that point.
#[derive(Debug, Clone, PartialEq, Eq)]
pub enum ParseError {
    UnexpectedEndOfInput,
    UnexpectedInput { found: String, expected: Vec<String> },
}

impl View for ParseError {
    type V = ParseErrorView;

    open spec fn view(&self) -> ParseErrorView {
        match self {
            ParseError::UnexpectedEndOfInput => ParseErrorView::UnexpectedEndOfInput,
            ParseError::UnexpectedInput { found, expected } => ParseErrorView::UnexpectedInput {
                found: found@,
                expected: expected@.map_values(|s: String| s@),
            },
        }
    }
}

/// Mathematical model of a grammar item.
pub enum GrammarItemView {
    Notation { meta: Seq<Seq<char>>, params: Seq<Seq<char>>, tag: Seq<char> },
    Text(Seq<char>),
    GroupStart,
    GroupEnd,
}

/// A grammar item, the parser's output unit.
///
/// `Notation` is a recognized annotation: `meta` holds its direction
/// flags, `params` its zero-or-one extracted argument word, and `tag` its
/// keyword. `Text` is an accumulated run of literal content. `GroupStart`
/// and `GroupEnd` mark the explicit grouping construct.
#[derive(Debug, Clone, PartialEq, Eq)]
pub enum GrammarItem {
    Notation { meta: Vec<Vec<char>>, params: Vec<Vec<char>>, tag: Vec<char> },
    Text(Vec<char>),
    GroupStart,
    GroupEnd,
}

/// The models of a list of words.
pub open spec fn word_views(ws: Seq<Vec<char>>) -> Seq<Seq<char>> {
    ws.map_values(|w: Vec<char>| w@)
}

impl View for GrammarItem {
    type V = GrammarItemView;

    open spec fn view(&self) -> GrammarItemView {
        match self {
            GrammarItem::Notation { meta, params, tag } => GrammarItemView::Notation {
                meta: word_views(meta@),
                params: word_views(params@),
                tag: tag@,
            },
            GrammarItem::Text(t) => GrammarItemView::Text(t@),
            GrammarItem::GroupStart => GrammarItemView::GroupStart,
            GrammarItem::GroupEnd => GrammarItemView::GroupEnd,
        }
    }
}

/// The models of a sequence of grammar items.
pub open spec fn item_views(items: Seq<GrammarItem>) -> Seq<GrammarItemView> {
    items.map_values(|g: GrammarItem| g@)
}

/// How a notation finds its argument, keyed off the notation's keyword.
#[derive(Debug, Clone, Copy, PartialEq, Eq)]
pub enum ParamParser {
    NoArg,
    WhitespaceArg,
    ParenArg,
}

/// The verbatim-code keyword.
pub open spec fn code_tag() -> Seq<char> {
    "code"@
}

/// The keyword that ends a verbatim-code region.
pub open spec fn endcode_tag() -> Seq<char> {
    "endcode"@
}

/// The parameter keyword: exactly `param`, or `param` immediately
/// followed by a bracketed direction annotation. Any other word, even one
/// beginning with `param`, is an unrecognized tag kept as literal text.
pub open spec fn is_param_keyword(w: Seq<char>) -> bool {
    ||| w == "param"@
    ||| (w.len() > "param"@.len() && w.subrange(0, "param"@.len() as int) == "param"@
        && w["param"@.len() as int] == '[')
}

/// The fixed set of keywords whose single argument is found by skipping
/// whitespace after the keyword.
pub open spec fn whitespace_arg_tag(w: Seq<char>) -> bool {
    ||| w == "a"@
    ||| w == "b"@
    ||| w == "c"@
    ||| w == "p"@
    ||| w == "emoji"@
    ||| w == "e"@
    ||| w == "em"@
    ||| w == "def"@
    ||| w == "class"@
    ||| w == "category"@
    ||| w == "concept"@
    ||| w == "enum"@
    ||| w == "example"@
    ||| w == "extends"@
    ||| w == "file"@
    ||| w == "sa"@
    ||| w == "see"@
    ||| w == "retval"@
    ||| w == "exception"@
    ||| w == "throw"@
    ||| w == "throws"@
}

/// The argument-extraction strategy for a notation keyword.
pub open spec fn strategy_of(w: Seq<char>) -> ParamParser {
    if is_param_keyword(w) {
        ParamParser::WhitespaceArg
    } else if whitespace_arg_tag(w) {
        ParamParser::WhitespaceArg
    } else if w == code_tag() {
        ParamParser::ParenArg
    } else {
        ParamParser::NoArg
    }
}

/// Index of the first occurrence of `c` in `w` at or after `i`.
pub open spec fn find_char(w: Seq<char>, c: char, i: int) -> Option<int>
    decreases w.len() - i,
{
    if i < 0 || i >= w.len() {
        None
    } else if w[i] == c {
        Some(i)
    } else {
        find_char(w, c, i + 1)
    }
}

/// The literals a direction annotation may end with.
pub open spec fn direction_expected() -> Seq<Seq<char>> {
    seq!["in]"@, "out]"@]
}

/// The delimiters a group marker may use.
pub open spec fn group_expected() -> Seq<Seq<char>> {
    seq!["{"@, "}"@]
}

/// The direction flags of a parameter keyword, read from its bracketed
/// suffix; an unrecognized bracket body is a hard error.
pub open spec fn bracket_meta(v: Seq<char>) -> Result<Seq<Seq<char>>, ParseErrorView> {
    match find_char(v, '[', 0) {
        Option::None => Result::Ok(Seq::empty()),
        Option::Some(k) => {
            let after = v.subrange(k + 1, v.len() as int);
            if after == "in]"@ {
                Result::Ok(seq!["in"@])
            } else if after == "out]"@ {
                Result::Ok(seq!["out"@])
            } else if after == "in,out]"@ || after == "out,in]"@ {
                Result::Ok(seq!["in"@, "out"@])
            } else {
                Result::Err(
                    ParseErrorView::UnexpectedInput { found: after, expected: direction_expected() },
                )
            }
        },
    }
}

/// Index of the first token at or after `j` that is not whitespace;
/// the token count when every remaining token is whitespace.
pub open spec fn find_non_ws(toks: Seq<LexItemView>, j: int) -> int
    decreases toks.len() - j,
{
    if j < 0 || j >= toks.len() {
        toks.len() as int
    } else if toks[j] is Whitespace {
        find_non_ws(toks, j + 1)
    } else {
        j
    }
}

/// The argument of a notation whose keyword token stands at `i + 1`,
/// together with how many upcoming tokens its extraction consumed.
pub open spec fn find_arg(toks: Seq<LexItemView>, i: int, strat: ParamParser) -> Option<
    (int, Seq<char>),
> {
    match strat {
        ParamParser::NoArg => Option::None,
        ParamParser::WhitespaceArg => {
            let j = find_non_ws(toks, i + 2);
            if j < toks.len() && toks[j] is Word {
                Option::Some((j - i, toks[j]->Word_0))
            } else {
                Option::None
            }
        },
        ParamParser::ParenArg => {
            if i + 4 < toks.len() && toks[i + 2] == LexItemView::Paren('{') && toks[i + 3] is Word
                && toks[i + 4] == LexItemView::Paren('}') {
                Option::Some((4, toks[i + 3]->Word_0))
            } else {
                Option::None
            }
        },
    }
}

/// The items and skip count after a notation with the given meta and tag
/// is emitted: its argument (if any) becomes its single parameter, the
/// end-of-code keyword is followed by an empty text item, and the skip
/// count covers the keyword token and any argument tokens.
pub open spec fn notation_items(
    toks: Seq<LexItemView>,
    i: int,
    items: Seq<GrammarItemView>,
    meta: Seq<Seq<char>>,
    tag: Seq<char>,
    strat: ParamParser,
) -> (Seq<GrammarItemView>, int) {
    let arg = find_arg(toks, i, strat);
    let params = match arg {
        Option::Some((sk, w)) => seq![w],
        Option::None => Seq::<Seq<char>>::empty(),
    };
    let skip = match arg {
        Option::Some((sk, w)) => sk,
        Option::None => 1,
    };
    let with_notation = items.push(GrammarItemView::Notation { meta, params, tag });
    let new_items = if tag == endcode_tag() {
        with_notation.push(GrammarItemView::Text(Seq::empty()))
    } else {
        with_notation
    };
    (new_items, skip)
}

/// The items and skip count, or the error, produced when a marker token
/// is followed by the keyword word `v`.
pub open spec fn notation_step(
    toks: Seq<LexItemView>,
    i: int,
    items: Seq<GrammarItemView>,
    v: Seq<char>,
) -> Result<(Seq<GrammarItemView>, int), ParseErrorView> {
    let meta_r = if is_param_keyword(v) {
        bracket_meta(v)
    } else {
        Result::Ok(Seq::empty())
    };
    let tag = if is_param_keyword(v) {
        "param"@
    } else {
        v
    };
    match meta_r {
        Result::Ok(meta) => Result::Ok(notation_items(toks, i, items, meta, tag, strategy_of(v))),
        Result::Err(e) => Result::Err(e),
    }
}

/// Token `i` is a marker followed by the end-of-code keyword.
pub open spec fn at_endcode(toks: Seq<LexItemView>, i: int) -> bool {
    &&& toks[i] is At
    &&& i + 1 < toks.len()
    &&& toks[i + 1] matches LexItemView::Word(v) && v == endcode_tag()
}

/// The tail of the item list is an open code notation with no text item
/// after it yet.
pub open spec fn tail_open_code(items: Seq<GrammarItemView>) -> bool {
    &&& items.len() >= 1
    &&& items.last() matches GrammarItemView::Notation { tag, .. } && tag == code_tag()
}

/// The tail of the item list is a code notation followed by the text item
/// accumulating the verbatim region.
pub open spec fn tail_code_text(items: Seq<GrammarItemView>) -> bool {
    &&& items.len() >= 2
    &&& items[items.len() - 2] matches GrammarItemView::Notation { tag, .. } && tag == code_tag()
    &&& items.last() is Text
}

/// The parser's scan from token `i` onward, with `items` already emitted
/// and `skip` upcoming tokens still to ignore.
pub open spec fn parse_loop(
    toks: Seq<LexItemView>,
    i: int,
    items: Seq<GrammarItemView>,
    skip: int,
) -> Result<Seq<GrammarItemView>, ParseErrorView>
    decreases toks.len() - i,
{
    if i < 0 || i >= toks.len() {
        Result::Ok(items)
    } else if skip > 0 {
        parse_loop(toks, i + 1, items, skip - 1)
    } else {
        let cur = toks[i];
        let ends_code = at_endcode(toks, i);
        if !ends_code && tail_open_code(items) {
            parse_loop(toks, i + 1, items.push(GrammarItemView::Text(cur.text())), 0)
        } else if !ends_code && tail_code_text(items) {
            parse_loop(
                toks,
                i + 1,
                items.drop_last().push(GrammarItemView::Text(items.last()->Text_0 + cur.text())),
                0,
            )
        } else {
            match cur {
                LexItemView::At(_) => {
                    if i + 1 < toks.len() {
                        match toks[i + 1] {
                            LexItemView::Paren(v) => {
                                if v == '{' {
                                    parse_loop(toks, i + 1, items.push(GrammarItemView::GroupStart), 0)
                                } else if v == '}' {
                                    parse_loop(toks, i + 1, items.push(GrammarItemView::GroupEnd), 0)
                                } else {
                                    Result::Err(
                                        ParseErrorView::UnexpectedInput {
                                            found: seq![v],
                                            expected: group_expected(),
                                        },
                                    )
                                }
                            },
                            LexItemView::Word(v) => {
                                match notation_step(toks, i, items, v) {
                                    Result::Ok((items2, skip2)) => parse_loop(toks, i + 1, items2, skip2),
                                    Result::Err(e) => Result::Err(e),
                                }
                            },
                            _ => parse_loop(toks, i + 1, items, 0),
                        }
                    } else {
                        parse_loop(toks, i + 1, items, 0)
                    }
                },
                LexItemView::Word(v) => {
                    if items.len() > 0 && items.last() is Text {
                        parse_loop(
                            toks,
                            i + 1,
                            items.drop_last().push(GrammarItemView::Text(items.last()->Text_0 + v)),
                            0,
                        )
                    } else {
                        parse_loop(toks, i + 1, items.push(GrammarItemView::Text(v)), 0)
                    }
                },
                LexItemView::Whitespace(_) => {
                    if items.len() > 0 && items.last() is Text {
                        parse_loop(
                            toks,
                            i + 1,
                            items.drop_last().push(
                                GrammarItemView::Text(items.last()->Text_0.push(' ')),
                            ),
                            0,
                        )
                    } else if items.len() > 0 && (items.last() matches GrammarItemView::Notation {
                        params,
                        ..
                    } && params.len() > 0) {
                        parse_loop(toks, i + 1, items.push(GrammarItemView::Text(seq![' '])), 0)
                    } else if items.len() == 0 {
                        parse_loop(toks, i + 1, items.push(GrammarItemView::Text(seq![' '])), 0)
                    } else {
                        parse_loop(toks, i + 1, items.push(GrammarItemView::Text(Seq::empty())), 0)
                    }
                },
                LexItemView::NewLine => {
                    if items.len() > 0 && items.last() is Text {
                        parse_loop(
                            toks,
                            i + 1,
                            items.drop_last().push(
                                GrammarItemView::Text(items.last()->Text_0.push('\n')),
                            ),
                            0,
                        )
                    } else {
                        parse_loop(toks, i + 1, items, 0)
                    }
                },
                LexItemView::Paren(v) => {
                    if items.len() > 0 && items.last() is Text {
                        parse_loop(
                            toks,
                            i + 1,
                            items.drop_last().push(
                                GrammarItemView::Text(items.last()->Text_0.push(v)),
                            ),
                            0,
                        )
                    } else {
                        parse_loop(toks, i + 1, items, 0)
                    }
                },
            }
        }
    }
}

/// The item sequence, or the error, for a whole token stream.
pub open spec fn parse_items_spec(toks: Seq<LexItemView>) -> Result<
    Seq<GrammarItemView>,
    ParseErrorView,
> {
    parse_loop(toks, 0, Seq::empty(), 0)
}

/// The item sequence, or the error, for a raw input text.
pub open spec fn parse_spec(s: Seq<char>) -> Result<Seq<GrammarItemView>, ParseErrorView> {
    parse_items_spec(lex_spec(s))
}

/// Relies on `String`'s `FromIterator<char>` implementation: collecting
/// characters yields the string of exactly those characters, in order.
#[verifier::external_body]
fn chars_to_string(v: &Vec<char>) -> (r: String)
    ensures
        r@ == v@,
{
    v.iter().collect()
}

/// The characters of `s`, as a vector.
fn word_of(s: &str) -> (r: Vec<char>)
    ensures
        r@ == s@,
{
    let n = s.unicode_len();
    let mut r: Vec<char> = Vec::new();
    let mut i: usize = 0;
    while i < n
        invariant
            n == s@.len(),
            i <= n,
            r@ == s@.take(i as int),
        decreases n - i,
    {
        r.push(s.get_char(i));
        proof {
            assert(s@.take(i as int).push(s@[i as int]) =~= s@.take(i + 1));
        }
        i += 1;
    }
    proof {
        assert(s@.take(n as int) =~= s@);
    }
    r
}

/// A copy of `w`.
fn copy_vec(w: &Vec<char>) -> (r: Vec<char>)
    ensures
        r@ == w@,
{
    let mut r: Vec<char> = Vec::new();
    crate::lexer::push_all(&mut r, w);
    proof {
        assert(Seq::<char>::empty() + w@ =~= w@);
    }
    r
}

/// Whether `w` holds exactly the characters of `s`.
fn vec_matches_str(w: &Vec<char>, s: &str) -> (r: bool)
    ensures
        r == (w@ == s@),
{
    let n = s.unicode_len();
    if w.len() != n {
        proof {
            assert(w@ != s@);
        }
        return false;
    }
    let mut i: usize = 0;
    while i < n
        invariant
            n == s@.len(),
            n == w@.len(),
            i <= n,
            forall|k: int| 0 <= k < i ==> w@[k] == s@[k],
        decreases n - i,
    {
        if w[i] != s.get_char(i) {
            proof {
                assert(w@ != s@);
            }
            return false;
        }
        i += 1;
    }
    proof {
        assert(w@ =~= s@);
    }
    true
}

/// Whether `w` is the parameter keyword, bare or with a bracketed suffix.
fn is_param_word(w: &Vec<char>) -> (r: bool)
    ensures
        r == is_param_keyword(w@),
{
    if vec_matches_str(w, "param") {
        true
    } else if vec_starts_with_str(w, "param") {
        let n = "param".unicode_len();
        proof {
            if w@.len() == n {
                assert(w@.subrange(0, n as int) =~= w@);
            }
        }
        w.len() > n && w[n] == '['
    } else {
        false
    }
}

/// Whether `w` begins with the characters of `s`.
fn vec_starts_with_str(w: &Vec<char>, s: &str) -> (r: bool)
    ensures
        r == (w@.len() >= s@.len() && w@.subrange(0, s@.len() as int) == s@),
{
    let n = s.unicode_len();
    if w.len() < n {
        return false;
    }
    let mut i: usize = 0;
    while i < n
        invariant
            n == s@.len(),
            n <= w@.len(),
            i <= n,
            forall|k: int| 0 <= k < i ==> w@[k] == s@[k],
        decreases n - i,
    {
        if w[i] != s.get_char(i) {
            proof {
                assert(w@.subrange(0, n as int)[i as int] != s@[i as int]);
            }
            return false;
        }
        i += 1;
    }
    proof {
        assert(w@.subrange(0, n as int) =~= s@);
    }
    true
}

/// Whether the characters of `w` from `from` onward are exactly those of
/// `s`.
fn vec_suffix_matches(w: &Vec<char>, from: usize, s: &str) -> (r: bool)
    requires
        from <= w@.len(),
    ensures
        r == (w@.subrange(from as int, w@.len() as int) == s@),
{
    let n = s.unicode_len();
    let wl = w.len();
    if wl - from != n {
        proof {
            assert(w@.subrange(from as int, w@.len() as int).len() != s@.len());
        }
        return false;
    }
    let mut i: usize = 0;
    while i < n
        invariant
            n == s@.len(),
            wl == w@.len(),
            from + n == w@.len(),
            i <= n,
            forall|k: int| 0 <= k < i ==> w@[from + k] == s@[k],
        decreases n - i,
    {
        if w[from + i] != s.get_char(i) {
            proof {
                assert(w@.subrange(from as int, w@.len() as int)[i as int] != s@[i as int]);
            }
            return false;
        }
        i += 1;
    }
    proof {
        assert(w@.subrange(from as int, w@.len() as int) =~= s@);
    }
    true
}

/// The characters of `w` from `from` onward, as a fresh vector.
fn suffix_vec(w: &Vec<char>, from: usize) -> (r: Vec<char>)
    requires
        from <= w@.len(),
    ensures
        r@ == w@.subrange(from as int, w@.len() as int),
{
    let mut r: Vec<char> = Vec::new();
    let mut i: usize = from;
    while i < w.len()
        invariant
            from <= i <= w@.len(),
            r@ == w@.subrange(from as int, i as int),
        decreases w@.len() - i,
    {
        r.push(w[i]);
        proof {
            assert(w@.subrange(from as int, i as int).push(w@[i as int]) =~= w@.subrange(
                from as int,
                i + 1,
            ));
        }
        i += 1;
    }
    r
}

/// The first index of `c` in `w`, if any.
fn find_char_at(w: &Vec<char>, c: char) -> (r: Option<usize>)
    ensures
        match r {
            Option::Some(k) => k < w@.len() && find_char(w@, c, 0) == Option::Some(k as int),
            Option::None => find_char(w@, c, 0) is None,
        },
{
    let mut j: usize = 0;
    while j < w.len()
        invariant
            j <= w@.len(),
            find_char(w@, c, 0) == find_char(w@, c, j as int),
        decreases w@.len() - j,
    {
        if w[j] == c {
            return Option::Some(j);
        }
        j += 1;
    }
    Option::None
}

/// The argument-extraction strategy for the notation keyword `w`: the
/// externally visible keyword-to-strategy mapping.
pub fn param_parser_of(w: &Vec<char>) -> (r: ParamParser)
    ensures
        r == strategy_of(w@),
{
    if is_param_word(w) {
        ParamParser::WhitespaceArg
    } else if vec_matches_str(w, "a") || vec_matches_str(w, "b") || vec_matches_str(w, "c")
        || vec_matches_str(w, "p") || vec_matches_str(w, "emoji") || vec_matches_str(w, "e")
        || vec_matches_str(w, "em") || vec_matches_str(w, "def") || vec_matches_str(w, "class")
        || vec_matches_str(w, "category") || vec_matches_str(w, "concept") || vec_matches_str(
        w,
        "enum",
    ) || vec_matches_str(w, "example") || vec_matches_str(w, "extends") || vec_matches_str(
        w,
        "file",
    ) || vec_matches_str(w, "sa") || vec_matches_str(w, "see") || vec_matches_str(w, "retval")
        || vec_matches_str(w, "exception") || vec_matches_str(w, "throw") || vec_matches_str(
        w,
        "throws",
    ) {
        ParamParser::WhitespaceArg
    } else if vec_matches_str(w, "code") {
        ParamParser::ParenArg
    } else {
        ParamParser::NoArg
    }
}

/// One of the two defined error kinds: a malformed group marker, or a
/// malformed direction annotation.
pub open spec fn is_defined_failure(e: ParseErrorView) -> bool {
    &&& e is UnexpectedInput
    &&& (e->expected == group_expected() || e->expected == direction_expected())
}

/// Every end-of-code notation in the sequence is immediately followed by
/// a text item.
pub open spec fn endcode_followed_by_text(items: Seq<GrammarItemView>) -> bool {
    forall|k: int|
        0 <= k < items.len() ==> ((#[trigger] items[k]) matches GrammarItemView::Notation {
            tag,
            ..
        } && tag == endcode_tag() ==> k + 1 < items.len() && items[k + 1] is Text)
}

/// Appending anything but an end-of-code notation keeps every end-of-code
/// notation followed by a text item.
proof fn lemma_endcode_text_push(items: Seq<GrammarItemView>, x: GrammarItemView)
    requires
        endcode_followed_by_text(items),
        !(x matches GrammarItemView::Notation { tag, .. } && tag == endcode_tag()),
    ensures
        endcode_followed_by_text(items.push(x)),
{
    let r = items.push(x);
    assert forall|k: int|
        0 <= k < r.len() implies ((#[trigger] r[k]) matches GrammarItemView::Notation { tag, .. }
        && tag == endcode_tag() ==> k + 1 < r.len() && r[k + 1] is Text) by {
        if k < items.len() {
            assert(r[k] == items[k]);
            if items[k] matches GrammarItemView::Notation { tag, .. } && tag == endcode_tag() {
                assert(k + 1 < items.len() && items[k + 1] is Text);
                assert(r[k + 1] == items[k + 1]);
            }
        }
    }
}

/// Replacing a trailing text item with another text item keeps every
/// end-of-code notation followed by a text item.
proof fn lemma_endcode_text_retext(items: Seq<GrammarItemView>, t: Seq<char>)
    requires
        endcode_followed_by_text(items),
        items.len() > 0,
        items.last() is Text,
    ensures
        endcode_followed_by_text(items.drop_last().push(GrammarItemView::Text(t))),
{
    let r = items.drop_last().push(GrammarItemView::Text(t));
    assert forall|k: int|
        0 <= k < r.len() implies ((#[trigger] r[k]) matches GrammarItemView::Notation { tag, .. }
        && tag == endcode_tag() ==> k + 1 < r.len() && r[k + 1] is Text) by {
        if k < items.len() - 1 {
            assert(r[k] == items[k]);
            if items[k] matches GrammarItemView::Notation { tag, .. } && tag == endcode_tag() {
                assert(k + 1 < items.len() && items[k + 1] is Text);
                if k + 1 < items.len() - 1 {
                    assert(r[k + 1] == items[k + 1]);
                } else {
                    assert(r[k + 1] == GrammarItemView::Text(t));
                }
            }
        } else {
            assert(r[k] == GrammarItemView::Text(t));
        }
    }
}

/// Appending an end-of-code notation together with its empty text item
/// keeps every end-of-code notation followed by a text item.
proof fn lemma_endcode_text_push_pair(items: Seq<GrammarItemView>, n: GrammarItemView)
    requires
        endcode_followed_by_text(items),
    ensures
        endcode_followed_by_text(items.push(n).push(GrammarItemView::Text(Seq::empty()))),
{
    let r = items.push(n).push(GrammarItemView::Text(Seq::empty()));
    assert forall|k: int|
        0 <= k < r.len() implies ((#[trigger] r[k]) matches GrammarItemView::Notation { tag, .. }
        && tag == endcode_tag() ==> k + 1 < r.len() && r[k + 1] is Text) by {
        if k < items.len() {
            assert(r[k] == items[k]);
            if items[k] matches GrammarItemView::Notation { tag, .. } && tag == endcode_tag() {
                assert(k + 1 < items.len() && items[k + 1] is Text);
                assert(r[k + 1] == items[k + 1]);
            }
        } else if k == items.len() {
            assert(r[k + 1] == GrammarItemView::Text(Seq::empty()));
        } else {
            assert(r[k] == GrammarItemView::Text(Seq::empty()));
        }
    }
}

/// Every error the scan can produce, from any state, is one of the two
/// defined kinds, and every successful scan keeps each end-of-code
/// notation immediately followed by a text item.
proof fn lemma_parse_loop_failures(
    toks: Seq<LexItemView>,
    i: int,
    items: Seq<GrammarItemView>,
    skip: int,
)
    requires
        endcode_followed_by_text(items),
    ensures
        parse_loop(toks, i, items, skip) is Err ==> is_defined_failure(
            parse_loop(toks, i, items, skip)->Err_0,
        ),
        group_parens_only(toks) && parse_loop(toks, i, items, skip) is Err ==> parse_loop(
            toks,
            i,
            items,
            skip,
        )->Err_0->expected == direction_expected(),
        parse_loop(toks, i, items, skip) matches Ok(out) ==> endcode_followed_by_text(out),
    decreases toks.len() - i,
{
    if i < 0 || i >= toks.len() {
    } else if skip > 0 {
        lemma_parse_loop_failures(toks, i + 1, items, skip - 1);
    } else {
        let cur = toks[i];
        let ends_code = at_endcode(toks, i);
        if !ends_code && tail_open_code(items) {
            lemma_endcode_text_push(items, GrammarItemView::Text(cur.text()));
            lemma_parse_loop_failures(
                toks,
                i + 1,
                items.push(GrammarItemView::Text(cur.text())),
                0,
            );
        } else if !ends_code && tail_code_text(items) {
            lemma_endcode_text_retext(items, items.last()->Text_0 + cur.text());
            lemma_parse_loop_failures(
                toks,
                i + 1,
                items.drop_last().push(GrammarItemView::Text(items.last()->Text_0 + cur.text())),
                0,
            );
        } else {
            match cur {
                LexItemView::At(_) => {
                    if i + 1 < toks.len() {
                        match toks[i + 1] {
                            LexItemView::Paren(v) => {
                                if v == '{' {
                                    lemma_endcode_text_push(items, GrammarItemView::GroupStart);
                                    lemma_parse_loop_failures(
                                        toks,
                                        i + 1,
                                        items.push(GrammarItemView::GroupStart),
                                        0,
                                    );
                                } else if v == '}' {
                                    lemma_endcode_text_push(items, GrammarItemView::GroupEnd);
                                    lemma_parse_loop_failures(
                                        toks,
                                        i + 1,
                                        items.push(GrammarItemView::GroupEnd),
                                        0,
                                    );
                                } else {
                                    assert(group_parens_only(toks) ==> (toks[i + 1]
                                        matches LexItemView::Paren(c) ==> c == '{' || c == '}'));
                                }
                            },
                            LexItemView::Word(v) => {
                                match notation_step(toks, i, items, v) {
                                    Result::Ok((items2, skip2)) => {
                                        let tag = if is_param_keyword(v) {
                                            "param"@
                                        } else {
                                            v
                                        };
                                        let meta = if is_param_keyword(v) {
                                            bracket_meta(v)->Ok_0
                                        } else {
                                            Seq::<Seq<char>>::empty()
                                        };
                                        let params = match find_arg(toks, i, strategy_of(v)) {
                                            Option::Some((sk, w)) => seq![w],
                                            Option::None => Seq::<Seq<char>>::empty(),
                                        };
                                        let n = GrammarItemView::Notation { meta, params, tag };
                                        if tag == endcode_tag() {
                                            lemma_endcode_text_push_pair(items, n);
                                            assert(items2 == items.push(n).push(
                                                GrammarItemView::Text(Seq::empty()),
                                            ));
                                        } else {
                                            lemma_endcode_text_push(items, n);
                                            assert(items2 == items.push(n));
                                        }
                                        lemma_parse_loop_failures(toks, i + 1, items2, skip2);
                                    },
                                    Result::Err(e) => {
                                        assert(bracket_meta(v) == Result::<
                                            Seq<Seq<char>>,
                                            ParseErrorView,
                                        >::Err(e));
                                        assert(is_defined_failure(e));
                                    },
                                }
                            },
                            _ => {
                                lemma_parse_loop_failures(toks, i + 1, items, 0);
                            },
                        }
                    } else {
                        lemma_parse_loop_failures(toks, i + 1, items, 0);
                    }
                },
                LexItemView::Word(v) => {
                    if items.len() > 0 && items.last() is Text {
                        lemma_endcode_text_retext(items, items.last()->Text_0 + v);
                        lemma_parse_loop_failures(
                            toks,
                            i + 1,
                            items.drop_last().push(
                                GrammarItemView::Text(items.last()->Text_0 + v),
                            ),
                            0,
                        );
                    } else {
                        lemma_endcode_text_push(items, GrammarItemView::Text(v));
                        lemma_parse_loop_failures(
                            toks,
                            i + 1,
                            items.push(GrammarItemView::Text(v)),
                            0,
                        );
                    }
                },
                LexItemView::Whitespace(_) => {
                    if items.len() > 0 && items.last() is Text {
                        lemma_endcode_text_retext(items, items.last()->Text_0.push(' '));
                        lemma_parse_loop_failures(
                            toks,
                            i + 1,
                            items.drop_last().push(
                                GrammarItemView::Text(items.last()->Text_0.push(' ')),
                            ),
                            0,
                        );
                    } else if items.len() > 0 && (items.last()
                        matches GrammarItemView::Notation { params, .. } && params.len() > 0) {
                        lemma_endcode_text_push(items, GrammarItemView::Text(seq![' ']));
                        lemma_parse_loop_failures(
                            toks,
                            i + 1,
                            items.push(GrammarItemView::Text(seq![' '])),
                            0,
                        );
                    } else if items.len() == 0 {
                        lemma_endcode_text_push(items, GrammarItemView::Text(seq![' ']));
                        lemma_parse_loop_failures(
                            toks,
                            i + 1,
                            items.push(GrammarItemView::Text(seq![' '])),
                            0,
                        );
                    } else {
                        lemma_endcode_text_push(items, GrammarItemView::Text(Seq::empty()));
                        lemma_parse_loop_failures(
                            toks,
                            i + 1,
                            items.push(GrammarItemView::Text(Seq::empty())),
                            0,
                        );
                    }
                },
                LexItemView::NewLine => {
                    if items.len() > 0 && items.last() is Text {
                        lemma_endcode_text_retext(items, items.last()->Text_0.push('\n'));
                        lemma_parse_loop_failures(
                            toks,
                            i + 1,
                            items.drop_last().push(
                                GrammarItemView::Text(items.last()->Text_0.push('\n')),
                            ),
                            0,
                        );
                    } else {
                        lemma_parse_loop_failures(toks, i + 1, items, 0);
                    }
                },
                LexItemView::Paren(v) => {
                    if items.len() > 0 && items.last() is Text {
                        lemma_endcode_text_retext(items, items.last()->Text_0.push(v));
                        lemma_parse_loop_failures(
                            toks,
                            i + 1,
                            items.drop_last().push(
                                GrammarItemView::Text(items.last()->Text_0.push(v)),
                            ),
                            0,
                        );
                    } else {
                        lemma_parse_loop_failures(toks, i + 1, items, 0);
                    }
                },
            }
        }
    }
}

/// Group balance is not enforced: parsing never fails on account of
/// mismatched or missing group markers. Failure occurs only for the two
/// defined error kinds — a marker followed by a delimiter that opens no
/// group, or a parameter keyword with an unrecognized bracketed
/// direction annotation.
pub proof fn lemma_failures_limited(toks: Seq<LexItemView>)
    ensures
        parse_items_spec(toks) is Err ==> is_defined_failure(parse_items_spec(toks)->Err_0),
{
    lemma_parse_loop_failures(toks, 0, Seq::empty(), 0);
}

/// On text handed to the lexer, whose delimiter tokens hold only the two
/// group delimiters, the parse can fail only with the malformed
/// direction-annotation error: group markers, matched or not, never
/// abort the parse.
pub proof fn lemma_lexed_input_fails_direction_only(s: Seq<char>)
    ensures
        parse_spec(s) is Err ==> (parse_spec(s)->Err_0 matches ParseErrorView::UnexpectedInput {
            expected,
            ..
        } && expected == direction_expected()),
{
    crate::lexer::lemma_lex_parens(s);
    lemma_parse_loop_failures(lex_spec(s), 0, Seq::empty(), 0);
}

/// In every successful parse, each end-of-code notation is immediately
/// followed by a text item — an empty one when the code region was
/// empty — so a caller expecting a text item after every code region
/// finds one.
pub proof fn lemma_endcode_has_text(toks: Seq<LexItemView>)
    ensures
        parse_items_spec(toks) matches Ok(items) ==> endcode_followed_by_text(items),
{
    lemma_parse_loop_failures(toks, 0, Seq::empty(), 0);
}

/// Concatenation of the literal text of the tokens from `i` up to `e`.
pub open spec fn texts_between(toks: Seq<LexItemView>, i: int, e: int) -> Seq<char>
    decreases e - i,
{
    if i < 0 || i >= e || e > toks.len() {
        Seq::empty()
    } else {
        toks[i].text() + texts_between(toks, i + 1, e)
    }
}

/// While the tail of the items is a code notation with its open text
/// item, every token before the next end-of-code marker appends its
/// literal text to that text item, with no reclassification.
proof fn lemma_verbatim_scan(toks: Seq<LexItemView>, i: int, e: int, items: Seq<GrammarItemView>)
    requires
        0 <= i <= e <= toks.len(),
        tail_code_text(items),
        forall|k: int| i <= k < e ==> !at_endcode(toks, k),
    ensures
        parse_loop(toks, i, items, 0) == parse_loop(
            toks,
            e,
            items.drop_last().push(
                GrammarItemView::Text(items.last()->Text_0 + texts_between(toks, i, e)),
            ),
            0,
        ),
    decreases e - i,
{
    let t0 = items.last()->Text_0;
    if i >= e {
        assert(t0 + texts_between(toks, i, e) =~= t0);
        assert(items.drop_last().push(GrammarItemView::Text(t0)) =~= items);
    } else {
        assert(!at_endcode(toks, i));
        let items2 = items.drop_last().push(GrammarItemView::Text(t0 + toks[i].text()));
        assert(parse_loop(toks, i, items, 0) == parse_loop(toks, i + 1, items2, 0)) by {
            assert(!tail_open_code(items));
        }
        assert(tail_code_text(items2)) by {
            assert(items2.len() == items.len());
            assert(items2[items2.len() - 2] == items[items.len() - 2]);
        }
        lemma_verbatim_scan(toks, i + 1, e, items2);
        assert(items2.drop_last() =~= items.drop_last());
        assert(items2.last()->Text_0 == t0 + toks[i].text());
        assert((t0 + toks[i].text()) + texts_between(toks, i + 1, e) =~= t0 + texts_between(
            toks,
            i,
            e,
        ));
    }
}

/// Verbatim region integrity: once a code notation stands open at the
/// tail of the items, the tokens up to (but excluding) the next
/// end-of-code marker are reproduced in a single text item, their
/// literal text concatenated byte for byte — delimiters, markers,
/// whitespace runs and newlines included, with no collapsing or
/// reclassification inside the region.
pub proof fn lemma_verbatim_region(
    toks: Seq<LexItemView>,
    i: int,
    e: int,
    items: Seq<GrammarItemView>,
)
    requires
        0 <= i < e <= toks.len(),
        tail_open_code(items),
        forall|k: int| i <= k < e ==> !at_endcode(toks, k),
    ensures
        parse_loop(toks, i, items, 0) == parse_loop(
            toks,
            e,
            items.push(GrammarItemView::Text(texts_between(toks, i, e))),
            0,
        ),
{
    let items2 = items.push(GrammarItemView::Text(toks[i].text()));
    assert(parse_loop(toks, i, items, 0) == parse_loop(toks, i + 1, items2, 0));
    assert(tail_code_text(items2)) by {
        assert(items2[items2.len() - 2] == items.last());
    }
    lemma_verbatim_scan(toks, i + 1, e, items2);
    assert(items2.drop_last() =~= items);
    assert(items2.last()->Text_0 == toks[i].text());
    assert(toks[i].text() + texts_between(toks, i + 1, e) =~= texts_between(toks, i, e));
}

/// A marker, a parameter-family keyword, and an argument word and a
/// description word each behind a whitespace token parse to exactly one
/// notation and one text item, whatever the whitespace tokens hold.
proof fn lemma_param_notation_tokens(
    a: Seq<char>,
    w: Seq<char>,
    u1: Seq<char>,
    x: Seq<char>,
    u2: Seq<char>,
    t: Seq<char>,
    m: Seq<Seq<char>>,
)
    requires
        is_param_keyword(w),
        bracket_meta(w) == Result::<Seq<Seq<char>>, ParseErrorView>::Ok(m),
    ensures
        parse_items_spec(
            seq![
                LexItemView::At(a),
                LexItemView::Word(w),
                LexItemView::Whitespace(u1),
                LexItemView::Word(x),
                LexItemView::Whitespace(u2),
                LexItemView::Word(t),
            ],
        ) == Result::<Seq<GrammarItemView>, ParseErrorView>::Ok(
            seq![
                GrammarItemView::Notation { meta: m, params: seq![x], tag: "param"@ },
                GrammarItemView::Text(seq![' '] + t),
            ],
        ),
{
    reveal_strlit("param");
    reveal_strlit("endcode");
    reveal_strlit("code");
    let toks = seq![
        LexItemView::At(a),
        LexItemView::Word(w),
        LexItemView::Whitespace(u1),
        LexItemView::Word(x),
        LexItemView::Whitespace(u2),
        LexItemView::Word(t),
    ];
    assert("param"@.len() == 5);
    assert(endcode_tag().len() == 7);
    assert(code_tag().len() == 4);
    assert(toks.len() == 6);
    assert(strategy_of(w) == ParamParser::WhitespaceArg);
    assert(find_non_ws(toks, 2) == 3) by {
        assert(toks[2] is Whitespace);
        assert(toks[3] is Word);
        assert(find_non_ws(toks, 3) == 3);
    }
    assert(find_arg(toks, 0, ParamParser::WhitespaceArg) == Option::Some((3int, x)));
    let items1 = seq![GrammarItemView::Notation { meta: m, params: seq![x], tag: "param"@ }];
    assert(notation_items(toks, 0, Seq::empty(), m, "param"@, ParamParser::WhitespaceArg) == (
        items1,
        3int,
    )) by {
        assert("param"@ != endcode_tag());
        assert(Seq::<GrammarItemView>::empty().push(
            GrammarItemView::Notation { meta: m, params: seq![x], tag: "param"@ },
        ) =~= items1);
    }
    assert(notation_step(toks, 0, Seq::empty(), w) == Result::<
        (Seq<GrammarItemView>, int),
        ParseErrorView,
    >::Ok((items1, 3int)));
    assert(parse_loop(toks, 0, Seq::empty(), 0) == parse_loop(toks, 1, items1, 3)) by {
        assert(!tail_open_code(Seq::<GrammarItemView>::empty()));
        assert(!tail_code_text(Seq::<GrammarItemView>::empty()));
        assert(toks[0] is At);
        assert(toks[1] == LexItemView::Word(w));
    }
    assert(parse_loop(toks, 1, items1, 3) == parse_loop(toks, 2, items1, 2));
    assert(parse_loop(toks, 2, items1, 2) == parse_loop(toks, 3, items1, 1));
    assert(parse_loop(toks, 3, items1, 1) == parse_loop(toks, 4, items1, 0));
    let items2 = items1.push(GrammarItemView::Text(seq![' ']));
    assert(parse_loop(toks, 4, items1, 0) == parse_loop(toks, 5, items2, 0)) by {
        assert(toks[4] is Whitespace);
        assert(!at_endcode(toks, 4));
        assert(!tail_open_code(items1)) by {
            assert("param"@ != code_tag());
        }
        assert(!tail_code_text(items1));
        assert(!(items1.last() is Text));
        assert(items1.last() matches GrammarItemView::Notation { params, .. } && params.len() > 0);
    }
    let items3 = items2.drop_last().push(GrammarItemView::Text(seq![' '] + t));
    assert(parse_loop(toks, 5, items2, 0) == parse_loop(toks, 6, items3, 0)) by {
        assert(toks[5] == LexItemView::Word(t));
        assert(!at_endcode(toks, 5));
        assert(!tail_open_code(items2));
        assert(!tail_code_text(items2)) by {
            assert(items2[0] matches GrammarItemView::Notation { tag, .. } && tag == "param"@);
            assert("param"@ != code_tag());
        }
        assert(items2.last() is Text);
        assert(items2.last()->Text_0 == seq![' ']);
    }
    assert(parse_loop(toks, 6, items3, 0) == Result::<
        Seq<GrammarItemView>,
        ParseErrorView,
    >::Ok(items3));
    assert(items3 =~= seq![
        GrammarItemView::Notation { meta: m, params: seq![x], tag: "param"@ },
        GrammarItemView::Text(seq![' '] + t),
    ]);
}

/// Direction-annotated parameter: an `@param[in]` keyword, a parameter
/// name, and a description word parse to a notation with direction `in`,
/// the name as its parameter, and tag `param`, followed by a text item of
/// one space and the description — however long the whitespace runs
/// separating the keyword, the name, and the description are.
pub proof fn lemma_param_direction_annotation(
    u1: Seq<char>,
    x: Seq<char>,
    u2: Seq<char>,
    t: Seq<char>,
)
    requires
        u1.len() > 0,
        forall|i: int| 0 <= i < u1.len() ==> crate::lexer::is_space_char(#[trigger] u1[i]),
        u2.len() > 0,
        forall|i: int| 0 <= i < u2.len() ==> crate::lexer::is_space_char(#[trigger] u2[i]),
        x.len() > 0,
        forall|i: int| 0 <= i < x.len() ==> crate::lexer::is_word_char(#[trigger] x[i]),
        t.len() > 0,
        forall|i: int| 0 <= i < t.len() ==> crate::lexer::is_word_char(#[trigger] t[i]),
    ensures
        parse_spec("@param[in]"@ + u1 + x + u2 + t) == Result::<
            Seq<GrammarItemView>,
            ParseErrorView,
        >::Ok(
            seq![
                GrammarItemView::Notation { meta: seq!["in"@], params: seq![x], tag: "param"@ },
                GrammarItemView::Text(seq![' '] + t),
            ],
        ),
{
    reveal_strlit("@param[in]");
    reveal_strlit("param[in]");
    reveal_strlit("param");
    reveal_strlit("in]");
    let kw = "param[in]"@;
    assert(kw.len() == 9);
    assert("@param[in]"@ =~= seq!['@'] + kw);
    let s1 = seq!['@'] + kw;
    assert(lex_spec(seq!['@']) == seq![LexItemView::At(seq!['@'])]) by {
        assert(seq!['@'].drop_last() =~= Seq::<char>::empty());
        assert(lex_spec(Seq::<char>::empty()) == Seq::<LexItemView>::empty());
        assert(lex_spec(seq!['@']) == crate::lexer::lex_step(Seq::empty(), '@'));
        assert(Seq::<LexItemView>::empty().push(LexItemView::At(seq!['@'])) =~= seq![
            LexItemView::At(seq!['@']),
        ]);
    }
    assert forall|i: int| 0 <= i < kw.len() implies crate::lexer::is_word_char(
        #[trigger] kw[i],
    ) by {
        assert(kw[0] == 'p' && kw[1] == 'a' && kw[2] == 'r' && kw[3] == 'a' && kw[4] == 'm'
            && kw[5] == '[' && kw[6] == 'i' && kw[7] == 'n' && kw[8] == ']');
    }
    crate::lexer::lemma_lex_word_run(seq!['@'], kw);
    let toks1 = seq![LexItemView::At(seq!['@']), LexItemView::Word(kw)];
    assert(lex_spec(s1) =~= toks1);
    crate::lexer::lemma_lex_space_run(s1, u1);
    let s2 = s1 + u1;
    let toks2 = toks1.push(LexItemView::Whitespace(u1));
    assert(lex_spec(s2) =~= toks2);
    crate::lexer::lemma_lex_word_run(s2, x);
    let s3 = s2 + x;
    let toks3 = toks2.push(LexItemView::Word(x));
    assert(lex_spec(s3) =~= toks3);
    crate::lexer::lemma_lex_space_run(s3, u2);
    let s4 = s3 + u2;
    let toks4 = toks3.push(LexItemView::Whitespace(u2));
    assert(lex_spec(s4) =~= toks4);
    crate::lexer::lemma_lex_word_run(s4, t);
    let s5 = s4 + t;
    let toks5 = toks4.push(LexItemView::Word(t));
    assert(lex_spec(s5) =~= toks5);
    assert("@param[in]"@ + u1 + x + u2 + t == s5);
    assert(is_param_keyword(kw)) by {
        assert(kw.subrange(0, 5) =~= "param"@);
        assert(kw[5] == '[');
    }
    assert(find_char(kw, '[', 0) == Option::Some(5int)) by {
        assert(kw[0] != '[' && kw[1] != '[' && kw[2] != '[' && kw[3] != '[' && kw[4] != '[');
        assert(kw[5] == '[');
        assert(find_char(kw, '[', 5) == Option::Some(5int));
        assert(find_char(kw, '[', 4) == Option::Some(5int));
        assert(find_char(kw, '[', 3) == Option::Some(5int));
        assert(find_char(kw, '[', 2) == Option::Some(5int));
        assert(find_char(kw, '[', 1) == Option::Some(5int));
    }
    assert(bracket_meta(kw) == Result::<Seq<Seq<char>>, ParseErrorView>::Ok(seq!["in"@])) by {
        assert(kw.subrange(6, 9) =~= "in]"@);
    }
    lemma_param_notation_tokens(seq!['@'], kw, u1, x, u2, t, seq!["in"@]);
    assert(toks5 =~= seq![
        LexItemView::At(seq!['@']),
        LexItemView::Word(kw),
        LexItemView::Whitespace(u1),
        LexItemView::Word(x),
        LexItemView::Whitespace(u2),
        LexItemView::Word(t),
    ]);
}

/// Pushing an item onto a list appends its model to the list of models.
pub broadcast proof fn lemma_item_views_push(s: Seq<GrammarItem>, x: GrammarItem)
    ensures
        #[trigger] item_views(s.push(x)) == item_views(s).push(x@),
{
    assert(item_views(s.push(x)) =~= item_views(s).push(x@));
}

/// Replacing the last item (pop, then push) updates the last model.
pub broadcast proof fn lemma_item_views_pop_push(s: Seq<GrammarItem>, x: GrammarItem)
    requires
        s.len() > 0,
    ensures
        #[trigger] item_views(s.drop_last().push(x)) == item_views(s).drop_last().push(x@),
{
    assert(item_views(s.drop_last().push(x)) =~= item_views(s).drop_last().push(x@));
}

/// Whether a token is a whitespace run.
fn is_ws_token(t: &LexItem) -> (r: bool)
    ensures
        r == (t@ is Whitespace),
{
    match t {
        LexItem::Whitespace(_) => true,
        _ => false,
    }
}

/// Scans the token stream left to right, with one-token lookahead, and
/// emits grammar items; the result is exactly `parse_items_spec` of the
/// tokens' models. Fails only on a marker followed by a delimiter that
/// opens no group, or on a parameter keyword with an unrecognized
/// bracketed direction annotation.
pub fn parse_items(input: Vec<LexItem>) -> (r: Result<Vec<GrammarItem>, ParseError>)
    ensures
        match r {
            Result::Ok(items) => parse_items_spec(token_views(input@)) == Result::<
                Seq<GrammarItemView>,
                ParseErrorView,
            >::Ok(item_views(items@)),
            Result::Err(e) => parse_items_spec(token_views(input@)) == Result::<
                Seq<GrammarItemView>,
                ParseErrorView,
            >::Err(e@),
        },
{
    broadcast use lemma_item_views_push, lemma_item_views_pop_push;

    let ghost toks = token_views(input@);
    let n = input.len();
    let mut items: Vec<GrammarItem> = Vec::new();
    let mut skip: usize = 0;
    let mut i: usize = 0;
    proof {
        assert(item_views(items@) =~= Seq::<GrammarItemView>::empty());
    }
    while i < n
        invariant
            n == input@.len(),
            i <= n,
            toks == token_views(input@),
            toks.len() == n,
            parse_items_spec(toks) == parse_loop(toks, i as int, item_views(items@), skip as int),
        decreases n - i,
    {
        broadcast use lemma_item_views_push, lemma_item_views_pop_push;

        let ghost itemsv0 = item_views(items@);
        let ghost skip0 = skip as int;
        proof {
            assert(itemsv0.len() == items@.len());
        }
        if skip > 0 {
            skip -= 1;
            i += 1;
            continue;
        }
        let cur = &input[i];
        proof {
            assert(toks[i as int] == input@[i as int]@);
            assert(cur@ == toks[i as int]);
        }
        let ends_code = match cur {
            LexItem::At(_) => {
                if i + 1 < n {
                    match &input[i + 1] {
                        LexItem::Word(wv) => {
                            proof {
                                assert(toks[i as int + 1] == input@[i as int + 1]@);
                            }
                            vec_matches_str(wv, "endcode")
                        },
                        _ => false,
                    }
                } else {
                    false
                }
            },
            _ => false,
        };
        proof {
            assert(i + 1 < n ==> toks[i as int + 1] == input@[i as int + 1]@);
            assert(ends_code == at_endcode(toks, i as int));
        }
        let mut handled = false;
        if !ends_code && items.len() > 0 {
            let tail_code = match &items[items.len() - 1] {
                GrammarItem::Notation { tag, .. } => vec_matches_str(tag, "code"),
                _ => false,
            };
            proof {
                assert(itemsv0.last() == items@[items@.len() - 1]@);
                assert(tail_code == tail_open_code(itemsv0));
            }
            if tail_code {
                let mut t: Vec<char> = Vec::new();
                cur.push_to(&mut t);
                items.push(GrammarItem::Text(t));
                handled = true;
                proof {
                    assert(t@ =~= cur@.text());
                    assert(item_views(items@) == itemsv0.push(GrammarItemView::Text(cur@.text())));
                    assert(parse_loop(toks, i as int, itemsv0, 0) == parse_loop(
                        toks,
                        i as int + 1,
                        item_views(items@),
                        0,
                    ));
                }
            } else if items.len() >= 2 {
                let second_code = match &items[items.len() - 2] {
                    GrammarItem::Notation { tag, .. } => vec_matches_str(tag, "code"),
                    _ => false,
                };
                let last_text = match &items[items.len() - 1] {
                    GrammarItem::Text(_) => true,
                    _ => false,
                };
                proof {
                    assert(itemsv0[itemsv0.len() - 2] == items@[items@.len() - 2]@);
                    assert(itemsv0.last() == items@[items@.len() - 1]@);
                    assert((second_code && last_text) == tail_code_text(itemsv0));
                }
                if second_code && last_text {
                    let ghost pre = items@;
                    let last = items.pop().unwrap();
                    proof {
                        assert(items@ =~= pre.drop_last());
                        assert(last == pre.last());
                    }
                    match last {
                        GrammarItem::Text(mut t) => {
                            cur.push_to(&mut t);
                            items.push(GrammarItem::Text(t));
                            proof {
                                assert(items@ == pre.drop_last().push(GrammarItem::Text(t)));
                                assert(t@ == itemsv0.last()->Text_0 + cur@.text());
                            }
                        },
                        _ => unreached(),
                    }
                    handled = true;
                    proof {
                        assert(item_views(items@) == itemsv0.drop_last().push(
                            GrammarItemView::Text(itemsv0.last()->Text_0 + cur@.text()),
                        ));
                        assert(parse_loop(toks, i as int, itemsv0, 0) == parse_loop(
                            toks,
                            i as int + 1,
                            item_views(items@),
                            0,
                        ));
                    }
                }
            }
        }
        if !handled {
            proof {
                assert(!(!at_endcode(toks, i as int) && tail_open_code(itemsv0)));
                assert(!(!at_endcode(toks, i as int) && tail_code_text(itemsv0)));
            }
            match cur {
                LexItem::At(_) => {
                    if i + 1 < n {
                        proof {
                            assert(toks[i as int + 1] == input@[i as int + 1]@);
                        }
                        match &input[i + 1] {
                            LexItem::Paren(pv) => {
                                let pv = *pv;
                                if pv == '{' {
                                    items.push(GrammarItem::GroupStart);
                                    proof {
                                        assert(parse_loop(toks, i as int, itemsv0, 0) == parse_loop(
                                            toks,
                                            i as int + 1,
                                            item_views(items@),
                                            0,
                                        ));
                                    }
                                } else if pv == '}' {
                                    items.push(GrammarItem::GroupEnd);
                                    proof {
                                        assert(parse_loop(toks, i as int, itemsv0, 0) == parse_loop(
                                            toks,
                                            i as int + 1,
                                            item_views(items@),
                                            0,
                                        ));
                                    }
                                } else {
                                    let mut fv: Vec<char> = Vec::new();
                                    fv.push(pv);
                                    let found = chars_to_string(&fv);
                                    let mut expected: Vec<String> = Vec::new();
                                    expected.push("{".to_owned());
                                    expected.push("}".to_owned());
                                    let e = ParseError::UnexpectedInput { found, expected };
                                    proof {
                                        assert(fv@ =~= seq![pv]);
                                        assert(expected@.map_values(|s: String| s@)
                                            =~= group_expected());
                                        assert(parse_loop(toks, i as int, itemsv0, 0) == Result::<
                                            Seq<GrammarItemView>,
                                            ParseErrorView,
                                        >::Err(e@));
                                    }
                                    return Result::Err(e);
                                }
                            },
                            LexItem::Word(wv) => {
                                let mut meta: Vec<Vec<char>> = Vec::new();
                                let is_param = is_param_word(wv);
                                let tag: Vec<char>;
                                if is_param {
                                    let wl = wv.len();
                                    match find_char_at(wv, '[') {
                                        Option::Some(k) => {
                                            proof {
                                                assert(k < wl);
                                            }
                                            if vec_suffix_matches(wv, k + 1, "in]") {
                                                meta.push(word_of("in"));
                                                proof {
                                                    assert(word_views(meta@) =~= seq!["in"@]);
                                                }
                                            } else if vec_suffix_matches(wv, k + 1, "out]") {
                                                meta.push(word_of("out"));
                                                proof {
                                                    assert(word_views(meta@) =~= seq!["out"@]);
                                                }
                                            } else if vec_suffix_matches(wv, k + 1, "in,out]")
                                                || vec_suffix_matches(wv, k + 1, "out,in]") {
                                                meta.push(word_of("in"));
                                                meta.push(word_of("out"));
                                                proof {
                                                    assert(word_views(meta@) =~= seq![
                                                        "in"@,
                                                        "out"@,
                                                    ]);
                                                }
                                            } else {
                                                let suffix = suffix_vec(wv, k + 1);
                                                let found = chars_to_string(&suffix);
                                                let mut expected: Vec<String> = Vec::new();
                                                expected.push("in]".to_owned());
                                                expected.push("out]".to_owned());
                                                let e = ParseError::UnexpectedInput {
                                                    found,
                                                    expected,
                                                };
                                                proof {
                                                    assert(expected@.map_values(|s: String| s@)
                                                        =~= direction_expected());
                                                    assert(bracket_meta(wv@) == Result::<
                                                        Seq<Seq<char>>,
                                                        ParseErrorView,
                                                    >::Err(e@));
                                                    assert(notation_step(
                                                        toks,
                                                        i as int,
                                                        itemsv0,
                                                        wv@,
                                                    ) == Result::<
                                                        (Seq<GrammarItemView>, int),
                                                        ParseErrorView,
                                                    >::Err(e@));
                                                    assert(parse_loop(toks, i as int, itemsv0, 0)
                                                        == Result::<
                                                        Seq<GrammarItemView>,
                                                        ParseErrorView,
                                                    >::Err(e@));
                                                }
                                                return Result::Err(e);
                                            }
                                        },
                                        Option::None => {
                                            proof {
                                                assert(word_views(meta@) =~= Seq::<
                                                    Seq<char>,
                                                >::empty());
                                            }
                                        },
                                    }
                                    tag = word_of("param");
                                } else {
                                    tag = copy_vec(wv);
                                    proof {
                                        assert(word_views(meta@) =~= Seq::<Seq<char>>::empty());
                                    }
                                }
                                proof {
                                    assert(is_param ==> bracket_meta(wv@) == Result::<
                                        Seq<Seq<char>>,
                                        ParseErrorView,
                                    >::Ok(word_views(meta@)));
                                }
                                let strat = param_parser_of(wv);
                                let arg: Option<(usize, Vec<char>)> = match strat {
                                    ParamParser::NoArg => Option::None,
                                    ParamParser::WhitespaceArg => {
                                        let mut j = i + 2;
                                        while j < n && is_ws_token(&input[j])
                                            invariant
                                                n == input@.len(),
                                                toks == token_views(input@),
                                                toks.len() == n,
                                                i + 2 <= j <= n,
                                                find_non_ws(toks, i as int + 2) == find_non_ws(
                                                    toks,
                                                    j as int,
                                                ),
                                            decreases n - j,
                                        {
                                            proof {
                                                assert(toks[j as int] == input@[j as int]@);
                                            }
                                            j += 1;
                                        }
                                        proof {
                                            if j < n {
                                                assert(toks[j as int] == input@[j as int]@);
                                                assert(find_non_ws(toks, j as int) == j as int);
                                            }
                                        }
                                        if j < n {
                                            match &input[j] {
                                                LexItem::Word(aw) => Option::Some(
                                                    (j - i, copy_vec(aw)),
                                                ),
                                                _ => Option::None,
                                            }
                                        } else {
                                            Option::None
                                        }
                                    },
                                    ParamParser::ParenArg => {
                                        if n - i >= 5 {
                                            proof {
                                                assert(toks[i as int + 2] == input@[i as int + 2]@);
                                                assert(toks[i as int + 3] == input@[i as int + 3]@);
                                                assert(toks[i as int + 4] == input@[i as int + 4]@);
                                            }
                                            let c2 = match &input[i + 2] {
                                                LexItem::Paren(p) => *p == '{',
                                                _ => false,
                                            };
                                            let c4 = match &input[i + 4] {
                                                LexItem::Paren(p) => *p == '}',
                                                _ => false,
                                            };
                                            if c2 && c4 {
                                                match &input[i + 3] {
                                                    LexItem::Word(aw) => Option::Some(
                                                        (4, copy_vec(aw)),
                                                    ),
                                                    _ => Option::None,
                                                }
                                            } else {
                                                Option::None
                                            }
                                        } else {
                                            Option::None
                                        }
                                    },
                                };
                                proof {
                                    assert(match arg {
                                        Option::Some((s, w)) => find_arg(toks, i as int, strat)
                                            == Option::Some((s as int, w@)),
                                        Option::None => find_arg(toks, i as int, strat) is None,
                                    });
                                }
                                let mut params: Vec<Vec<char>> = Vec::new();
                                let sk: usize;
                                match arg {
                                    Option::Some((s, warg)) => {
                                        sk = s;
                                        params.push(warg);
                                    },
                                    Option::None => {
                                        sk = 1;
                                    },
                                }
                                let is_endcode = vec_matches_str(&tag, "endcode");
                                let ghost tagv = tag@;
                                let ghost metav = word_views(meta@);
                                let ghost paramsv = word_views(params@);
                                proof {
                                    assert(match find_arg(toks, i as int, strat) {
                                        Option::Some((s, w)) => paramsv =~= seq![w],
                                        Option::None => paramsv =~= Seq::<Seq<char>>::empty(),
                                    });
                                }
                                items.push(GrammarItem::Notation { meta, params, tag });
                                if is_endcode {
                                    items.push(GrammarItem::Text(Vec::new()));
                                }
                                skip = sk;
                                proof {
                                    assert(strat == strategy_of(wv@));
                                    assert(tagv == if is_param_keyword(wv@) {
                                        "param"@
                                    } else {
                                        wv@
                                    });
                                    assert(notation_items(
                                        toks,
                                        i as int,
                                        itemsv0,
                                        metav,
                                        tagv,
                                        strat,
                                    ) == (item_views(items@), sk as int));
                                    assert(notation_step(toks, i as int, itemsv0, wv@) == Result::<
                                        (Seq<GrammarItemView>, int),
                                        ParseErrorView,
                                    >::Ok((item_views(items@), sk as int)));
                                    assert(parse_loop(toks, i as int, itemsv0, 0) == parse_loop(
                                        toks,
                                        i as int + 1,
                                        item_views(items@),
                                        sk as int,
                                    ));
                                }
                            },
                            _ => {
                                proof {
                                    assert(parse_loop(toks, i as int, itemsv0, 0) == parse_loop(
                                        toks,
                                        i as int + 1,
                                        item_views(items@),
                                        0,
                                    ));
                                }
                            },
                        }
                    } else {
                        proof {
                            assert(parse_loop(toks, i as int, itemsv0, 0) == parse_loop(
                                toks,
                                i as int + 1,
                                item_views(items@),
                                0,
                            ));
                        }
                    }
                },
                LexItem::Word(wv) => {
                    let mut appended = false;
                    if items.len() > 0 {
                        let ghost pre = items@;
                        let last = items.pop().unwrap();
                        proof {
                            assert(items@ =~= pre.drop_last());
                            assert(itemsv0.last() == pre.last()@);
                        }
                        match last {
                            GrammarItem::Text(mut t) => {
                                crate::lexer::push_all(&mut t, wv);
                                items.push(GrammarItem::Text(t));
                                appended = true;
                            },
                            other => {
                                items.push(other);
                                proof {
                                    assert(items@ =~= pre);
                                }
                            },
                        }
                    }
                    if !appended {
                        items.push(GrammarItem::Text(copy_vec(wv)));
                        proof {
                            assert(item_views(items@) == itemsv0.push(GrammarItemView::Text(wv@)));
                        }
                    }
                    proof {
                        assert(parse_loop(toks, i as int, itemsv0, 0) == parse_loop(
                            toks,
                            i as int + 1,
                            item_views(items@),
                            0,
                        ));
                    }
                },
                LexItem::Whitespace(_) => {
                    if items.len() > 0 {
                        let ghost pre = items@;
                        let last = items.pop().unwrap();
                        proof {
                            assert(items@ =~= pre.drop_last());
                            assert(itemsv0.last() == pre.last()@);
                        }
                        match last {
                            GrammarItem::Text(mut t) => {
                                t.push(' ');
                                items.push(GrammarItem::Text(t));
                            },
                            GrammarItem::Notation { meta, params, tag } => {
                                let has_params = params.len() > 0;
                                items.push(GrammarItem::Notation { meta, params, tag });
                                proof {
                                    assert(items@ =~= pre);
                                }
                                if has_params {
                                    let mut t: Vec<char> = Vec::new();
                                    t.push(' ');
                                    items.push(GrammarItem::Text(t));
                                    proof {
                                        assert(t@ =~= seq![' ']);
                                    }
                                } else {
                                    let t: Vec<char> = Vec::new();
                                    items.push(GrammarItem::Text(t));
                                }
                            },
                            other => {
                                items.push(other);
                                proof {
                                    assert(items@ =~= pre);
                                }
                                items.push(GrammarItem::Text(Vec::new()));
                            },
                        }
                    } else {
                        let mut t: Vec<char> = Vec::new();
                        t.push(' ');
                        items.push(GrammarItem::Text(t));
                        proof {
                            assert(t@ =~= seq![' ']);
                        }
                    }
                    proof {
                        assert(parse_loop(toks, i as int, itemsv0, 0) == parse_loop(
                            toks,
                            i as int + 1,
                            item_views(items@),
                            0,
                        ));
                    }
                },
                LexItem::NewLine => {
                    if items.len() > 0 {
                        let ghost pre = items@;
                        let last = items.pop().unwrap();
                        proof {
                            assert(items@ =~= pre.drop_last());
                            assert(itemsv0.last() == pre.last()@);
                        }
                        match last {
                            GrammarItem::Text(mut t) => {
                                t.push('\n');
                                items.push(GrammarItem::Text(t));
                            },
                            other => {
                                items.push(other);
                                proof {
                                    assert(items@ =~= pre);
                                }
                            },
                        }
                    }
                    proof {
                        assert(parse_loop(toks, i as int, itemsv0, 0) == parse_loop(
                            toks,
                            i as int + 1,
                            item_views(items@),
                            0,
                        ));
                    }
                },
                LexItem::Paren(pv) => {
                    let pv = *pv;
                    if items.len() > 0 {
                        let ghost pre = items@;
                        let last = items.pop().unwrap();
                        proof {
                            assert(items@ =~= pre.drop_last());
                            assert(itemsv0.last() == pre.last()@);
                        }
                        match last {
                            GrammarItem::Text(mut t) => {
                                t.push(pv);
                                items.push(GrammarItem::Text(t));
                            },
                            other => {
                                items.push(other);
                                proof {
                                    assert(items@ =~= pre);
                                }
                            },
                        }
                    }
                    proof {
                        assert(parse_loop(toks, i as int, itemsv0, 0) == parse_loop(
                            toks,
                            i as int + 1,
                            item_views(items@),
                            0,
                        ));
                    }
                },
            }
        }
        i += 1;
    }
    proof {
        assert(parse_loop(toks, n as int, item_views(items@), skip as int) == Result::<
            Seq<GrammarItemView>,
            ParseErrorView,
        >::Ok(item_views(items@)));
    }
    Result::Ok(items)
}

/// Lexes `input` and parses the resulting token stream; the result is
/// exactly `parse_spec` of the input's characters.
pub fn parse(input: &str) -> (r: Result<Vec<GrammarItem>, ParseError>)
    ensures
        match r {
            Result::Ok(items) => parse_spec(input@) == Result::<
                Seq<GrammarItemView>,
                ParseErrorView,
            >::Ok(item_views(items@)),
            Result::Err(e) => parse_spec(input@) == Result::<
                Seq<GrammarItemView>,
                ParseErrorView,
            >::Err(e@),
        },
{
    let lexed = lex(input);
    parse_items(lexed)
}

} // verus!
