//! Lexical analysis: a single forward scan that segments raw comment text
//! into typed tokens. Runs of contiguous characters of the same class
//! (whitespace, word characters, escape characters) are merged into the
//! previously emitted token, so the token sequence partitions the input.

use vstd::prelude::*;

verus! {

/// Mathematical model of a lexical token: each text-bearing variant
/// carries the token's literal character sequence.
pub enum LexItemView {
    At(Seq<char>),
    Paren(char),
    Word(Seq<char>),
    Whitespace(Seq<char>),
    NewLine,
}

/// A lexical token.
///
/// `At` holds either one annotation-introducer character (`@`) or a run of
/// consecutive escape characters (`\`); the parser treats both uniformly.
/// `Paren` holds a single structural delimiter. `Word` and `Whitespace`
/// hold maximal runs of their character classes, and `NewLine` stands for
/// exactly one newline character.
#[derive(Debug, Clone, PartialEq, Eq)]
pub enum LexItem {
    At(Vec<char>),
    Paren(char),
    Word(Vec<char>),
    Whitespace(Vec<char>),
    NewLine,
}

impl View for LexItem {
    type V = LexItemView;

    open spec fn view(&self) -> LexItemView {
        match self {
            LexItem::At(w) => LexItemView::At(w@),
            LexItem::Paren(c) => LexItemView::Paren(*c),
            LexItem::Word(w) => LexItemView::Word(w@),
            LexItem::Whitespace(w) => LexItemView::Whitespace(w@),
            LexItem::NewLine => LexItemView::NewLine,
        }
    }
}

impl LexItemView {
    /// The literal text this token stands for in the source buffer.
    pub open spec fn text(self) -> Seq<char> {
        match self {
            LexItemView::At(w) => w,
            LexItemView::Paren(c) => seq![c],
            LexItemView::Word(w) => w,
            LexItemView::Whitespace(w) => w,
            LexItemView::NewLine => seq!['\n'],
        }
    }
}

/// The models of a sequence of tokens.
pub open spec fn token_views(ts: Seq<LexItem>) -> Seq<LexItemView> {
    ts.map_values(|t: LexItem| t@)
}

/// Concatenation of the literal text of every token, in order.
pub open spec fn tokens_text(ts: Seq<LexItemView>) -> Seq<char>
    decreases ts.len(),
{
    if ts.len() == 0 {
        Seq::empty()
    } else {
        tokens_text(ts.drop_last()) + ts.last().text()
    }
}

/// Space or tab; a newline is not whitespace here but its own token.
pub open spec fn is_space_char(c: char) -> bool {
    c == ' ' || c == '\t'
}

/// A character that belongs to a `Word` run: anything that is not the
/// introducer, the escape character, a delimiter, whitespace, or newline.
pub open spec fn is_word_char(c: char) -> bool {
    c != '@' && c != '\\' && c != '{' && c != '}' && c != ' ' && c != '\t' && c != '\n'
}

/// A marker token whose stored text consists entirely of escape characters.
pub open spec fn is_escape_run(t: LexItemView) -> bool {
    &&& t is At
    &&& t->At_0.len() > 0
    &&& forall|i: int| 0 <= i < t->At_0.len() ==> t->At_0[i] == '\\'
}

/// One step of the lexer: how the token list grows, or its last token
/// extends, when one more character is read.
pub open spec fn lex_step(acc: Seq<LexItemView>, c: char) -> Seq<LexItemView> {
    if c == '@' {
        acc.push(LexItemView::At(seq![c]))
    } else if c == '\\' {
        if acc.len() > 0 && is_escape_run(acc.last()) {
            acc.drop_last().push(LexItemView::At(acc.last()->At_0.push(c)))
        } else {
            acc.push(LexItemView::At(seq![c]))
        }
    } else if c == '{' || c == '}' {
        acc.push(LexItemView::Paren(c))
    } else if is_space_char(c) {
        if acc.len() > 0 && acc.last() is Whitespace {
            acc.drop_last().push(LexItemView::Whitespace(acc.last()->Whitespace_0.push(c)))
        } else {
            acc.push(LexItemView::Whitespace(seq![c]))
        }
    } else if c == '\n' {
        acc.push(LexItemView::NewLine)
    } else {
        if acc.len() > 0 && acc.last() is Word {
            acc.drop_last().push(LexItemView::Word(acc.last()->Word_0.push(c)))
        } else {
            acc.push(LexItemView::Word(seq![c]))
        }
    }
}

/// The token sequence for a whole input, built character by character.
pub open spec fn lex_spec(s: Seq<char>) -> Seq<LexItemView>
    decreases s.len(),
{
    if s.len() == 0 {
        Seq::empty()
    } else {
        lex_step(lex_spec(s.drop_last()), s.last())
    }
}

impl LexItem {
    /// Appends this token's literal text to `acc`.
    pub fn push_to(&self, acc: &mut Vec<char>)
        ensures
            final(acc)@ == old(acc)@ + self@.text(),
    {
        match self {
            LexItem::At(w) => push_all(acc, w),
            LexItem::Paren(c) => {
                acc.push(*c);
                proof {
                    assert(final(acc)@ =~= old(acc)@ + self@.text());
                }
            },
            LexItem::Word(w) => push_all(acc, w),
            LexItem::Whitespace(w) => push_all(acc, w),
            LexItem::NewLine => {
                acc.push('\n');
                proof {
                    assert(final(acc)@ =~= old(acc)@ + self@.text());
                }
            },
        }
    }
}

/// Appends every character of `w` to `acc`, in order.
pub fn push_all(acc: &mut Vec<char>, w: &Vec<char>)
    ensures
        final(acc)@ == old(acc)@ + w@,
{
    let mut i: usize = 0;
    while i < w.len()
        invariant
            i <= w@.len(),
            acc@ == old(acc)@ + w@.take(i as int),
        decreases w@.len() - i,
    {
        acc.push(w[i]);
        proof {
            assert(w@.take(i as int).push(w@[i as int]) =~= w@.take(i + 1));
            assert(acc@ =~= old(acc)@ + w@.take(i + 1));
        }
        i += 1;
    }
    proof {
        assert(w@.take(w@.len() as int) =~= w@);
    }
}

/// True when every stored character is the escape character.
fn all_escapes(w: &Vec<char>) -> (r: bool)
    ensures
        r == (w@.len() > 0 && forall|i: int| 0 <= i < w@.len() ==> w@[i] == '\\'),
{
    if w.len() == 0 {
        return false;
    }
    let mut i: usize = 0;
    while i < w.len()
        invariant
            i <= w@.len(),
            forall|k: int| 0 <= k < i ==> w@[k] == '\\',
        decreases w@.len() - i,
    {
        if w[i] != '\\' {
            return false;
        }
        i += 1;
    }
    true
}

/// Scans `input` left to right and returns its token sequence.
///
/// Total: every character lands in some token, and the tokens partition
/// the input (see `lemma_lex_lossless`).
pub fn lex(input: &str) -> (r: Vec<LexItem>)
    ensures
        token_views(r@) == lex_spec(input@),
{
    broadcast use lemma_token_views_push, lemma_token_views_pop_push;

    let n = input.unicode_len();
    let mut result: Vec<LexItem> = Vec::new();
    let mut i: usize = 0;
    while i < n
        invariant
            n == input@.len(),
            i <= n,
            token_views(result@) == lex_spec(input@.take(i as int)),
        decreases n - i,
    {
        let ghost pre = result@;
        let ghost acc = token_views(result@);
        let c = input.get_char(i);
        proof {
            assert(input@.take(i + 1).drop_last() =~= input@.take(i as int));
            assert(input@.take(i + 1).last() == input@[i as int]);
            assert(lex_spec(input@.take(i + 1)) == lex_step(acc, c));
        }
        if c == '@' {
            let mut w: Vec<char> = Vec::new();
            w.push(c);
            result.push(LexItem::At(w));
            proof {
                assert(w@ =~= seq![c]);
            }
        } else if c == '\\' {
            let mut merged = false;
            if result.len() > 0 {
                let last = result.pop().unwrap();
                match last {
                    LexItem::At(mut w) => {
                        if all_escapes(&w) {
                            proof {
                                assert(pre.last()@ == LexItemView::At(w@));
                                assert(is_escape_run(acc.last()));
                            }
                            w.push(c);
                            result.push(LexItem::At(w));
                            merged = true;
                        } else {
                            result.push(LexItem::At(w));
                            proof {
                                assert(result@ =~= pre);
                            }
                        }
                    },
                    other => {
                        result.push(other);
                        proof {
                            assert(result@ =~= pre);
                            assert(!is_escape_run(acc.last()));
                        }
                    },
                }
            }
            if !merged {
                let mut w: Vec<char> = Vec::new();
                w.push(c);
                result.push(LexItem::At(w));
                proof {
                    assert(w@ =~= seq![c]);
                }
            }
        } else if c == '{' || c == '}' {
            result.push(LexItem::Paren(c));
        } else if c == ' ' || c == '\t' {
            let mut merged = false;
            if result.len() > 0 {
                let last = result.pop().unwrap();
                match last {
                    LexItem::Whitespace(mut w) => {
                        proof {
                            assert(acc.last() is Whitespace);
                        }
                        w.push(c);
                        result.push(LexItem::Whitespace(w));
                        merged = true;
                    },
                    other => {
                        result.push(other);
                        proof {
                            assert(result@ =~= pre);
                            assert(!(acc.last() is Whitespace));
                        }
                    },
                }
            }
            if !merged {
                let mut w: Vec<char> = Vec::new();
                w.push(c);
                result.push(LexItem::Whitespace(w));
                proof {
                    assert(w@ =~= seq![c]);
                }
            }
        } else if c == '\n' {
            result.push(LexItem::NewLine);
        } else {
            let mut merged = false;
            if result.len() > 0 {
                let last = result.pop().unwrap();
                match last {
                    LexItem::Word(mut w) => {
                        proof {
                            assert(acc.last() is Word);
                        }
                        w.push(c);
                        result.push(LexItem::Word(w));
                        merged = true;
                    },
                    other => {
                        result.push(other);
                        proof {
                            assert(result@ =~= pre);
                            assert(!(acc.last() is Word));
                        }
                    },
                }
            }
            if !merged {
                let mut w: Vec<char> = Vec::new();
                w.push(c);
                result.push(LexItem::Word(w));
                proof {
                    assert(w@ =~= seq![c]);
                }
            }
        }
        proof {
            assert(token_views(result@) == lex_step(acc, c));
        }
        i += 1;
    }
    proof {
        assert(input@.take(n as int) =~= input@);
    }
    result
}

/// Pushing a token onto a list appends its model to the list of models.
pub broadcast proof fn lemma_token_views_push(ts: Seq<LexItem>, t: LexItem)
    ensures
        #[trigger] token_views(ts.push(t)) == token_views(ts).push(t@),
{
    assert(token_views(ts.push(t)) =~= token_views(ts).push(t@));
}

/// Replacing the last token (pop, then push) updates the last model.
pub broadcast proof fn lemma_token_views_pop_push(ts: Seq<LexItem>, t: LexItem)
    requires
        ts.len() > 0,
    ensures
        #[trigger] token_views(ts.drop_last().push(t)) == token_views(ts).drop_last().push(t@),
{
    assert(token_views(ts.drop_last().push(t)) =~= token_views(ts).drop_last().push(t@));
}

/// Appending one token's text to accumulated text.
proof fn lemma_tokens_text_push(ts: Seq<LexItemView>, t: LexItemView)
    ensures
        tokens_text(ts.push(t)) == tokens_text(ts) + t.text(),
{
    assert(ts.push(t).drop_last() =~= ts);
    assert(ts.push(t).last() == t);
}

/// One lexer step appends exactly the character read to the
/// concatenated token text.
proof fn lemma_lex_step_text(acc: Seq<LexItemView>, c: char)
    ensures
        tokens_text(lex_step(acc, c)) == tokens_text(acc) + seq![c],
{
    let r = lex_step(acc, c);
    if c == '\\' && acc.len() > 0 && is_escape_run(acc.last()) {
        let t = LexItemView::At(acc.last()->At_0.push(c));
        lemma_tokens_text_push(acc.drop_last(), t);
        assert(t.text() =~= acc.last().text() + seq![c]);
        assert(tokens_text(acc.drop_last()) + (acc.last().text() + seq![c]) =~= (tokens_text(
            acc.drop_last(),
        ) + acc.last().text()) + seq![c]);
    } else if is_space_char(c) && acc.len() > 0 && acc.last() is Whitespace {
        let t = LexItemView::Whitespace(acc.last()->Whitespace_0.push(c));
        lemma_tokens_text_push(acc.drop_last(), t);
        assert(t.text() =~= acc.last().text() + seq![c]);
        assert(tokens_text(acc.drop_last()) + (acc.last().text() + seq![c]) =~= (tokens_text(
            acc.drop_last(),
        ) + acc.last().text()) + seq![c]);
    } else if c != '@' && c != '\\' && c != '{' && c != '}' && !is_space_char(c) && c != '\n'
        && acc.len() > 0 && acc.last() is Word {
        let t = LexItemView::Word(acc.last()->Word_0.push(c));
        lemma_tokens_text_push(acc.drop_last(), t);
        assert(t.text() =~= acc.last().text() + seq![c]);
        assert(tokens_text(acc.drop_last()) + (acc.last().text() + seq![c]) =~= (tokens_text(
            acc.drop_last(),
        ) + acc.last().text()) + seq![c]);
    } else {
        assert(r.drop_last() =~= acc);
        assert(r.last().text() =~= seq![c]);
    }
}

/// Lossless tokenization: for every input, concatenating the literal text
/// of the emitted tokens, in order, reproduces the input exactly.
pub proof fn lemma_lex_lossless(s: Seq<char>)
    ensures
        tokens_text(lex_spec(s)) == s,
    decreases s.len(),
{
    if s.len() == 0 {
        assert(tokens_text(lex_spec(s)) =~= s);
    } else {
        lemma_lex_lossless(s.drop_last());
        lemma_lex_step_text(lex_spec(s.drop_last()), s.last());
        assert(s.drop_last() + seq![s.last()] =~= s);
    }
}

/// Idempotent re-lexing: lexing the text reconstructed from a prior lex
/// pass yields the same token sequence as that pass.
pub proof fn lemma_relex_idempotent(s: Seq<char>)
    ensures
        lex_spec(tokens_text(lex_spec(s))) == lex_spec(s),
{
    lemma_lex_lossless(s);
}

/// Every delimiter token in the sequence holds one of the two group
/// delimiters.
pub open spec fn group_parens_only(ts: Seq<LexItemView>) -> bool {
    forall|k: int|
        0 <= k < ts.len() ==> ((#[trigger] ts[k]) matches LexItemView::Paren(c) ==> c == '{' || c
            == '}')
}

/// The lexer emits delimiter tokens only for the two group delimiters.
pub proof fn lemma_lex_parens(s: Seq<char>)
    ensures
        group_parens_only(lex_spec(s)),
    decreases s.len(),
{
    if s.len() == 0 {
    } else {
        lemma_lex_parens(s.drop_last());
        let acc = lex_spec(s.drop_last());
        let c = s.last();
        let r = lex_spec(s);
        assert(r == lex_step(acc, c));
        assert forall|k: int|
            0 <= k < r.len() implies ((#[trigger] r[k]) matches LexItemView::Paren(p) ==> p == '{'
            || p == '}') by {
            if k < acc.len() - 1 {
                assert(acc[k] matches LexItemView::Paren(p) ==> p == '{' || p == '}');
                assert(r[k] == acc[k]);
            } else if k < acc.len() {
                assert(acc[k] matches LexItemView::Paren(p) ==> p == '{' || p == '}');
            }
        }
    }
}

/// Appending a run of word characters to an input whose last token is
/// not a word token extends the token sequence by exactly one word token
/// holding the run.
pub proof fn lemma_lex_word_run(s: Seq<char>, w: Seq<char>)
    requires
        w.len() > 0,
        forall|i: int| 0 <= i < w.len() ==> is_word_char(#[trigger] w[i]),
        lex_spec(s).len() == 0 || !(lex_spec(s).last() is Word),
    ensures
        lex_spec(s + w) == lex_spec(s).push(LexItemView::Word(w)),
    decreases w.len(),
{
    if w.len() == 1 {
        assert((s + w).drop_last() =~= s);
        assert((s + w).last() == w[0]);
        assert(lex_spec(s + w) == lex_step(lex_spec(s), w[0]));
        assert(is_word_char(w[0]));
        assert(lex_spec(s + w) == lex_spec(s).push(LexItemView::Word(seq![w[0]])));
        assert(seq![w[0]] =~= w);
    } else {
        lemma_lex_word_run(s, w.drop_last());
        assert((s + w).drop_last() =~= s + w.drop_last());
        assert((s + w).last() == w.last());
        let acc = lex_spec(s).push(LexItemView::Word(w.drop_last()));
        assert(lex_spec(s + w) == lex_step(acc, w.last()));
        assert(acc.last() is Word);
        assert(is_word_char(w.last()));
        assert(lex_spec(s + w) == acc.drop_last().push(
            LexItemView::Word(w.drop_last().push(w.last())),
        ));
        assert(acc.drop_last() =~= lex_spec(s));
        assert(w.drop_last().push(w.last()) =~= w);
    }
}

/// Appending a run of spaces and tabs to an input whose last token is not
/// a whitespace token extends the token sequence by exactly one
/// whitespace token holding the run.
pub proof fn lemma_lex_space_run(s: Seq<char>, u: Seq<char>)
    requires
        u.len() > 0,
        forall|i: int| 0 <= i < u.len() ==> is_space_char(#[trigger] u[i]),
        lex_spec(s).len() == 0 || !(lex_spec(s).last() is Whitespace),
    ensures
        lex_spec(s + u) == lex_spec(s).push(LexItemView::Whitespace(u)),
    decreases u.len(),
{
    if u.len() == 1 {
        assert((s + u).drop_last() =~= s);
        assert((s + u).last() == u[0]);
        assert(lex_spec(s + u) == lex_step(lex_spec(s), u[0]));
        assert(is_space_char(u[0]));
        assert(lex_spec(s + u) == lex_spec(s).push(LexItemView::Whitespace(seq![u[0]])));
        assert(seq![u[0]] =~= u);
    } else {
        lemma_lex_space_run(s, u.drop_last());
        assert((s + u).drop_last() =~= s + u.drop_last());
        assert((s + u).last() == u.last());
        let acc = lex_spec(s).push(LexItemView::Whitespace(u.drop_last()));
        assert(lex_spec(s + u) == lex_step(acc, u.last()));
        assert(acc.last() is Whitespace);
        assert(is_space_char(u.last()));
        assert(lex_spec(s + u) == acc.drop_last().push(
            LexItemView::Whitespace(u.drop_last().push(u.last())),
        ));
        assert(acc.drop_last() =~= lex_spec(s));
        assert(u.drop_last().push(u.last()) =~= u);
    }
}

/// Escape-run merging: two consecutive escape characters followed by a
/// run of word characters lex to a single two-character marker token and
/// one word token, not two separate marker tokens.
pub proof fn lemma_escape_run_merging(w: Seq<char>)
    requires
        w.len() > 0,
        forall|i: int| 0 <= i < w.len() ==> is_word_char(#[trigger] w[i]),
    ensures
        lex_spec(seq!['\\', '\\'] + w) == seq![
            LexItemView::At(seq!['\\', '\\']),
            LexItemView::Word(w),
        ],
    decreases w.len(),
{
    let s = seq!['\\', '\\'] + w;
    if w.len() == 1 {
        let s1 = seq!['\\'];
        let s2 = seq!['\\', '\\'];
        assert(s1.drop_last() =~= Seq::<char>::empty());
        assert(lex_spec(Seq::<char>::empty()) == Seq::<LexItemView>::empty());
        assert(s1.last() == '\\');
        assert(lex_spec(s1) == lex_step(Seq::empty(), '\\'));
        assert(lex_spec(s1) =~= seq![LexItemView::At(seq!['\\'])]);
        assert(s2.drop_last() =~= s1);
        assert(lex_spec(s2) == lex_step(lex_spec(s1), '\\'));
        assert(is_escape_run(lex_spec(s1).last()));
        assert(lex_spec(s2) =~= seq![LexItemView::At(seq!['\\'].push('\\'))]);
        assert(seq!['\\'].push('\\') =~= seq!['\\', '\\']);
        assert(s.drop_last() =~= s2);
        assert(s.last() == w[0]);
        assert(lex_spec(s) == lex_step(lex_spec(s2), w[0]));
        assert(is_word_char(w[0]));
        assert(lex_spec(s) =~= seq![
            LexItemView::At(seq!['\\', '\\']),
            LexItemView::Word(seq![w[0]]),
        ]);
        assert(seq![w[0]] =~= w);
    } else {
        lemma_escape_run_merging(w.drop_last());
        assert(s.drop_last() =~= seq!['\\', '\\'] + w.drop_last());
        assert(s.last() == w.last());
        assert(lex_spec(s) == lex_step(lex_spec(seq!['\\', '\\'] + w.drop_last()), w.last()));
        let prev = seq![LexItemView::At(seq!['\\', '\\']), LexItemView::Word(w.drop_last())];
        assert(prev.last() is Word);
        assert(is_word_char(w.last()));
        assert(lex_spec(s) =~= seq![
            LexItemView::At(seq!['\\', '\\']),
            LexItemView::Word(w.drop_last().push(w.last())),
        ]);
        assert(w.drop_last().push(w.last()) =~= w);
    }
}

} // verus!
