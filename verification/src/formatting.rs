use vstd::prelude::*;
use colored::{Color, Style, Styles};
use std::num::ParseIntError;

verus! {

/// A lexical unit of the markup language.
#[derive(Debug, PartialEq)]
pub enum Token {
    OpenContent,
    CloseContent,
    OpenStyle,
    CloseStyle,
    Literal(String),
}

/// The mathematical value of a token: a literal is seen as its characters.
pub enum TokenView {
    OpenContent,
    CloseContent,
    OpenStyle,
    CloseStyle,
    Literal(Seq<char>),
}

impl View for Token {
    type V = TokenView;

    open spec fn view(&self) -> TokenView {
        match self {
            Token::OpenContent => TokenView::OpenContent,
            Token::CloseContent => TokenView::CloseContent,
            Token::OpenStyle => TokenView::OpenStyle,
            Token::CloseStyle => TokenView::CloseStyle,
            Token::Literal(s) => TokenView::Literal(s@),
        }
    }
}

pub open spec fn tokens_view(tokens: Seq<Token>) -> Seq<TokenView> {
    tokens.map_values(|t: Token| t@)
}

/// The four characters that structure a format string unless escaped.
pub open spec fn is_bracket(c: char) -> bool {
    c == '(' || c == ')' || c == '[' || c == ']'
}

pub open spec fn bracket_token(c: char) -> TokenView {
    if c == '(' {
        TokenView::OpenContent
    } else if c == ')' {
        TokenView::CloseContent
    } else if c == '[' {
        TokenView::OpenStyle
    } else {
        TokenView::CloseStyle
    }
}

/// The tokenizer's state after some prefix of the input: the tokens emitted,
/// the literal text not yet emitted, and whether the last char was an
/// unconsumed backslash.
pub struct LexState {
    pub tokens: Seq<TokenView>,
    pub pending: Seq<char>,
    pub escaping: bool,
}

/// Emits the pending literal text, if there is any.
pub open spec fn flush(tokens: Seq<TokenView>, pending: Seq<char>) -> Seq<TokenView> {
    if pending.len() > 0 {
        tokens.push(TokenView::Literal(pending))
    } else {
        tokens
    }
}

pub open spec fn lex_step(st: LexState, c: char) -> LexState {
    if is_bracket(c) && !st.escaping {
        LexState {
            tokens: flush(st.tokens, st.pending).push(bracket_token(c)),
            pending: Seq::empty(),
            escaping: false,
        }
    } else if c == '\\' && !st.escaping {
        LexState { tokens: st.tokens, pending: st.pending, escaping: true }
    } else {
        LexState { tokens: st.tokens, pending: st.pending.push(c), escaping: false }
    }
}

pub open spec fn lex_prefix(s: Seq<char>) -> LexState
    decreases s.len(),
{
    if s.len() == 0 {
        LexState { tokens: Seq::empty(), pending: Seq::empty(), escaping: false }
    } else {
        lex_step(lex_prefix(s.drop_last()), s.last())
    }
}

/// The tokens of a whole input string.
pub open spec fn spec_tokenize(s: Seq<char>) -> Seq<TokenView> {
    flush(lex_prefix(s).tokens, lex_prefix(s).pending)
}

/// The char `c` written so that it reads as itself: a backslash goes before
/// each bracket and before a backslash.
pub open spec fn escape_char(c: char) -> Seq<char> {
    if is_bracket(c) || c == '\\' {
        seq!['\\', c]
    } else {
        seq![c]
    }
}

/// The text `t` written so that every char reads as itself.
pub open spec fn escape(t: Seq<char>) -> Seq<char>
    decreases t.len(),
{
    if t.len() == 0 {
        Seq::empty()
    } else {
        escape(t.drop_last()) + escape_char(t.last())
    }
}

/// Reading escaped text after a prefix that ends outside an escape adds the
/// text to the pending literal.
proof fn lemma_lex_escaped(s: Seq<char>, t: Seq<char>)
    requires
        !lex_prefix(s).escaping,
    ensures
        lex_prefix(s + escape(t)) == (LexState {
            tokens: lex_prefix(s).tokens,
            pending: lex_prefix(s).pending + t,
            escaping: false,
        }),
    decreases t.len(),
{
    let st = lex_prefix(s);
    if t.len() > 0 {
        let init = t.drop_last();
        let c = t.last();
        lemma_lex_escaped(s, init);
        let e0 = s + escape(init);
        assert(st.pending + init.push(c) =~= (st.pending + init).push(c));
        assert(init.push(c) =~= t);
        if is_bracket(c) || c == '\\' {
            let e1 = e0.push('\\');
            assert(e1.drop_last() =~= e0);
            assert(lex_prefix(e1) == (LexState {
                tokens: st.tokens,
                pending: st.pending + init,
                escaping: true,
            }));
            assert(s + escape(t) =~= e1.push(c));
            assert(e1.push(c).drop_last() =~= e1);
            assert(lex_prefix(e1.push(c)) == lex_step(lex_prefix(e1), c));
        } else {
            assert(s + escape(t) =~= e0.push(c));
            assert(e0.push(c).drop_last() =~= e0);
            assert(lex_prefix(e0.push(c)) == lex_step(lex_prefix(e0), c));
        }
    } else {
        assert(escape(t) =~= Seq::<char>::empty());
        assert(s + escape(t) =~= s);
        assert(st.pending + t =~= st.pending);
    }
}

/// Escaped text is literal: it tokenizes to one literal holding exactly the
/// text, and parses to one plain-text node (to nothing, if it is empty).
pub proof fn lemma_escaped_text_is_literal(t: Seq<char>)
    ensures
        t.len() > 0 ==> spec_tokenize(escape(t)) == seq![TokenView::Literal(t)],
        spec_format_string(escape(t)) == Outcome::Done(
            if t.len() > 0 {
                seq![NodeView::Text(t)]
            } else {
                Seq::<NodeView>::empty()
            },
        ),
{
    lemma_lex_escaped(Seq::empty(), t);
    assert(Seq::<char>::empty() + escape(t) =~= escape(t));
    assert(Seq::<char>::empty() + t =~= t);
    let toks = spec_tokenize(escape(t));
    if t.len() > 0 {
        assert(toks =~= seq![TokenView::Literal(t)]);
        assert(Seq::<NodeView>::empty().push(NodeView::Text(t)) =~= seq![NodeView::Text(t)]);
        assert(spec_parse_from(toks, 1, seq![NodeView::Text(t)]) == Outcome::Done(seq![NodeView::Text(t)]));
    } else {
        assert(toks =~= Seq::<TokenView>::empty());
    }
}

/// Token sequences in which every literal holds some text and no two
/// literals are next to each other.
pub open spec fn literals_maximal(toks: Seq<TokenView>) -> bool {
    &&& forall|i: int|
        0 <= i < toks.len() ==> (#[trigger] toks[i] matches TokenView::Literal(l) ==> l.len() > 0)
    &&& forall|i: int|
        0 <= i < toks.len() - 1 ==> !(#[trigger] toks[i] is Literal && toks[i + 1] is Literal)
}

proof fn lemma_lex_maximal(s: Seq<char>)
    ensures
        literals_maximal(lex_prefix(s).tokens),
        lex_prefix(s).tokens.len() > 0 ==> !(lex_prefix(s).tokens.last() is Literal),
    decreases s.len(),
{
    if s.len() > 0 {
        lemma_lex_maximal(s.drop_last());
        let st = lex_prefix(s.drop_last());
        let c = s.last();
        if is_bracket(c) && !st.escaping {
            let f = flush(st.tokens, st.pending);
            let r = f.push(bracket_token(c));
            assert(literals_maximal(f)) by {
                if st.pending.len() > 0 {
                    assert forall|i: int| 0 <= i < f.len() - 1 implies !(#[trigger] f[i] is Literal
                        && f[i + 1] is Literal) by {
                        if i + 1 < st.tokens.len() {
                            assert(f[i] == st.tokens[i]);
                            assert(f[i + 1] == st.tokens[i + 1]);
                        } else {
                            assert(f[i] == st.tokens.last());
                        }
                    }
                }
            }
            assert(literals_maximal(r)) by {
                assert forall|i: int| 0 <= i < r.len() - 1 implies !(#[trigger] r[i] is Literal
                    && r[i + 1] is Literal) by {
                    if i + 1 < f.len() {
                        assert(r[i] == f[i]);
                        assert(r[i + 1] == f[i + 1]);
                    }
                }
                assert forall|i: int| 0 <= i < r.len() implies (#[trigger] r[i] matches TokenView::Literal(
                    l,
                ) ==> l.len() > 0) by {
                    if i < f.len() {
                        assert(r[i] == f[i]);
                    }
                }
            }
        }
    }
}

/// Literal runs are maximal: every literal token holds some text, and no two
/// literal tokens are adjacent.
pub proof fn lemma_tokens_maximal(s: Seq<char>)
    ensures
        literals_maximal(spec_tokenize(s)),
{
    lemma_lex_maximal(s);
    let st = lex_prefix(s);
    let toks = spec_tokenize(s);
    if st.pending.len() > 0 {
        assert forall|i: int| 0 <= i < toks.len() - 1 implies !(#[trigger] toks[i] is Literal
            && toks[i + 1] is Literal) by {
            if i + 1 < st.tokens.len() {
                assert(toks[i] == st.tokens[i]);
                assert(toks[i + 1] == st.tokens[i + 1]);
            } else {
                assert(toks[i] == st.tokens.last());
            }
        }
        assert forall|i: int| 0 <= i < toks.len() implies (#[trigger] toks[i] matches TokenView::Literal(
            l,
        ) ==> l.len() > 0) by {
            if i < st.tokens.len() {
                assert(toks[i] == st.tokens[i]);
            }
        }
    }
}

/// A token written back as text: brackets as themselves, literals escaped.
pub open spec fn render_token(t: TokenView) -> Seq<char> {
    match t {
        TokenView::OpenContent => seq!['('],
        TokenView::CloseContent => seq![')'],
        TokenView::OpenStyle => seq!['['],
        TokenView::CloseStyle => seq![']'],
        TokenView::Literal(l) => escape(l),
    }
}

/// Tokens written back as text, one after the other.
pub open spec fn render(toks: Seq<TokenView>) -> Seq<char>
    decreases toks.len(),
{
    if toks.len() == 0 {
        Seq::empty()
    } else {
        render(toks.drop_last()) + render_token(toks.last())
    }
}

/// The tokenizer's state after reading the rendering of `toks`.
pub open spec fn rendered_state(toks: Seq<TokenView>) -> LexState {
    if toks.len() > 0 && toks.last() is Literal {
        LexState { tokens: toks.drop_last(), pending: toks.last()->Literal_0, escaping: false }
    } else {
        LexState { tokens: toks, pending: Seq::empty(), escaping: false }
    }
}

proof fn lemma_lex_rendered(toks: Seq<TokenView>)
    requires
        literals_maximal(toks),
    ensures
        lex_prefix(render(toks)) == rendered_state(toks),
    decreases toks.len(),
{
    if toks.len() > 0 {
        let init = toks.drop_last();
        let tok = toks.last();
        assert(literals_maximal(init)) by {
            assert forall|i: int| 0 <= i < init.len() - 1 implies !(#[trigger] init[i] is Literal
                && init[i + 1] is Literal) by {
                assert(init[i] == toks[i]);
                assert(init[i + 1] == toks[i + 1]);
            }
            assert forall|i: int| 0 <= i < init.len() implies (#[trigger] init[i] matches TokenView::Literal(
                l,
            ) ==> l.len() > 0) by {
                assert(init[i] == toks[i]);
            }
        }
        lemma_lex_rendered(init);
        let r0 = render(init);
        let st = lex_prefix(r0);
        assert(init.push(tok) =~= toks);
        if let TokenView::Literal(l) = tok {
            assert(toks[toks.len() - 1] == tok);
            if init.len() > 0 {
                assert(toks[init.len() - 1] == init.last());
            }
            lemma_lex_escaped(r0, l);
            assert(Seq::<char>::empty() + l =~= l);
        } else {
            let c = render_token(tok)[0];
            assert(render_token(tok) =~= seq![c]);
            assert(r0 + seq![c] =~= r0.push(c));
            assert(r0.push(c).drop_last() =~= r0);
            assert(lex_prefix(r0.push(c)) == lex_step(st, c));
            assert(bracket_token(c) == tok);
            if init.len() > 0 && init.last() is Literal {
                let l = init.last()->Literal_0;
                assert(init[init.len() - 1] == init.last());
                assert(l.len() > 0);
                assert(init.drop_last().push(init.last()) =~= init);
            }
        }
    } else {
        assert(toks =~= Seq::<TokenView>::empty());
    }
}

/// Writing tokens back as text and reading that text again gives the same
/// tokens, for every token sequence whose literals are maximal: escaping is
/// faithful, and the tokenizer reads every such sequence.
pub proof fn lemma_render_tokenize(toks: Seq<TokenView>)
    requires
        literals_maximal(toks),
    ensures
        spec_tokenize(render(toks)) == toks,
{
    lemma_lex_rendered(toks);
    if toks.len() > 0 && toks.last() is Literal {
        let l = toks.last()->Literal_0;
        assert(toks[toks.len() - 1] == toks.last());
        assert(toks.drop_last().push(toks.last()) =~= toks);
    }
}

/// Text with no brackets and no backslashes: it reads as itself, unescaped.
pub open spec fn is_plain(l: Seq<char>) -> bool {
    forall|i: int| 0 <= i < l.len() ==> !is_bracket(#[trigger] l[i]) && l[i] != '\\'
}

pub open spec fn has_no_backslash(s: Seq<char>) -> bool {
    forall|i: int| 0 <= i < s.len() ==> #[trigger] s[i] != '\\'
}

/// Tokens whose literals are all plain text.
pub open spec fn literals_plain(toks: Seq<TokenView>) -> bool {
    forall|i: int| 0 <= i < toks.len() ==> (#[trigger] toks[i] matches TokenView::Literal(l) ==> is_plain(l))
}

proof fn lemma_escape_plain(l: Seq<char>)
    requires
        is_plain(l),
    ensures
        escape(l) == l,
    decreases l.len(),
{
    if l.len() > 0 {
        assert(is_plain(l.drop_last())) by {
            assert forall|i: int| 0 <= i < l.drop_last().len() implies !is_bracket(
                #[trigger] l.drop_last()[i],
            ) && l.drop_last()[i] != '\\' by {
                assert(l.drop_last()[i] == l[i]);
            }
        }
        lemma_escape_plain(l.drop_last());
        assert(!is_bracket(l[l.len() - 1]) && l[l.len() - 1] != '\\');
        assert(l.drop_last() + seq![l.last()] =~= l);
    } else {
        assert(l =~= Seq::<char>::empty());
    }
}

proof fn lemma_render_push(toks: Seq<TokenView>, x: TokenView)
    ensures
        render(toks.push(x)) == render(toks) + render_token(x),
{
    assert(toks.push(x).drop_last() =~= toks);
}

proof fn lemma_lex_plain(s: Seq<char>)
    requires
        has_no_backslash(s),
    ensures
        !lex_prefix(s).escaping,
        is_plain(lex_prefix(s).pending),
        literals_plain(lex_prefix(s).tokens),
        render(lex_prefix(s).tokens) + lex_prefix(s).pending == s,
    decreases s.len(),
{
    if s.len() > 0 {
        let s0 = s.drop_last();
        let c = s.last();
        assert(has_no_backslash(s0)) by {
            assert forall|i: int| 0 <= i < s0.len() implies #[trigger] s0[i] != '\\' by {
                assert(s0[i] == s[i]);
            }
        }
        assert(c == s[s.len() - 1]);
        lemma_lex_plain(s0);
        let st = lex_prefix(s0);
        assert(s0.push(c) =~= s);
        if is_bracket(c) {
            let f = flush(st.tokens, st.pending);
            let b = bracket_token(c);
            lemma_render_push(f, b);
            assert(render_token(b) =~= seq![c]);
            if st.pending.len() > 0 {
                lemma_render_push(st.tokens, TokenView::Literal(st.pending));
                lemma_escape_plain(st.pending);
            } else {
                assert(st.pending =~= Seq::<char>::empty());
                assert(render(st.tokens) + st.pending =~= render(st.tokens));
            }
            assert(render(f) == s0);
            assert(s0 + seq![c] =~= s);
            assert(Seq::<char>::empty() =~= lex_prefix(s).pending);
            assert(render(lex_prefix(s).tokens) + lex_prefix(s).pending =~= render(lex_prefix(s).tokens));
            let r = f.push(b);
            assert(literals_plain(r)) by {
                assert forall|i: int| 0 <= i < r.len() implies (#[trigger] r[i] matches TokenView::Literal(
                    l,
                ) ==> is_plain(l)) by {
                    if i < st.tokens.len() {
                        assert(r[i] == st.tokens[i]);
                    }
                }
            }
        } else {
            let p = st.pending.push(c);
            assert(is_plain(p)) by {
                assert forall|i: int| 0 <= i < p.len() implies !is_bracket(#[trigger] p[i]) && p[i]
                    != '\\' by {
                    if i < st.pending.len() {
                        assert(p[i] == st.pending[i]);
                    }
                }
            }
            assert(render(st.tokens) + p =~= (render(st.tokens) + st.pending).push(c));
        }
    } else {
        assert(s =~= Seq::<char>::empty());
        assert(render(Seq::<TokenView>::empty()) + Seq::<char>::empty() =~= Seq::<char>::empty());
    }
}

/// Input without backslashes is cut into tokens and nothing else: no literal
/// holds a bracket or backslash, and writing the tokens back out (brackets as
/// themselves, literals as their text) gives the input again.
pub proof fn lemma_tokenize_plain_input(s: Seq<char>)
    requires
        has_no_backslash(s),
    ensures
        literals_plain(spec_tokenize(s)),
        render(spec_tokenize(s)) == s,
        forall|i: int|
            0 <= i < spec_tokenize(s).len() ==> (#[trigger] spec_tokenize(s)[i] matches TokenView::Literal(
                l,
            ) ==> escape(l) == l),
{
    lemma_lex_plain(s);
    let st = lex_prefix(s);
    let toks = spec_tokenize(s);
    if st.pending.len() > 0 {
        lemma_render_push(st.tokens, TokenView::Literal(st.pending));
        lemma_escape_plain(st.pending);
        assert forall|i: int| 0 <= i < toks.len() implies (#[trigger] toks[i] matches TokenView::Literal(
            l,
        ) ==> is_plain(l)) by {
            if i < st.tokens.len() {
                assert(toks[i] == st.tokens[i]);
            }
        }
    } else {
        assert(render(st.tokens) + st.pending =~= render(st.tokens));
    }
    assert forall|i: int| 0 <= i < toks.len() implies (#[trigger] toks[i] matches TokenView::Literal(
        l,
    ) ==> escape(l) == l) by {
        if let TokenView::Literal(l) = toks[i] {
            lemma_escape_plain(l);
        }
    }
}

proof fn lemma_lex_concat(a: Seq<char>, x: Seq<char>)
    requires
        !lex_prefix(a).escaping,
        lex_prefix(a).pending.len() == 0,
    ensures
        lex_prefix(a + x) == (LexState {
            tokens: lex_prefix(a).tokens + lex_prefix(x).tokens,
            pending: lex_prefix(x).pending,
            escaping: lex_prefix(x).escaping,
        }),
    decreases x.len(),
{
    let ta = lex_prefix(a).tokens;
    if x.len() > 0 {
        let x0 = x.drop_last();
        let c = x.last();
        lemma_lex_concat(a, x0);
        assert((a + x).drop_last() =~= a + x0);
        assert((a + x).last() == c);
        let sx = lex_prefix(x0);
        assert(ta + flush(sx.tokens, sx.pending).push(bracket_token(c)) =~= flush(
            ta + sx.tokens,
            sx.pending,
        ).push(bracket_token(c)));
    } else {
        assert(a + x =~= a);
        assert(ta + Seq::<TokenView>::empty() =~= ta);
        assert(lex_prefix(a).pending =~= Seq::<char>::empty());
    }
}

/// Text that has no backslash and ends in a bracket leaves the tokenizer in
/// its starting state: what follows it is tokenized on its own.
pub proof fn lemma_tokenize_concat(a: Seq<char>, b: Seq<char>)
    requires
        has_no_backslash(a),
        a.len() > 0,
        is_bracket(a.last()),
    ensures
        spec_tokenize(a + b) == spec_tokenize(a) + spec_tokenize(b),
{
    let a0 = a.drop_last();
    assert(has_no_backslash(a0)) by {
        assert forall|i: int| 0 <= i < a0.len() implies #[trigger] a0[i] != '\\' by {
            assert(a0[i] == a[i]);
        }
    }
    lemma_lex_plain(a0);
    let sa = lex_prefix(a);
    assert(!sa.escaping && sa.pending.len() == 0);
    lemma_lex_concat(a, b);
    let sb = lex_prefix(b);
    if sb.pending.len() > 0 {
        assert(sa.tokens + sb.tokens.push(TokenView::Literal(sb.pending)) =~= (sa.tokens
            + sb.tokens).push(TokenView::Literal(sb.pending)));
    }
}

/// `String::push`: appends one char to the end of the string.
#[verifier::external_body]
fn push_char(s: &mut String, c: char)
    ensures
        final(s)@ == old(s)@.push(c),
{
    s.push(c);
}

// ---------------------------------------------------------------------
// Outside types and calls
// ---------------------------------------------------------------------

#[verifier::external_type_specification]
#[verifier::external_body]
pub struct ExColor(Color);

#[verifier::external_type_specification]
#[verifier::external_body]
pub struct ExStyle(Style);

#[verifier::external_type_specification]
#[verifier::external_body]
pub struct ExParseIntError(ParseIntError);

/// One of colored's style switches; `Clear` stands for the empty switch.
#[derive(Debug, Clone, Copy, PartialEq, Eq)]
pub enum StyleFlag {
    Clear,
    Bold,
    Dimmed,
    Underline,
    Reversed,
    Italic,
    Blink,
    Hidden,
    Strikethrough,
}

/// The switches of a colored `Style`: those `s` for which `style.contains(s)`
/// holds. `Clear` stands for the empty switch, which every style contains.
pub uninterp spec fn style_switches(style: Style) -> Set<StyleFlag>;

/// `Style::default()`: the plain style, `CLEAR`, whose only switch is the empty one.
#[verifier::external_body]
fn plain_style() -> (s: Style)
    ensures
        style_switches(s) == set![StyleFlag::Clear],
{
    Style::default()
}

/// `Style |= Styles`: ORs the switch's bits into the style, so it gains that
/// switch and keeps all others.
#[verifier::external_body]
fn add_style(style: &mut Style, flag: StyleFlag)
    ensures
        style_switches(*final(style)) == style_switches(*old(style)).insert(flag),
{
    *style |= match flag {
        StyleFlag::Clear => Styles::Clear,
        StyleFlag::Bold => Styles::Bold,
        StyleFlag::Dimmed => Styles::Dimmed,
        StyleFlag::Underline => Styles::Underline,
        StyleFlag::Reversed => Styles::Reversed,
        StyleFlag::Italic => Styles::Italic,
        StyleFlag::Blink => Styles::Blink,
        StyleFlag::Hidden => Styles::Hidden,
        StyleFlag::Strikethrough => Styles::Strikethrough,
    };
}

/// The colour that colored's `Color::from(&str)` gives a name that does not
/// start with `#`: after lower-casing, one of the sixteen names `black`, `red`,
/// `green`, `yellow`, `blue`, `magenta` (or `purple`), `cyan`, `white` and
/// their `bright ` forms, and white for any other name.
pub uninterp spec fn spec_color_from_str(name: Seq<char>) -> Color;

/// `Color::from(&str)` of colored, for names that do not start with `#`.
/// (A `#` name is read as a hex code by cutting it at byte offsets, which
/// panics where a cut falls inside a multi-byte character.)
#[verifier::external_body]
fn color_from_str(name: &str) -> (c: Color)
    requires
        !(name@.len() > 0 && name@[0] == '#'),
    ensures
        c == spec_color_from_str(name@),
{
    Color::from(name)
}

/// The colour `Color::TrueColor { r, g, b }` of colored.
pub uninterp spec fn spec_true_color(r: u8, g: u8, b: u8) -> Color;

/// Builds colored's `Color::TrueColor { r, g, b }`.
#[verifier::external_body]
fn true_color(r: u8, g: u8, b: u8) -> (c: Color)
    ensures
        c == spec_true_color(r, g, b),
{
    Color::TrueColor { r, g, b }
}

/// What std's `str::to_lowercase` gives for a string (full Unicode case mapping).
pub uninterp spec fn spec_to_lowercase(s: Seq<char>) -> Seq<char>;

/// ASCII lower-casing of one char: `A`..`Z` become `a`..`z`, all else stays.
pub open spec fn ascii_lower(c: char) -> char {
    if 'A' <= c && c <= 'Z' {
        ((c as u32) + 32) as char
    } else {
        c
    }
}

pub open spec fn all_ascii(s: Seq<char>) -> bool {
    forall|i: int| 0 <= i < s.len() ==> (#[trigger] s[i] as u32) < 0x80
}

/// The lower case of a word: char by char for ASCII text, and as std's
/// Unicode lower-casing gives it otherwise.
pub open spec fn lowercase(w: Seq<char>) -> Seq<char> {
    if all_ascii(w) {
        w.map_values(|c: char| ascii_lower(c))
    } else {
        spec_to_lowercase(w)
    }
}

/// `str::to_lowercase` of std. Unicode lower-casing maps each ASCII char to
/// its ASCII lower case, so an all-ASCII string is lower-cased char by char.
#[verifier::external_body]
fn to_lowercase(s: &str) -> (r: String)
    ensures
        r@ == spec_to_lowercase(s@),
        all_ascii(s@) ==> r@ == s@.map_values(|c: char| ascii_lower(c)),
{
    s.to_lowercase()
}

pub open spec fn is_hex_digit(c: char) -> bool {
    ('0' <= c && c <= '9') || ('a' <= c && c <= 'f') || ('A' <= c && c <= 'F')
}

pub open spec fn hex_digit_value(c: char) -> int {
    if '0' <= c && c <= '9' {
        c as int - '0' as int
    } else if 'a' <= c && c <= 'f' {
        c as int - 'a' as int + 10
    } else {
        c as int - 'A' as int + 10
    }
}

/// The number that a string of hex digits writes, most significant first.
pub open spec fn hex_digits_value(d: Seq<char>) -> int
    decreases d.len(),
{
    if d.len() == 0 {
        0
    } else {
        hex_digits_value(d.drop_last()) * 16 + hex_digit_value(d.last())
    }
}

/// The digits of a number written with an optional leading `+`.
pub open spec fn unsigned_digits(s: Seq<char>) -> Seq<char> {
    if s.len() > 0 && s[0] == '+' {
        s.drop_first()
    } else {
        s
    }
}

/// Whether `u8::from_str_radix(s, 16)` succeeds: an optional `+`, then one or
/// more hex digits, of value at most 255.
pub open spec fn parses_as_hex_byte(s: Seq<char>) -> bool {
    let d = unsigned_digits(s);
    &&& d.len() > 0
    &&& forall|i: int| 0 <= i < d.len() ==> is_hex_digit(#[trigger] d[i])
    &&& hex_digits_value(d) <= 255
}

/// `u8::from_str_radix(s, 16)` of std: per its documentation, the string is an
/// optional `+` followed by digits of the radix, and the value must fit in `u8`.
#[verifier::external_body]
fn parse_hex_byte(s: &str) -> (r: Result<u8, ParseIntError>)
    ensures
        r is Ok <==> parses_as_hex_byte(s@),
        r matches Ok(v) ==> v as int == hex_digits_value(unsigned_digits(s@)),
{
    u8::from_str_radix(s, 16)
}

// ---------------------------------------------------------------------
// Errors and outcomes
// ---------------------------------------------------------------------

/// Why a format string was rejected.
#[derive(Debug)]
pub enum FormatError {
    TrailingBracket,
    UnmatchedBracket,
    InvalidHex(ParseIntError),
    InvalidStyle,
}

/// The kind of a `FormatError`, without the integer parser's detail.
#[derive(PartialEq, Eq, Structural)]
pub enum FormatErrorKind {
    TrailingBracket,
    UnmatchedBracket,
    InvalidHex,
    InvalidStyle,
}

impl View for FormatError {
    type V = FormatErrorKind;

    open spec fn view(&self) -> FormatErrorKind {
        match self {
            FormatError::TrailingBracket => FormatErrorKind::TrailingBracket,
            FormatError::UnmatchedBracket => FormatErrorKind::UnmatchedBracket,
            FormatError::InvalidHex(_) => FormatErrorKind::InvalidHex,
            FormatError::InvalidStyle => FormatErrorKind::InvalidStyle,
        }
    }
}

/// How reading some input ends: with a value, with a format error, or at a
/// hex code whose two-byte ranges `str` indexing cannot cut out (a range
/// past the end, or through the middle of a multi-byte character).
pub enum Outcome<T> {
    Done(T),
    Fail(FormatErrorKind),
    BadSlice,
}

/// The executable counterpart of a failed `Outcome`.
pub enum Halt {
    Error(FormatError),
    BadSlice,
}

/// `r` is the executable result that the outcome `o` describes, the value
/// being compared through `rel`.
pub open spec fn reports<T, V>(r: Result<T, Halt>, o: Outcome<V>, rel: spec_fn(T, V) -> bool) -> bool {
    match o {
        Outcome::Done(v) => r matches Ok(x) && rel(x, v),
        Outcome::Fail(k) => r matches Err(Halt::Error(e)) && e@ == k,
        Outcome::BadSlice => r matches Err(Halt::BadSlice),
    }
}

// ---------------------------------------------------------------------
// Hex colour codes
// ---------------------------------------------------------------------

/// Bytes that a char takes in UTF-8 (std's `char::len_utf8`).
pub open spec fn utf8_width(c: char) -> int {
    if (c as u32) < 0x80 {
        1
    } else if (c as u32) < 0x800 {
        2
    } else if (c as u32) < 0x10000 {
        3
    } else {
        4
    }
}

/// The index of the char that starts at byte offset `b` of `s` (or `s.len()`
/// for the end), if `b` is a char boundary of `s`.
pub open spec fn char_index_at_byte(s: Seq<char>, b: int) -> Option<int>
    decreases s.len(),
{
    if b == 0 {
        Some(0)
    } else if b < 0 || s.len() == 0 {
        None
    } else {
        match char_index_at_byte(s.drop_first(), b - utf8_width(s[0])) {
            Some(i) => Some(i + 1),
            None => None,
        }
    }
}

/// The text of `s[a..b]` in bytes, where `str` indexing can cut it out.
pub open spec fn byte_slice(s: Seq<char>, a: int, b: int) -> Option<Seq<char>> {
    match (char_index_at_byte(s, a), char_index_at_byte(s, b)) {
        (Some(i), Some(j)) => if i <= j {
            Some(s.subrange(i, j))
        } else {
            None
        },
        _ => None,
    }
}

/// One colour channel: the two bytes of `hex` from byte `a`, read as a hex byte.
pub open spec fn spec_hex_channel(hex: Seq<char>, a: int) -> Outcome<u8> {
    match byte_slice(hex, a, a + 2) {
        Some(p) => if parses_as_hex_byte(p) {
            Outcome::Done(hex_digits_value(unsigned_digits(p)) as u8)
        } else {
            Outcome::Fail(FormatErrorKind::InvalidHex)
        },
        None => Outcome::BadSlice,
    }
}

/// The colour written `rrggbb` (the text after a `#`); bytes past the sixth are ignored.
pub open spec fn spec_hex_color(hex: Seq<char>) -> Outcome<Color> {
    match spec_hex_channel(hex, 0) {
        Outcome::Done(r) => match spec_hex_channel(hex, 2) {
            Outcome::Done(g) => match spec_hex_channel(hex, 4) {
                Outcome::Done(b) => Outcome::Done(spec_true_color(r, g, b)),
                Outcome::Fail(k) => Outcome::Fail(k),
                Outcome::BadSlice => Outcome::BadSlice,
            },
            Outcome::Fail(k) => Outcome::Fail(k),
            Outcome::BadSlice => Outcome::BadSlice,
        },
        Outcome::Fail(k) => Outcome::Fail(k),
        Outcome::BadSlice => Outcome::BadSlice,
    }
}

/// The byte that two hex digits write, high digit first.
pub open spec fn two_digit_value(hi: char, lo: char) -> int {
    hex_digit_value(hi) * 16 + hex_digit_value(lo)
}

proof fn lemma_ascii_byte_index(s: Seq<char>, b: int)
    requires
        0 <= b <= s.len(),
        forall|i: int| 0 <= i < b ==> (#[trigger] s[i] as u32) < 0x80,
    ensures
        char_index_at_byte(s, b) == Some(b),
    decreases b,
{
    if b > 0 {
        let t = s.drop_first();
        assert((s[0] as u32) < 0x80);
        assert forall|i: int| 0 <= i < b - 1 implies (#[trigger] t[i] as u32) < 0x80 by {
            assert(t[i] == s[i + 1]);
        }
        lemma_ascii_byte_index(t, b - 1);
    }
}

proof fn lemma_hex_channel_digits(hex: Seq<char>, a: int)
    requires
        0 <= a,
        a + 2 <= hex.len(),
        forall|i: int| 0 <= i < a + 2 ==> is_hex_digit(#[trigger] hex[i]),
    ensures
        0 <= two_digit_value(hex[a], hex[a + 1]) <= 255,
        spec_hex_channel(hex, a) == Outcome::Done(two_digit_value(hex[a], hex[a + 1]) as u8),
{
    assert forall|i: int| 0 <= i < a + 2 implies (#[trigger] hex[i] as u32) < 0x80 by {
        assert(is_hex_digit(hex[i]));
    }
    lemma_ascii_byte_index(hex, a);
    lemma_ascii_byte_index(hex, a + 2);
    let p = hex.subrange(a, a + 2);
    assert(byte_slice(hex, a, a + 2) == Some(p));
    assert(p[0] == hex[a] && p[1] == hex[a + 1]);
    assert(is_hex_digit(hex[a]) && is_hex_digit(hex[a + 1]));
    assert(unsigned_digits(p) == p);
    assert(p.drop_last() =~= seq![hex[a]]);
    assert(seq![hex[a]].drop_last() =~= Seq::<char>::empty());
    assert(hex_digits_value(Seq::<char>::empty()) == 0);
    assert(hex_digits_value(seq![hex[a]]) == hex_digit_value(hex[a]));
    assert(p.last() == hex[a + 1]);
    assert(hex_digits_value(p) == hex_digits_value(p.drop_last()) * 16 + hex_digit_value(p.last()));
    assert(hex_digits_value(p) == two_digit_value(hex[a], hex[a + 1]));
    assert(forall|i: int| 0 <= i < p.len() ==> is_hex_digit(#[trigger] p[i]));
}

/// A colour code whose first six chars are hex digits is the true colour whose
/// red, green and blue are the bytes written by digits one and two, three and
/// four, and five and six; anything after them is ignored.
pub proof fn lemma_hex_color_channels(hex: Seq<char>)
    requires
        hex.len() >= 6,
        forall|i: int| 0 <= i < 6 ==> is_hex_digit(#[trigger] hex[i]),
    ensures
        0 <= two_digit_value(hex[0], hex[1]) <= 255,
        0 <= two_digit_value(hex[2], hex[3]) <= 255,
        0 <= two_digit_value(hex[4], hex[5]) <= 255,
        spec_hex_color(hex) == Outcome::Done(
            spec_true_color(
                two_digit_value(hex[0], hex[1]) as u8,
                two_digit_value(hex[2], hex[3]) as u8,
                two_digit_value(hex[4], hex[5]) as u8,
            ),
        ),
{
    lemma_hex_channel_digits(hex, 0);
    lemma_hex_channel_digits(hex, 2);
    lemma_hex_channel_digits(hex, 4);
}

fn char_width(c: char) -> (w: usize)
    ensures
        w as int == utf8_width(c),
{
    if (c as u32) < 0x80 {
        1
    } else if (c as u32) < 0x800 {
        2
    } else if (c as u32) < 0x10000 {
        3
    } else {
        4
    }
}

proof fn lemma_char_index_skip(s: Seq<char>, k: int, b: int)
    requires
        0 <= k < s.len(),
        b > 0,
    ensures
        char_index_at_byte(s.skip(k), b) == (match char_index_at_byte(
            s.skip(k + 1),
            b - utf8_width(s[k]),
        ) {
            Some(i) => Some(i + 1),
            None => None::<int>,
        }),
{
    assert(s.skip(k).drop_first() =~= s.skip(k + 1));
}

/// Finds the char that starts at byte offset `b` of `s`.
fn find_char_at_byte(s: &str, b: usize) -> (r: Option<usize>)
    requires
        b <= 8,
    ensures
        char_index_at_byte(s@, b as int) == (match r {
            Some(i) => Some(i as int),
            None => None::<int>,
        }),
{
    let n: usize = s.unicode_len();
    let mut k: usize = 0;
    let mut acc: usize = 0;
    assert(s@.skip(0) =~= s@);
    while k < n && acc < b
        invariant
            n == s@.len(),
            0 <= k <= n,
            acc <= b + 3,
            b <= 8,
            acc <= b || k > 0,
            char_index_at_byte(s@, b as int) == (match char_index_at_byte(
                s@.skip(k as int),
                b - acc,
            ) {
                Some(i) => Some(i + k),
                None => None::<int>,
            }),
        decreases n - k,
    {
        let c = s.get_char(k);
        proof {
            lemma_char_index_skip(s@, k as int, b - acc);
        }
        acc = acc + char_width(c);
        k = k + 1;
    }
    proof {
        lemma_char_index_bound(s@, b as int);
    }
    if acc == b {
        proof {
            assert(char_index_at_byte(s@.skip(k as int), 0) == Some(0int));
        }
        Some(k)
    } else {
        proof {
            if acc < b {
                assert(s@.skip(k as int).len() == 0);
            }
        }
        None
    }
}

/// Cuts `hex[a..a + 2]` out and reads it as a hex byte.
fn hex_channel(hex: &str, a: usize) -> (r: Result<u8, Halt>)
    requires
        a <= 4,
    ensures
        reports(r, spec_hex_channel(hex@, a as int), |x: u8, v: u8| x == v),
        r matches Err(Halt::Error(e)) ==> e is InvalidHex,
{
    let i = find_char_at_byte(hex, a);
    let j = find_char_at_byte(hex, a + 2);
    proof {
        lemma_char_index_bound(hex@, a as int);
        lemma_char_index_bound(hex@, a + 2);
    }
    match (i, j) {
        (Some(i), Some(j)) => {
            if i <= j {
                proof {
                    assert(j <= hex@.len()) by {
                        lemma_char_index_bound(hex@, a + 2);
                    }
                }
                let piece = hex.substring_char(i, j);
                assert(byte_slice(hex@, a as int, a + 2) == Some(piece@));
                match parse_hex_byte(piece) {
                    Ok(v) => {
                        proof {
                            lemma_hex_value_nonneg(unsigned_digits(piece@));
                        }
                        assert(spec_hex_channel(hex@, a as int) == Outcome::Done(v));
                        Ok(v)
                    },
                    Err(e) => Err(Halt::Error(FormatError::InvalidHex(e))),
                }
            } else {
                assert(spec_hex_channel(hex@, a as int) is BadSlice);
                Err(Halt::BadSlice)
            }
        },
        _ => {
            assert(spec_hex_channel(hex@, a as int) is BadSlice);
            Err(Halt::BadSlice)
        },
    }
}

proof fn lemma_char_index_bound(s: Seq<char>, b: int)
    ensures
        char_index_at_byte(s, b) matches Some(i) ==> 0 <= i <= s.len(),
    decreases s.len(),
{
    if b != 0 && b >= 0 && s.len() > 0 {
        lemma_char_index_bound(s.drop_first(), b - utf8_width(s[0]));
    }
}

proof fn lemma_hex_value_nonneg(d: Seq<char>)
    requires
        forall|i: int| 0 <= i < d.len() ==> is_hex_digit(#[trigger] d[i]),
    ensures
        hex_digits_value(d) >= 0,
    decreases d.len(),
{
    if d.len() > 0 {
        assert(is_hex_digit(d[d.len() - 1]));
        lemma_hex_value_nonneg(d.drop_last());
    }
}

/// Reads the colour written `rrggbb`.
fn hex_color(hex: &str) -> (r: Result<Color, Halt>)
    ensures
        reports(r, spec_hex_color(hex@), |x: Color, v: Color| x == v),
        r matches Err(Halt::Error(e)) ==> e is InvalidHex,
{
    let r: u8 = match hex_channel(hex, 0) {
        Ok(v) => v,
        Err(h) => return Err(h),
    };
    let g: u8 = match hex_channel(hex, 2) {
        Ok(v) => v,
        Err(h) => return Err(h),
    };
    let b: u8 = match hex_channel(hex, 4) {
        Ok(v) => v,
        Err(h) => return Err(h),
    };
    Ok(true_color(r, g, b))
}

// ---------------------------------------------------------------------
// Style lists
// ---------------------------------------------------------------------

/// The colours and switches that a style list sets on a formatted node.
pub struct Attrs {
    pub fg: Option<Color>,
    pub bg: Option<Color>,
    pub style: Set<StyleFlag>,
}

pub open spec fn starts_with3(w: Seq<char>, a: char, b: char, c: char) -> bool {
    w.len() >= 3 && w[0] == a && w[1] == b && w[2] == c
}

/// The colour named after `fg:` or `bg:`: `#` and a hex code, or a colour name.
pub open spec fn spec_color_arg(arg: Seq<char>) -> Outcome<Color> {
    if arg.len() > 0 && arg[0] == '#' {
        spec_hex_color(arg.drop_first())
    } else {
        Outcome::Done(spec_color_from_str(arg))
    }
}

/// The switch that a (lower-cased) style word names.
pub open spec fn spec_style_keyword(k: Seq<char>) -> Option<StyleFlag> {
    if k == "clear"@ {
        Some(StyleFlag::Clear)
    } else if k == "bold"@ {
        Some(StyleFlag::Bold)
    } else if k == "dimmed"@ {
        Some(StyleFlag::Dimmed)
    } else if k == "underline"@ {
        Some(StyleFlag::Underline)
    } else if k == "reversed"@ {
        Some(StyleFlag::Reversed)
    } else if k == "italic"@ {
        Some(StyleFlag::Italic)
    } else if k == "blink"@ {
        Some(StyleFlag::Blink)
    } else if k == "hidden"@ {
        Some(StyleFlag::Hidden)
    } else if k == "strikethrough"@ {
        Some(StyleFlag::Strikethrough)
    } else {
        None
    }
}

/// One word of a style list: `fg:<colour>` and `bg:<colour>` set a colour
/// unless one is set already (the colour is read either way), any other word
/// must name a switch, case-insensitively.
pub open spec fn spec_style_word(a: Attrs, w: Seq<char>) -> Outcome<Attrs> {
    if starts_with3(w, 'f', 'g', ':') {
        match spec_color_arg(w.skip(3)) {
            Outcome::Done(c) => Outcome::Done(
                Attrs { fg: if a.fg is None { Some(c) } else { a.fg }, bg: a.bg, style: a.style },
            ),
            Outcome::Fail(k) => Outcome::Fail(k),
            Outcome::BadSlice => Outcome::BadSlice,
        }
    } else if starts_with3(w, 'b', 'g', ':') {
        match spec_color_arg(w.skip(3)) {
            Outcome::Done(c) => Outcome::Done(
                Attrs { fg: a.fg, bg: if a.bg is None { Some(c) } else { a.bg }, style: a.style },
            ),
            Outcome::Fail(k) => Outcome::Fail(k),
            Outcome::BadSlice => Outcome::BadSlice,
        }
    } else {
        match spec_style_keyword(lowercase(w)) {
            Some(f) => Outcome::Done(Attrs { fg: a.fg, bg: a.bg, style: a.style.insert(f) }),
            None => Outcome::Fail(FormatErrorKind::InvalidStyle),
        }
    }
}

/// The pieces of `s` between single spaces, as `str::split(" ")` gives them:
/// `n` spaces make `n + 1` pieces, some of which may be empty.
pub open spec fn split_spaces(s: Seq<char>) -> Seq<Seq<char>>
    decreases s.len(),
{
    if s.len() == 0 {
        seq![Seq::empty()]
    } else {
        let p = split_spaces(s.drop_last());
        if s.last() == ' ' {
            p.push(Seq::empty())
        } else {
            p.update(p.len() - 1, p.last().push(s.last()))
        }
    }
}

/// Applies the words in order; the first failure ends the list.
pub open spec fn spec_style_words(a: Attrs, ws: Seq<Seq<char>>) -> Outcome<Attrs>
    decreases ws.len(),
{
    if ws.len() == 0 {
        Outcome::Done(a)
    } else {
        match spec_style_words(a, ws.drop_last()) {
            Outcome::Done(b) => spec_style_word(b, ws.last()),
            o => o,
        }
    }
}

/// A style list read onto a node with colours `fg` and `bg`: the switches
/// start from the plain style.
pub open spec fn spec_style_list(fg: Option<Color>, bg: Option<Color>, lit: Seq<char>) -> Outcome<
    Attrs,
> {
    spec_style_words(Attrs { fg, bg, style: set![StyleFlag::Clear] }, split_spaces(lit))
}

/// A `fg:` or `bg:` word.
pub open spec fn is_colour_word(w: Seq<char>) -> bool {
    starts_with3(w, 'f', 'g', ':') || starts_with3(w, 'b', 'g', ':')
}

/// The switches that the non-colour words of a list name.
pub open spec fn named_switches(ws: Seq<Seq<char>>) -> Set<StyleFlag> {
    Set::new(
        |f: StyleFlag|
            exists|i: int|
                0 <= i < ws.len() && !is_colour_word(#[trigger] ws[i]) && spec_style_keyword(
                    lowercase(ws[i]),
                ) == Some(f),
    )
}

/// Reading words keeps every switch already on, adds exactly the switches
/// that the non-colour words name (colour words leave the switches alone),
/// and never replaces a colour that is already set.
pub proof fn lemma_style_words_switches(a: Attrs, ws: Seq<Seq<char>>)
    ensures
        spec_style_words(a, ws) matches Outcome::Done(b) ==> b.style == a.style.union(
            named_switches(ws),
        ),
        spec_style_words(a, ws) matches Outcome::Done(b) ==> (a.fg is Some ==> b.fg == a.fg) && (
        a.bg is Some ==> b.bg == a.bg),
    decreases ws.len(),
{
    if ws.len() == 0 {
        assert(named_switches(ws) =~= Set::<StyleFlag>::empty());
        assert(a.style.union(Set::empty()) =~= a.style);
    } else {
        let init = ws.drop_last();
        let w = ws.last();
        lemma_style_words_switches(a, init);
        if let Outcome::Done(c) = spec_style_words(a, init) {
            if let Outcome::Done(b) = spec_style_word(c, w) {
                assert(ws[ws.len() - 1] == w);
                if is_colour_word(w) {
                    assert(b.style == c.style);
                    assert forall|f: StyleFlag| #[trigger] named_switches(ws).contains(f)
                        == named_switches(init).contains(f) by {
                        if named_switches(ws).contains(f) {
                            let i = choose|i: int|
                                0 <= i < ws.len() && !is_colour_word(#[trigger] ws[i])
                                    && spec_style_keyword(lowercase(ws[i])) == Some(f);
                            assert(i < init.len());
                            assert(init[i] == ws[i]);
                        }
                        if named_switches(init).contains(f) {
                            let i = choose|i: int|
                                0 <= i < init.len() && !is_colour_word(#[trigger] init[i])
                                    && spec_style_keyword(lowercase(init[i])) == Some(f);
                            assert(init[i] == ws[i]);
                        }
                    }
                    assert(named_switches(ws) =~= named_switches(init));
                } else {
                    let g = spec_style_keyword(lowercase(w))->Some_0;
                    assert(b.style == c.style.insert(g));
                    assert forall|f: StyleFlag| #[trigger] named_switches(ws).contains(f)
                        == (named_switches(init).contains(f) || f == g) by {
                        if named_switches(ws).contains(f) {
                            let i = choose|i: int|
                                0 <= i < ws.len() && !is_colour_word(#[trigger] ws[i])
                                    && spec_style_keyword(lowercase(ws[i])) == Some(f);
                            if i < init.len() {
                                assert(init[i] == ws[i]);
                            }
                        }
                        if named_switches(init).contains(f) {
                            let i = choose|i: int|
                                0 <= i < init.len() && !is_colour_word(#[trigger] init[i])
                                    && spec_style_keyword(lowercase(init[i])) == Some(f);
                            assert(init[i] == ws[i]);
                        }
                        if f == g {
                            assert(!is_colour_word(ws[ws.len() - 1]));
                        }
                    }
                    assert(named_switches(ws) =~= named_switches(init).insert(g));
                }
                assert(b.style =~= a.style.union(named_switches(ws)));
            }
        }
    }
}

/// A style list sets exactly the plain style's switch and the switches its
/// non-colour words name.
pub proof fn lemma_style_list_switches(fg: Option<Color>, bg: Option<Color>, lit: Seq<char>)
    ensures
        spec_style_list(fg, bg, lit) matches Outcome::Done(b) ==> b.style == set![
            StyleFlag::Clear,
        ].union(named_switches(split_spaces(lit))),
{
    lemma_style_words_switches(Attrs { fg, bg, style: set![StyleFlag::Clear] }, split_spaces(lit));
}

proof fn lemma_split_spaces_nonempty(s: Seq<char>)
    ensures
        split_spaces(s).len() >= 1,
    decreases s.len(),
{
    if s.len() > 0 {
        lemma_split_spaces_nonempty(s.drop_last());
    }
}

/// The words completed within a prefix stay completed; a failure among them
/// is the outcome of every longer prefix.
proof fn lemma_style_failure_persists(a: Attrs, s: Seq<char>, i: int, j: int)
    requires
        0 <= i <= j <= s.len(),
        !(spec_style_words(a, split_spaces(s.take(i)).drop_last()) is Done),
    ensures
        spec_style_words(a, split_spaces(s.take(j)).drop_last()) == spec_style_words(
            a,
            split_spaces(s.take(i)).drop_last(),
        ),
    decreases j - i,
{
    if j > i {
        lemma_style_failure_persists(a, s, i, j - 1);
        let t = s.take(j);
        assert(t.drop_last() =~= s.take(j - 1));
        lemma_split_spaces_nonempty(t.drop_last());
        let p = split_spaces(t.drop_last());
        if t.last() == ' ' {
            assert(split_spaces(t).drop_last() =~= p);
        } else {
            assert(split_spaces(t).drop_last() =~= p.drop_last());
        }
    }
}

fn str_eq(a: &str, b: &str) -> (r: bool)
    ensures
        r == (a@ == b@),
{
    let n: usize = a.unicode_len();
    if n != b.unicode_len() {
        return false;
    }
    let mut i: usize = 0;
    while i < n
        invariant
            n == a@.len(),
            n == b@.len(),
            0 <= i <= n,
            forall|k: int| 0 <= k < i ==> a@[k] == b@[k],
        decreases n - i,
    {
        if a.get_char(i) != b.get_char(i) {
            return false;
        }
        i = i + 1;
    }
    assert(a@ =~= b@);
    true
}

/// The switch that a lower-cased style word names, if any.
pub fn style_keyword(k: &str) -> (r: Option<StyleFlag>)
    ensures
        r == spec_style_keyword(k@),
{
    if str_eq(k, "clear") {
        Some(StyleFlag::Clear)
    } else if str_eq(k, "bold") {
        Some(StyleFlag::Bold)
    } else if str_eq(k, "dimmed") {
        Some(StyleFlag::Dimmed)
    } else if str_eq(k, "underline") {
        Some(StyleFlag::Underline)
    } else if str_eq(k, "reversed") {
        Some(StyleFlag::Reversed)
    } else if str_eq(k, "italic") {
        Some(StyleFlag::Italic)
    } else if str_eq(k, "blink") {
        Some(StyleFlag::Blink)
    } else if str_eq(k, "hidden") {
        Some(StyleFlag::Hidden)
    } else if str_eq(k, "strikethrough") {
        Some(StyleFlag::Strikethrough)
    } else {
        None
    }
}

fn color_arg(arg: &str) -> (r: Result<Color, Halt>)
    ensures
        reports(r, spec_color_arg(arg@), |x: Color, v: Color| x == v),
        r matches Err(Halt::Error(e)) ==> e is InvalidHex,
{
    let n: usize = arg.unicode_len();
    if n > 0 && arg.get_char(0) == '#' {
        let hex = arg.substring_char(1, n);
        assert(hex@ =~= arg@.drop_first());
        hex_color(hex)
    } else {
        Ok(color_from_str(arg))
    }
}

pub open spec fn attrs_of(fg: Option<Color>, bg: Option<Color>, style: Style) -> Attrs {
    Attrs { fg, bg, style: style_switches(style) }
}

/// The effect of outcome `o` on a node's colours and style, where `r` is
/// what the step returned.
pub open spec fn attrs_step(
    o: Outcome<Attrs>,
    r: Result<(), Halt>,
    fg: Option<Color>,
    bg: Option<Color>,
    style: Style,
) -> bool {
    match o {
        Outcome::Done(a) => r is Ok && attrs_of(fg, bg, style) == a,
        Outcome::Fail(k) => r matches Err(Halt::Error(e)) && e@ == k,
        Outcome::BadSlice => r matches Err(Halt::BadSlice),
    }
}

fn apply_style_word(
    fg: &mut Option<Color>,
    bg: &mut Option<Color>,
    style: &mut Style,
    w: &str,
) -> (r: Result<(), Halt>)
    ensures
        attrs_step(
            spec_style_word(attrs_of(*old(fg), *old(bg), *old(style)), w@),
            r,
            *final(fg),
            *final(bg),
            *final(style),
        ),
        r matches Err(Halt::Error(e)) ==> e is InvalidHex || e is InvalidStyle,
{
    let n: usize = w.unicode_len();
    if n >= 3 && w.get_char(0) == 'f' && w.get_char(1) == 'g' && w.get_char(2) == ':' {
        let arg = w.substring_char(3, n);
        assert(arg@ =~= w@.skip(3));
        let c = match color_arg(arg) {
            Ok(c) => c,
            Err(h) => return Err(h),
        };
        if fg.is_none() {
            *fg = Some(c);
        }
        Ok(())
    } else if n >= 3 && w.get_char(0) == 'b' && w.get_char(1) == 'g' && w.get_char(2) == ':' {
        let arg = w.substring_char(3, n);
        assert(arg@ =~= w@.skip(3));
        let c = match color_arg(arg) {
            Ok(c) => c,
            Err(h) => return Err(h),
        };
        if bg.is_none() {
            *bg = Some(c);
        }
        Ok(())
    } else {
        let lower = to_lowercase(w);
        match style_keyword(lower.as_str()) {
            Some(f) => {
                add_style(style, f);
                Ok(())
            },
            None => Err(Halt::Error(FormatError::InvalidStyle)),
        }
    }
}

// ---------------------------------------------------------------------
// Format strings
// ---------------------------------------------------------------------

/// A parsed format string: plain text interleaved with formatted groups.
#[derive(Debug, PartialEq, Default)]
pub struct FormatString {
    pub nodes: Vec<FormatStringNode>,
}

#[derive(Debug, PartialEq)]
pub enum FormatStringNode {
    String(String),
    Formatted(FormatNode),
}

/// A group `(children)[style list]`.
#[derive(Debug, PartialEq, Default)]
pub struct FormatNode {
    pub fg: Option<Color>,
    pub bg: Option<Color>,
    pub style: Style,
    pub children: Vec<FormatStringNode>,
}

/// The mathematical value of a node.
pub enum NodeView {
    Text(Seq<char>),
    Styled(StyledView),
}

pub struct StyledView {
    pub fg: Option<Color>,
    pub bg: Option<Color>,
    pub style: Set<StyleFlag>,
    pub children: Seq<NodeView>,
}

pub open spec fn node_view(n: FormatStringNode) -> NodeView
    decreases n,
{
    match n {
        FormatStringNode::String(s) => NodeView::Text(s@),
        FormatStringNode::Formatted(f) => NodeView::Styled(styled_view(f)),
    }
}

pub open spec fn styled_view(f: FormatNode) -> StyledView
    decreases f,
{
    StyledView {
        fg: f.fg,
        bg: f.bg,
        style: style_switches(f.style),
        children: nodes_view(f.children@),
    }
}

pub open spec fn nodes_view(ns: Seq<FormatStringNode>) -> Seq<NodeView>
    decreases ns,
{
    if ns.len() == 0 {
        Seq::empty()
    } else {
        nodes_view(ns.drop_last()).push(node_view(ns.last()))
    }
}

impl FormatString {
    pub open spec fn view_nodes(&self) -> Seq<NodeView> {
        nodes_view(self.nodes@)
    }
}

proof fn lemma_nodes_view_push(ns: Seq<FormatStringNode>, n: FormatStringNode)
    ensures
        nodes_view(ns.push(n)) == nodes_view(ns).push(node_view(n)),
{
    assert(ns.push(n).drop_last() =~= ns);
}

/// Reads a style list onto `node`: its colours are set where unset and its
/// switches become those the list names.
fn apply_style_list(node: &mut FormatNode, lit: &str) -> (r: Result<(), Halt>)
    ensures
        final(node).children == old(node).children,
        attrs_step(
            spec_style_list(old(node).fg, old(node).bg, lit@),
            r,
            final(node).fg,
            final(node).bg,
            final(node).style,
        ),
        r matches Err(Halt::Error(e)) ==> e is InvalidHex || e is InvalidStyle,
{
    let ghost s = lit@;
    let ghost a0 = Attrs { fg: node.fg, bg: node.bg, style: set![StyleFlag::Clear] };
    let mut style = plain_style();
    let mut word = String::new();
    proof {
        assert(s.take(0) =~= Seq::<char>::empty());
        assert(split_spaces(s.take(0)).drop_last() =~= Seq::<Seq<char>>::empty());
    }
    for ch in it: lit.chars()
        invariant
            s == lit@,
            it.seq() == s,
            node.children == old(node).children,
            a0 == (Attrs { fg: old(node).fg, bg: old(node).bg, style: set![StyleFlag::Clear] }),
            spec_style_words(a0, split_spaces(s.take(it.index() as int)).drop_last())
                == Outcome::Done(attrs_of(node.fg, node.bg, style)),
            split_spaces(s.take(it.index() as int)).last() == word@,
    {
        let ghost i = it.index() as int;
        proof {
            let t = s.take(i + 1);
            assert(t.drop_last() =~= s.take(i));
            assert(t.last() == ch);
            lemma_split_spaces_nonempty(s.take(i));
        }
        if ch == ' ' {
            match apply_style_word(&mut node.fg, &mut node.bg, &mut style, word.as_str()) {
                Ok(()) => {},
                Err(h) => {
                    proof {
                        let ws = split_spaces(s.take(i + 1));
                        assert(ws.drop_last() =~= split_spaces(s.take(i)));
                        lemma_style_failure_persists(a0, s, i + 1, s.len() as int);
                        assert(s.take(s.len() as int) =~= s);
                        lemma_split_spaces_nonempty(s);
                    }
                    return Err(h);
                },
            }
            word = String::new();
            proof {
                let ws = split_spaces(s.take(i + 1));
                assert(ws.drop_last() =~= split_spaces(s.take(i)));
            }
        } else {
            push_char(&mut word, ch);
            proof {
                let ws = split_spaces(s.take(i + 1));
                assert(ws.drop_last() =~= split_spaces(s.take(i)).drop_last());
            }
        }
    }
    proof {
        assert(s.take(s.len() as int) =~= s);
        lemma_split_spaces_nonempty(s);
    }
    match apply_style_word(&mut node.fg, &mut node.bg, &mut style, word.as_str()) {
        Ok(()) => {},
        Err(h) => return Err(h),
    }
    node.style = style;
    Ok(())
}

/// Where a group is in its reading: inside `( )`, between `)` and `[`, or
/// inside `[ ]`.
pub enum ParsePhase {
    Content,
    AfterContent,
    Style,
}

pub open spec fn empty_styled() -> StyledView {
    StyledView { fg: None, bg: None, style: set![StyleFlag::Clear], children: Seq::empty() }
}

pub open spec fn with_child(n: StyledView, c: NodeView) -> StyledView {
    StyledView { fg: n.fg, bg: n.bg, style: n.style, children: n.children.push(c) }
}

/// Reads the rest of a group from token `pos` on, with `node` read so far:
/// `(` content `)` `[` style list `]`, where content is text and nested
/// groups. The result holds the group and the position of its closing `]`.
pub open spec fn spec_group(toks: Seq<TokenView>, pos: int, node: StyledView, phase: ParsePhase) -> Outcome<
    (StyledView, int),
>
    decreases toks.len() - pos,
{
    if pos < 0 || pos >= toks.len() {
        Outcome::Fail(FormatErrorKind::TrailingBracket)
    } else {
        match toks[pos] {
            TokenView::OpenContent => match phase {
                ParsePhase::Content => match spec_group(toks, pos + 1, empty_styled(), ParsePhase::Content) {
                    Outcome::Done((child, end)) => if pos < end < toks.len() {
                        spec_group(toks, end + 1, with_child(node, NodeView::Styled(child)), ParsePhase::Content)
                    } else {
                        Outcome::Fail(FormatErrorKind::TrailingBracket)
                    },
                    Outcome::Fail(k) => Outcome::Fail(k),
                    Outcome::BadSlice => Outcome::BadSlice,
                },
                _ => Outcome::Fail(FormatErrorKind::UnmatchedBracket),
            },
            TokenView::CloseContent => match phase {
                ParsePhase::Content => spec_group(toks, pos + 1, node, ParsePhase::AfterContent),
                _ => Outcome::Fail(FormatErrorKind::UnmatchedBracket),
            },
            TokenView::OpenStyle => match phase {
                ParsePhase::Content => Outcome::Fail(FormatErrorKind::UnmatchedBracket),
                _ => spec_group(toks, pos + 1, node, ParsePhase::Style),
            },
            TokenView::CloseStyle => match phase {
                ParsePhase::Style => Outcome::Done((node, pos)),
                _ => Outcome::Fail(FormatErrorKind::UnmatchedBracket),
            },
            TokenView::Literal(l) => match phase {
                ParsePhase::Content => spec_group(toks, pos + 1, with_child(node, NodeView::Text(l)), ParsePhase::Content),
                ParsePhase::AfterContent => Outcome::Fail(FormatErrorKind::UnmatchedBracket),
                ParsePhase::Style => match spec_style_list(node.fg, node.bg, l) {
                    Outcome::Done(a) => spec_group(
                        toks,
                        pos + 1,
                        StyledView { fg: a.fg, bg: a.bg, style: a.style, children: node.children },
                        ParsePhase::Style,
                    ),
                    Outcome::Fail(k) => Outcome::Fail(k),
                    Outcome::BadSlice => Outcome::BadSlice,
                },
            },
        }
    }
}

/// Reads top-level items from token `pos` on, after the nodes `acc`.
pub open spec fn spec_parse_from(toks: Seq<TokenView>, pos: int, acc: Seq<NodeView>) -> Outcome<Seq<NodeView>>
    decreases toks.len() - pos,
{
    if pos < 0 || pos >= toks.len() {
        Outcome::Done(acc)
    } else {
        match toks[pos] {
            TokenView::Literal(l) => spec_parse_from(toks, pos + 1, acc.push(NodeView::Text(l))),
            TokenView::OpenContent => match spec_group(toks, pos + 1, empty_styled(), ParsePhase::Content) {
                Outcome::Done((n, end)) => if pos < end < toks.len() {
                    spec_parse_from(toks, end + 1, acc.push(NodeView::Styled(n)))
                } else {
                    Outcome::Fail(FormatErrorKind::TrailingBracket)
                },
                Outcome::Fail(k) => Outcome::Fail(k),
                Outcome::BadSlice => Outcome::BadSlice,
            },
            _ => Outcome::Fail(FormatErrorKind::UnmatchedBracket),
        }
    }
}

/// The nodes that a whole format string reads to.
pub open spec fn spec_format_string(s: Seq<char>) -> Outcome<Seq<NodeView>> {
    spec_parse_from(spec_tokenize(s), 0, Seq::empty())
}

/// A group is read up to its matching `]`: a group read from `pos` ends at
/// a `]` token at or after `pos`.
pub proof fn lemma_group_end(toks: Seq<TokenView>, pos: int, node: StyledView, phase: ParsePhase)
    ensures
        spec_group(toks, pos, node, phase) matches Outcome::Done((_, end)) ==> pos <= end < toks.len()
            && toks[end] is CloseStyle,
    decreases toks.len() - pos,
{
    if 0 <= pos < toks.len() {
        match toks[pos] {
            TokenView::OpenContent => {
                lemma_group_end(toks, pos + 1, empty_styled(), ParsePhase::Content);
                if let Outcome::Done((child, end)) = spec_group(toks, pos + 1, empty_styled(), ParsePhase::Content) {
                    if pos < end < toks.len() {
                        lemma_group_end(toks, end + 1, with_child(node, NodeView::Styled(child)), ParsePhase::Content);
                    }
                }
            },
            TokenView::CloseContent => {
                lemma_group_end(toks, pos + 1, node, ParsePhase::AfterContent);
            },
            TokenView::OpenStyle => {
                lemma_group_end(toks, pos + 1, node, ParsePhase::Style);
            },
            TokenView::CloseStyle => {},
            TokenView::Literal(l) => {
                lemma_group_end(toks, pos + 1, with_child(node, NodeView::Text(l)), ParsePhase::Content);
                if let Outcome::Done(a) = spec_style_list(node.fg, node.bg, l) {
                    lemma_group_end(
                        toks,
                        pos + 1,
                        StyledView { fg: a.fg, bg: a.bg, style: a.style, children: node.children },
                        ParsePhase::Style,
                    );
                }
            },
        }
    }
}

/// `p` is a prefix of `s`.
pub open spec fn is_prefix<T>(p: Seq<T>, s: Seq<T>) -> bool {
    p.len() <= s.len() && s.take(p.len() as int) == p
}

/// Reading on in a group never loses or changes a child already read.
pub proof fn lemma_group_keeps_children(toks: Seq<TokenView>, pos: int, node: StyledView, phase: ParsePhase)
    ensures
        spec_group(toks, pos, node, phase) matches Outcome::Done((n, _)) ==> is_prefix(
            node.children,
            n.children,
        ),
    decreases toks.len() - pos,
{
    if 0 <= pos < toks.len() {
        let pre = node.children;
        match toks[pos] {
            TokenView::OpenContent => {
                if let Outcome::Done((child, end)) = spec_group(toks, pos + 1, empty_styled(), ParsePhase::Content) {
                    if pos < end < toks.len() {
                        let next = with_child(node, NodeView::Styled(child));
                        lemma_group_keeps_children(toks, end + 1, next, ParsePhase::Content);
                        if let Outcome::Done((n, _)) = spec_group(toks, end + 1, next, ParsePhase::Content) {
                            assert(n.children.take(pre.len() as int) =~= n.children.take(
                                next.children.len() as int,
                            ).take(pre.len() as int));
                            assert(next.children.take(pre.len() as int) =~= pre);
                        }
                    }
                }
            },
            TokenView::CloseContent => {
                lemma_group_keeps_children(toks, pos + 1, node, ParsePhase::AfterContent);
            },
            TokenView::OpenStyle => {
                lemma_group_keeps_children(toks, pos + 1, node, ParsePhase::Style);
            },
            TokenView::CloseStyle => {
                assert(node.children.take(pre.len() as int) =~= pre);
            },
            TokenView::Literal(l) => {
                let next = with_child(node, NodeView::Text(l));
                lemma_group_keeps_children(toks, pos + 1, next, ParsePhase::Content);
                if let (ParsePhase::Content, Outcome::Done((n, _))) = (phase, spec_group(toks, pos + 1, next, ParsePhase::Content)) {
                    assert(n.children.take(pre.len() as int) =~= n.children.take(
                        next.children.len() as int,
                    ).take(pre.len() as int));
                    assert(next.children.take(pre.len() as int) =~= pre);
                }
                if let Outcome::Done(a) = spec_style_list(node.fg, node.bg, l) {
                    lemma_group_keeps_children(
                        toks,
                        pos + 1,
                        StyledView { fg: a.fg, bg: a.bg, style: a.style, children: node.children },
                        ParsePhase::Style,
                    );
                }
            },
        }
    }
}

/// Every content item becomes the next child of its group, wherever it stands:
/// a text run read in a group's content is the child that follows those read
/// before it, and so is a nested group.
pub proof fn lemma_group_content_children(toks: Seq<TokenView>, pos: int, node: StyledView)
    requires
        0 <= pos < toks.len(),
    ensures
        toks[pos] matches TokenView::Literal(l) ==> (spec_group(toks, pos, node, ParsePhase::Content) matches Outcome::Done((n, _))
            ==> n.children.len() > node.children.len() && n.children[node.children.len() as int]
            == NodeView::Text(l)),
        toks[pos] is OpenContent ==> (spec_group(toks, pos, node, ParsePhase::Content) matches Outcome::Done((n, _))
            ==> (spec_group(toks, pos + 1, empty_styled(), ParsePhase::Content) matches Outcome::Done((c, _))
            && n.children.len() > node.children.len() && n.children[node.children.len() as int]
            == NodeView::Styled(c))),
{
    let k = node.children.len() as int;
    match toks[pos] {
        TokenView::Literal(l) => {
            let next = with_child(node, NodeView::Text(l));
            lemma_group_keeps_children(toks, pos + 1, next, ParsePhase::Content);
            if let Outcome::Done((n, _)) = spec_group(toks, pos, node, ParsePhase::Content) {
                assert(n.children.take(next.children.len() as int)[k] == n.children[k]);
            }
        },
        TokenView::OpenContent => {
            lemma_group_end(toks, pos + 1, empty_styled(), ParsePhase::Content);
            if let Outcome::Done((child, end)) = spec_group(toks, pos + 1, empty_styled(), ParsePhase::Content) {
                let next = with_child(node, NodeView::Styled(child));
                lemma_group_keeps_children(toks, end + 1, next, ParsePhase::Content);
                if let Outcome::Done((n, _)) = spec_group(toks, pos, node, ParsePhase::Content) {
                    assert(n.children.take(next.children.len() as int)[k] == n.children[k]);
                }
            }
        },
        _ => {},
    }
}

/// The outcome `o` of reading a group, with its end position moved by `k`.
pub open spec fn shift_end(o: Outcome<(StyledView, int)>, k: int) -> Outcome<(StyledView, int)> {
    match o {
        Outcome::Done((n, e)) => Outcome::Done((n, e + k)),
        Outcome::Fail(f) => Outcome::Fail(f),
        Outcome::BadSlice => Outcome::BadSlice,
    }
}

/// A group reads the same after any tokens placed before it.
proof fn lemma_group_shift(p: Seq<TokenView>, s: Seq<TokenView>, i: int, node: StyledView, phase: ParsePhase)
    requires
        0 <= i,
    ensures
        spec_group(p + s, p.len() + i, node, phase) == shift_end(spec_group(s, i, node, phase), p.len() as int),
    decreases s.len() - i,
{
    let ps = p + s;
    let k = p.len() as int;
    if i < s.len() {
        assert(ps[k + i] == s[i]);
        match s[i] {
            TokenView::OpenContent => {
                lemma_group_shift(p, s, i + 1, empty_styled(), ParsePhase::Content);
                if let Outcome::Done((child, end)) = spec_group(s, i + 1, empty_styled(), ParsePhase::Content) {
                    if i < end < s.len() {
                        lemma_group_shift(p, s, end + 1, with_child(node, NodeView::Styled(child)), ParsePhase::Content);
                        assert(k + end + 1 == k + (end + 1));
                    }
                }
            },
            TokenView::CloseContent => {
                lemma_group_shift(p, s, i + 1, node, ParsePhase::AfterContent);
            },
            TokenView::OpenStyle => {
                lemma_group_shift(p, s, i + 1, node, ParsePhase::Style);
            },
            TokenView::CloseStyle => {},
            TokenView::Literal(l) => {
                lemma_group_shift(p, s, i + 1, with_child(node, NodeView::Text(l)), ParsePhase::Content);
                if let Outcome::Done(a) = spec_style_list(node.fg, node.bg, l) {
                    lemma_group_shift(
                        p,
                        s,
                        i + 1,
                        StyledView { fg: a.fg, bg: a.bg, style: a.style, children: node.children },
                        ParsePhase::Style,
                    );
                }
            },
        }
    }
}

/// A group that reads to its end reads the same whatever follows it.
proof fn lemma_group_extend(s: Seq<TokenView>, q: Seq<TokenView>, i: int, node: StyledView, phase: ParsePhase)
    requires
        0 <= i,
        spec_group(s, i, node, phase) is Done,
    ensures
        spec_group(s + q, i, node, phase) == spec_group(s, i, node, phase),
    decreases s.len() - i,
{
    let sq = s + q;
    if i < s.len() {
        assert(sq[i] == s[i]);
        match s[i] {
            TokenView::OpenContent => {
                lemma_group_end(s, i + 1, empty_styled(), ParsePhase::Content);
                if let Outcome::Done((child, end)) = spec_group(s, i + 1, empty_styled(), ParsePhase::Content) {
                    lemma_group_extend(s, q, i + 1, empty_styled(), ParsePhase::Content);
                    lemma_group_extend(s, q, end + 1, with_child(node, NodeView::Styled(child)), ParsePhase::Content);
                }
            },
            TokenView::CloseContent => {
                lemma_group_extend(s, q, i + 1, node, ParsePhase::AfterContent);
            },
            TokenView::OpenStyle => {
                lemma_group_extend(s, q, i + 1, node, ParsePhase::Style);
            },
            TokenView::CloseStyle => {},
            TokenView::Literal(l) => {
                match phase {
                    ParsePhase::Content => {
                        lemma_group_extend(s, q, i + 1, with_child(node, NodeView::Text(l)), ParsePhase::Content);
                    },
                    ParsePhase::AfterContent => {},
                    ParsePhase::Style => {
                        if let Outcome::Done(a) = spec_style_list(node.fg, node.bg, l) {
                            lemma_group_extend(
                                s,
                                q,
                                i + 1,
                                StyledView { fg: a.fg, bg: a.bg, style: a.style, children: node.children },
                                ParsePhase::Style,
                            );
                        }
                    },
                }
            },
        }
    }
}

proof fn lemma_parse_shift(p: Seq<TokenView>, s: Seq<TokenView>, i: int, acc: Seq<NodeView>)
    requires
        0 <= i,
    ensures
        spec_parse_from(p + s, p.len() + i, acc) == spec_parse_from(s, i, acc),
    decreases s.len() - i,
{
    let ps = p + s;
    let k = p.len() as int;
    if i < s.len() {
        assert(ps[k + i] == s[i]);
        match s[i] {
            TokenView::Literal(l) => {
                lemma_parse_shift(p, s, i + 1, acc.push(NodeView::Text(l)));
            },
            TokenView::OpenContent => {
                lemma_group_shift(p, s, i + 1, empty_styled(), ParsePhase::Content);
                if let Outcome::Done((n, end)) = spec_group(s, i + 1, empty_styled(), ParsePhase::Content) {
                    if i < end < s.len() {
                        lemma_parse_shift(p, s, end + 1, acc.push(NodeView::Styled(n)));
                    }
                }
            },
            _ => {},
        }
    }
}

proof fn lemma_parse_extend(s: Seq<TokenView>, q: Seq<TokenView>, i: int, acc: Seq<NodeView>)
    requires
        0 <= i <= s.len(),
        spec_parse_from(s, i, acc) is Done,
    ensures
        spec_parse_from(s + q, i, acc) == spec_parse_from(s + q, s.len() as int, spec_parse_from(s, i, acc)->Done_0),
    decreases s.len() - i,
{
    let sq = s + q;
    if i < s.len() {
        assert(sq[i] == s[i]);
        match s[i] {
            TokenView::Literal(l) => {
                lemma_parse_extend(s, q, i + 1, acc.push(NodeView::Text(l)));
            },
            TokenView::OpenContent => {
                lemma_group_end(s, i + 1, empty_styled(), ParsePhase::Content);
                if let Outcome::Done((n, end)) = spec_group(s, i + 1, empty_styled(), ParsePhase::Content) {
                    lemma_group_extend(s, q, i + 1, empty_styled(), ParsePhase::Content);
                    lemma_parse_extend(s, q, end + 1, acc.push(NodeView::Styled(n)));
                }
            },
            _ => {},
        }
    }
}

/// `o` with the nodes `acc` put before its nodes.
pub open spec fn prepend_nodes(acc: Seq<NodeView>, o: Outcome<Seq<NodeView>>) -> Outcome<Seq<NodeView>> {
    match o {
        Outcome::Done(v) => Outcome::Done(acc + v),
        Outcome::Fail(f) => Outcome::Fail(f),
        Outcome::BadSlice => Outcome::BadSlice,
    }
}

proof fn lemma_parse_acc(q: Seq<TokenView>, i: int, acc: Seq<NodeView>, x: Seq<NodeView>)
    ensures
        spec_parse_from(q, i, acc + x) == prepend_nodes(acc, spec_parse_from(q, i, x)),
    decreases q.len() - i,
{
    if 0 <= i < q.len() {
        match q[i] {
            TokenView::Literal(l) => {
                assert((acc + x).push(NodeView::Text(l)) =~= acc + x.push(NodeView::Text(l)));
                lemma_parse_acc(q, i + 1, acc, x.push(NodeView::Text(l)));
            },
            TokenView::OpenContent => {
                if let Outcome::Done((n, end)) = spec_group(q, i + 1, empty_styled(), ParsePhase::Content) {
                    if i < end < q.len() {
                        assert((acc + x).push(NodeView::Styled(n)) =~= acc + x.push(NodeView::Styled(n)));
                        lemma_parse_acc(q, end + 1, acc, x.push(NodeView::Styled(n)));
                    }
                }
            },
            _ => {},
        }
    }
}

/// Token sequences that each parse, put one after the other, parse to the
/// nodes of the first followed by the nodes of the second.
pub proof fn lemma_parse_concat(a: Seq<TokenView>, b: Seq<TokenView>)
    ensures
        spec_parse_from(a, 0, Seq::empty()) matches Outcome::Done(na) ==> (spec_parse_from(
            b,
            0,
            Seq::empty(),
        ) matches Outcome::Done(nb) ==> spec_parse_from(a + b, 0, Seq::empty()) == Outcome::Done(
            na + nb,
        )),
{
    if let Outcome::Done(na) = spec_parse_from(a, 0, Seq::empty()) {
        if let Outcome::Done(nb) = spec_parse_from(b, 0, Seq::empty()) {
            lemma_parse_extend(a, b, 0, Seq::empty());
            lemma_parse_shift(a, b, 0, na);
            assert(a.len() + 0 == a.len());
            lemma_parse_acc(b, 0, na, Seq::empty());
            assert(na + Seq::<NodeView>::empty() =~= na);
        }
    }
}

/// Format strings that each parse, the first without backslashes and ending
/// in a bracket, put one after the other parse to the nodes of the first
/// followed by the nodes of the second.
pub proof fn lemma_format_string_concat(a: Seq<char>, b: Seq<char>)
    requires
        has_no_backslash(a),
        a.len() > 0,
        is_bracket(a.last()),
    ensures
        spec_format_string(a) matches Outcome::Done(na) ==> (spec_format_string(b) matches Outcome::Done(nb)
            ==> spec_format_string(a + b) == Outcome::Done(na + nb)),
{
    lemma_tokenize_concat(a, b);
    lemma_parse_concat(spec_tokenize(a), spec_tokenize(b));
}

/// `r` and the final read position `pos` are what outcome `o` of reading a group describes.
pub open spec fn reports_group(r: Result<FormatNode, Halt>, o: Outcome<(StyledView, int)>, pos: int) -> bool {
    match o {
        Outcome::Done((n, end)) => r matches Ok(x) && styled_view(x) == n && pos == end,
        Outcome::Fail(k) => r matches Err(Halt::Error(e)) && e@ == k,
        Outcome::BadSlice => r matches Err(Halt::BadSlice),
    }
}

/// A token stream with a read position.
#[derive(Debug)]
pub struct Parser {
    pub tokens: Vec<Token>,
    pub pos: usize,
}

impl Parser {
    pub open spec fn tokens_view(&self) -> Seq<TokenView> {
        tokens_view(self.tokens@)
    }

    /// Splits the input into bracket tokens and maximal literal runs; a
    /// backslash makes the next character literal.
    pub fn tokenize(input: String) -> (p: Parser)
        ensures
            p.tokens_view() == spec_tokenize(input@),
            p.pos == 0,
    {
        let mut tokens: Vec<Token> = Vec::new();
        let mut tmp = String::new();
        let mut escaping = false;
        let ghost s = input@;
        proof {
            assert(s.take(0) =~= Seq::<char>::empty());
            assert(tokens_view(tokens@) =~= Seq::<TokenView>::empty());
        }
        for ch in it: input.as_str().chars()
            invariant
                s == input@,
                it.seq() == s,
                lex_prefix(s.take(it.index() as int)) == (LexState {
                    tokens: tokens_view(tokens@),
                    pending: tmp@,
                    escaping,
                }),
        {
            let ghost i = it.index();
            proof {
                assert(s.take(i + 1).drop_last() =~= s.take(i as int));
                assert(s.take(i + 1).last() == ch);
            }
            if (ch == '(' || ch == ')' || ch == '[' || ch == ']') && !escaping {
                if !tmp.as_str().is_empty() {
                    tokens.push(Token::Literal(tmp.clone()));
                    tmp = String::new();
                }
                if ch == '(' {
                    tokens.push(Token::OpenContent);
                } else if ch == ')' {
                    tokens.push(Token::CloseContent);
                } else if ch == '[' {
                    tokens.push(Token::OpenStyle);
                } else {
                    tokens.push(Token::CloseStyle);
                }
            } else if ch == '\\' && !escaping {
                escaping = true;
            } else {
                push_char(&mut tmp, ch);
                escaping = false;
            }
            proof {
                assert(tokens_view(tokens@) =~= lex_prefix(s.take(i + 1)).tokens);
                assert(tmp@ =~= lex_prefix(s.take(i + 1)).pending);
            }
        }
        let ghost n = s.len();
        proof {
            assert(s.take(n as int) =~= s);
        }
        if !tmp.as_str().is_empty() {
            tokens.push(Token::Literal(tmp));
        }
        proof {
            assert(tokens_view(tokens@) =~= spec_tokenize(s));
        }
        Parser { tokens, pos: 0 }
    }

    /// The nodes read from the read position on.
    pub open spec fn spec_parse(&self) -> Outcome<Seq<NodeView>> {
        spec_parse_from(self.tokens_view(), self.pos as int, Seq::empty())
    }

    fn parse_nodes(&mut self) -> (r: Result<FormatString, Halt>)
        ensures
            reports(r, old(self).spec_parse(), |x: FormatString, v: Seq<NodeView>| x.view_nodes() == v),
    {
        let mut out = FormatString { nodes: Vec::new() };
        let ghost toks = self.tokens_view();
        let ghost goal = old(self).spec_parse();
        assert(out.view_nodes() =~= Seq::<NodeView>::empty());
        while self.pos < self.tokens.len()
            invariant
                toks == self.tokens_view(),
                goal == old(self).spec_parse(),
                goal == spec_parse_from(toks, self.pos as int, out.view_nodes()),
            decreases self.tokens@.len() - self.pos,
        {
            let ghost p = self.pos as int;
            assert(toks[p] == self.tokens@[p]@);
            let ghost old_nodes = out.nodes@;
            match &self.tokens[self.pos] {
                Token::CloseContent | Token::OpenStyle | Token::CloseStyle => {
                    return Err(Halt::Error(FormatError::UnmatchedBracket));
                },
                Token::OpenContent => {
                    match self.parse_formatted() {
                        Ok(node) => {
                            proof {
                                lemma_group_end(toks, p + 1, empty_styled(), ParsePhase::Content);
                            }
                            let ghost item = FormatStringNode::Formatted(node);
                            out.nodes.push(FormatStringNode::Formatted(node));
                            proof {
                                lemma_nodes_view_push(old_nodes, item);
                            }
                        },
                        Err(h) => return Err(h),
                    }
                },
                Token::Literal(lit) => {
                    out.nodes.push(FormatStringNode::String(lit.clone()));
                    proof {
                        lemma_nodes_view_push(old_nodes, FormatStringNode::String(*lit));
                    }
                },
            }
            self.pos = self.pos + 1;
        }
        Ok(out)
    }

    /// Parses the tokens from the read position on. Defined except where a
    /// hex colour code cannot be cut into its two-byte channels.
    pub fn parse(self) -> (r: Result<FormatString, FormatError>)
        requires
            !(self.spec_parse() is BadSlice),
        ensures
            match self.spec_parse() {
                Outcome::Done(v) => r matches Ok(x) && x.view_nodes() == v,
                Outcome::Fail(k) => r matches Err(e) && e@ == k,
                Outcome::BadSlice => false,
            },
    {
        let mut parser = self;
        match parser.parse_nodes() {
            Ok(s) => Ok(s),
            Err(Halt::Error(e)) => Err(e),
            // Ruled out by the precondition.
            Err(Halt::BadSlice) => Err(FormatError::UnmatchedBracket),
        }
    }

    /// Parses the tokens from the read position on; `None` exactly where a hex
    /// colour code cannot be cut into its two-byte channels.
    pub fn parse_checked(self) -> (r: Option<Result<FormatString, FormatError>>)
        ensures
            match self.spec_parse() {
                Outcome::Done(v) => r matches Some(Ok(x)) && x.view_nodes() == v,
                Outcome::Fail(k) => r matches Some(Err(e)) && e@ == k,
                Outcome::BadSlice => r is None,
            },
    {
        let mut parser = self;
        match parser.parse_nodes() {
            Ok(s) => Some(Ok(s)),
            Err(Halt::Error(e)) => Some(Err(e)),
            Err(Halt::BadSlice) => None,
        }
    }

    /// Reads a group whose `(` is at the read position, leaving the read
    /// position at its closing `]`.
    fn parse_formatted(&mut self) -> (r: Result<FormatNode, Halt>)
        requires
            old(self).pos < old(self).tokens@.len(),
        ensures
            final(self).tokens@ == old(self).tokens@,
            old(self).pos < final(self).pos <= final(self).tokens@.len(),
            r matches Err(Halt::Error(FormatError::TrailingBracket)) ==> final(self).pos
                == final(self).tokens@.len(),
            reports_group(
                r,
                spec_group(old(self).tokens_view(), old(self).pos + 1, empty_styled(), ParsePhase::Content),
                final(self).pos as int,
            ),
        decreases old(self).tokens@.len() - old(self).pos,
    {
        assert(self.tokens@.len() == self.tokens.len());
        self.pos = self.pos + 1;
        let mut res = FormatNode { fg: None, bg: None, style: plain_style(), children: Vec::new() };
        let mut phase = ParsePhase::Content;
        let ghost toks = self.tokens_view();
        let ghost start = self.pos as int;
        assert(styled_view(res) == empty_styled()) by {
            assert(nodes_view(res.children@) =~= Seq::<NodeView>::empty());
        }
        loop
            invariant
                self.tokens@ == old(self).tokens@,
                toks == self.tokens_view(),
                start == old(self).pos + 1,
                start <= self.pos <= self.tokens@.len(),
                spec_group(toks, start, empty_styled(), ParsePhase::Content) == spec_group(
                    toks,
                    self.pos as int,
                    styled_view(res),
                    phase,
                ),
            decreases self.tokens@.len() - self.pos,
        {
            if self.pos >= self.tokens.len() {
                return Err(Halt::Error(FormatError::TrailingBracket));
            }
            let ghost p = self.pos as int;
            let ghost before = styled_view(res);
            assert(toks[p] == self.tokens@[p]@);
            match &self.tokens[self.pos] {
                Token::OpenContent => match phase {
                    ParsePhase::Content => {
                        match self.parse_formatted() {
                            Ok(child) => {
                                proof {
                                    lemma_group_end(toks, p + 1, empty_styled(), ParsePhase::Content);
                                }
                                let ghost old_children = res.children@;
                                let ghost child_node = FormatStringNode::Formatted(child);
                                res.children.push(FormatStringNode::Formatted(child));
                                proof {
                                    lemma_nodes_view_push(old_children, child_node);
                                }
                            },
                            Err(h) => return Err(h),
                        }
                    },
                    _ => return Err(Halt::Error(FormatError::UnmatchedBracket)),
                },
                Token::CloseContent => match phase {
                    ParsePhase::Content => {
                        phase = ParsePhase::AfterContent;
                    },
                    _ => return Err(Halt::Error(FormatError::UnmatchedBracket)),
                },
                Token::OpenStyle => match phase {
                    ParsePhase::Content => return Err(Halt::Error(FormatError::UnmatchedBracket)),
                    _ => {
                        phase = ParsePhase::Style;
                    },
                },
                Token::CloseStyle => match phase {
                    ParsePhase::Style => return Ok(res),
                    _ => return Err(Halt::Error(FormatError::UnmatchedBracket)),
                },
                Token::Literal(lit) => match phase {
                    ParsePhase::Content => {
                        let ghost old_children = res.children@;
                        res.children.push(FormatStringNode::String(lit.clone()));
                        proof {
                            lemma_nodes_view_push(old_children, FormatStringNode::String(*lit));
                        }
                    },
                    ParsePhase::AfterContent => return Err(Halt::Error(FormatError::UnmatchedBracket)),
                    ParsePhase::Style => {
                        match apply_style_list(&mut res, lit.as_str()) {
                            Ok(()) => {},
                            Err(h) => return Err(h),
                        }
                    },
                },
            }
            self.pos = self.pos + 1;
        }
    }
}

impl FormatString {
    /// Parses a format string. Defined except where a hex colour code cannot
    /// be cut into its two-byte channels.
    pub fn try_from(value: String) -> (r: Result<FormatString, FormatError>)
        requires
            !(spec_format_string(value@) is BadSlice),
        ensures
            match spec_format_string(value@) {
                Outcome::Done(v) => r matches Ok(x) && x.view_nodes() == v,
                Outcome::Fail(k) => r matches Err(e) && e@ == k,
                Outcome::BadSlice => false,
            },
    {
        let parser = Parser::tokenize(value);
        parser.parse()
    }

    /// Parses a format string; `None` exactly where a hex colour code cannot
    /// be cut into its two-byte channels.
    pub fn parse_checked(value: String) -> (r: Option<Result<FormatString, FormatError>>)
        ensures
            match spec_format_string(value@) {
                Outcome::Done(v) => r matches Some(Ok(x)) && x.view_nodes() == v,
                Outcome::Fail(k) => r matches Some(Err(e)) && e@ == k,
                Outcome::BadSlice => r is None,
            },
    {
        let parser = Parser::tokenize(value);
        parser.parse_checked()
    }
}

} // verus!
