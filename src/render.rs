//! Markup written back from tokens, and what tokenizing it gives.
use vstd::prelude::*;
use crate::consumer::occurs_at;
use crate::html_parser::{
    comment_close, doctype_word, empty_attr, flush, lemma_step_progress, machine_wf, pending_text,
    push_all, run, step, text_of, tokens_of, initial_machine, AttributeView, MachineView, StateType, TokenType, TokenView,
    TokenizeError, finished, lemma_push_all_front,
};
use crate::text::{alphabetic, alphanumeric};

verus! {

/// The quote an attribute value is written with: `"`, or `'` where the
/// value holds a `"`.
pub open spec fn quote_for(v: Seq<char>) -> char {
    if v.contains('"') {
        '\''
    } else {
        '"'
    }
}

/// One attribute written as ` name="value"`.
pub open spec fn render_attr(a: AttributeView) -> Seq<char> {
    seq![' '] + a.name + seq!['=', quote_for(a.value)] + a.value + seq![quote_for(a.value)]
}

/// An attribute written as ` name=value`, without quotes.
pub open spec fn render_unquoted(a: AttributeView) -> Seq<char> {
    seq![' '] + a.name + seq!['='] + a.value
}

/// A value the tokenizer reads back whole without quotes: not empty, not
/// starting with a quote, and of alphanumeric characters other than blanks,
/// line breaks and `>`.
pub open spec fn unquoted_ok(v: Seq<char>) -> bool {
    &&& v.len() > 0
    &&& v[0] != '\'' && v[0] != '"'
    &&& forall|k: int|
        0 <= k < v.len() ==> alphanumeric(#[trigger] v[k]) && !crate::html_parser::is_newline_or_blank(v[k]) && v[k] != '>'
}

/// Attributes written one after another, in order.
pub open spec fn render_attrs(a: Seq<AttributeView>) -> Seq<char>
    decreases a.len(),
{
    if a.len() == 0 {
        seq![]
    } else {
        render_attrs(a.drop_last()) + render_attr(a.last())
    }
}

/// The quote the machine holds after reading a token's markup, given the one
/// it held before.
pub open spec fn quote_after(t: TokenView, qv: char) -> char {
    if t.kind == TokenType::StartTag && t.self_closing && t.attrs.len() > 0 {
        quote_for(t.attrs.last().value)
    } else if t.kind == TokenType::StartTag && !t.self_closing && t.attrs.len() > 1 {
        quote_for(t.attrs[t.attrs.len() - 2].value)
    } else {
        qv
    }
}

/// An attribute the tokenizer reads back whole: a name of letters other
/// than `=`, not starting with a space, and a value that lacks one of the two
/// quotes.
pub open spec fn attr_ok(a: AttributeView) -> bool {
    &&& a.name.len() > 0
    &&& a.name[0] != ' '
    &&& forall|k: int| 0 <= k < a.name.len() ==> a.name[k] != '=' && alphabetic(#[trigger] a.name[k])
    &&& !(a.value.contains('"') && a.value.contains('\''))
}

/// What follows the name of a start tag: its attributes and `>`, or `/>`
/// where it is self-closing.
pub open spec fn start_tag_tail(t: TokenView) -> Seq<char> {
    if t.self_closing {
        render_attrs(t.attrs) + seq!['/', '>']
    } else if t.attrs.len() == 0 {
        seq!['>']
    } else {
        render_attrs(t.attrs.drop_last()) + render_unquoted(t.attrs.last()) + seq!['>']
    }
}

/// The markup of one token.
pub open spec fn render_token(t: TokenView) -> Seq<char> {
    match t.kind {
        TokenType::Content => text_of(t.data),
        TokenType::StartTag => seq!['<'] + text_of(t.name) + start_tag_tail(t),
        TokenType::EndTag => seq!['<', '/'] + text_of(t.name) + seq!['>'],
        TokenType::Comment => seq!['<', '!', '-', '-'] + text_of(t.data) + comment_close(),
        TokenType::Doctype => seq!['<', '!'] + doctype_word() + seq![' '] + text_of(t.name) + seq!['>'],
    }
}

/// The markup of a sequence of tokens: each token's markup, in order. Quotes
/// and blanks of the markup the tokens came from are not kept.
pub open spec fn render(ts: Seq<TokenView>) -> Seq<char>
    decreases ts.len(),
{
    if ts.len() == 0 {
        seq![]
    } else {
        render(ts.drop_last()) + render_token(ts.last())
    }
}

/// A tag name the tokenizer reads back whole: a letter first, and no space,
/// `/` or `>`.
pub open spec fn tag_name_ok(n: Seq<char>) -> bool {
    &&& n.len() > 0
    &&& alphabetic(n[0])
    &&& n[0] != '!'
    &&& forall|k: int| 0 <= k < n.len() ==> n[k] != ' ' && n[k] != '/' && n[k] != '>'
}

/// A comment body that `-->` does not end early.
pub open spec fn comment_ok(d: Seq<char>) -> bool {
    forall|j: int| 0 <= j < d.len() ==> !occurs_at(d + comment_close(), j, comment_close())
}

/// A token in the shape the tokenizer gives it, where only start tags carry
/// attributes, and the last attribute of one that is not self-closing has
/// an unquoted value.
pub open spec fn plain_token(t: TokenView) -> bool {
    &&& t.kind != TokenType::StartTag ==> t.attrs.len() == 0
    &&& match t.kind {
        TokenType::Content => t.name is None && !t.self_closing && t.data is Some && text_of(t.data).len()
            > 0 && forall|k: int| 0 <= k < text_of(t.data).len() ==> text_of(t.data)[k] != '<',
        TokenType::StartTag => t.data is None && t.name is Some && tag_name_ok(text_of(t.name)) && (
        t.attrs.len() > 0 && !t.self_closing ==> unquoted_ok(t.attrs.last().value)) && forall|k: int|
            0 <= k < t.attrs.len() ==> attr_ok(#[trigger] t.attrs[k]),
        TokenType::EndTag => t.data is None && !t.self_closing && t.name is Some && tag_name_ok(
            text_of(t.name),
        ),
        TokenType::Comment => t.name is None && !t.self_closing && t.data is Some && comment_ok(text_of(t.data)),
        TokenType::Doctype => t.data is None && !t.self_closing && t.name is Some && forall|k: int|
            0 <= k < text_of(t.name).len() ==> alphanumeric(#[trigger] text_of(t.name)[k]) && text_of(
                t.name,
            )[k] != '>',
    }
}

/// Plain tokens, no two runs of text in a row.
pub open spec fn plain_tokens(ts: Seq<TokenView>) -> bool {
    &&& forall|i: int| 0 <= i < ts.len() ==> plain_token(#[trigger] ts[i])
    &&& forall|i: int|
        0 <= i < ts.len() - 1 ==> !(#[trigger] ts[i].kind == TokenType::Content && ts[i + 1].kind
            == TokenType::Content)
}

/// The machine once the markup of the first `i` tokens is read: in the data
/// state, with a trailing run of text still under construction. `qv` is the
/// quote that the last quoted attribute value was read with.
pub open spec fn after_tokens(ts: Seq<TokenView>, i: int, qv: char) -> MachineView {
    let pending = i > 0 && ts[i - 1].kind == TokenType::Content;
    MachineView {
        state: StateType::Data,
        quote: qv,
        pos: render(ts.subrange(0, i)).len() as int,
        tokens: if pending {
            ts.subrange(0, i - 1)
        } else {
            ts.subrange(0, i)
        },
        current: if pending {
            Some(ts[i - 1])
        } else {
            None
        },
        attr: empty_attr(),
    }
}

proof fn lemma_run_step(s: Seq<char>, m: MachineView)
    requires
        machine_wf(s, m),
        !finished(s, m),
        step(s, m) is Ok,
    ensures
        run(s, m) == run(s, step(s, m)->Ok_0),
        machine_wf(s, step(s, m)->Ok_0),
{
    lemma_step_progress(s, m);
    reveal(run);
}

/// Reading text without a `<` in the data state only extends the token
/// under construction.
proof fn lemma_text_to(s: Seq<char>, m: MachineView, j: int)
    requires
        m.state == StateType::Data,
        machine_wf(s, m),
        m.pos <= j <= s.len(),
        forall|k: int| m.pos <= k < j ==> s[k] != '<',
    ensures
        run(s, m) == run(
            s,
            MachineView { pos: j, current: pending_text(m.current, s.subrange(m.pos, j)), ..m },
        ),
    decreases j - m.pos,
{
    if m.pos < j {
        lemma_run_step(s, m);
        let m2 = step(s, m)->Ok_0;
        lemma_text_to(s, m2, j);
        let t = match m.current {
            Some(t) => t,
            None => crate::html_parser::new_token(TokenType::Content),
        };
        lemma_push_all_front(t.data, s[m.pos], s.subrange(m.pos + 1, j));
        assert(seq![s[m.pos]] + s.subrange(m.pos + 1, j) =~= s.subrange(m.pos, j));
        if m.pos + 1 == j {
            assert(s.subrange(m.pos + 1, j) =~= seq![]);
            assert(seq![s[m.pos]] + seq![] =~= seq![s[m.pos]]);
        }
    } else {
        assert(s.subrange(m.pos, j) =~= seq![]);
        assert(MachineView { pos: j, current: m.current, ..m } == m);
    }
}

/// Reading name characters in the tag name state only extends the name.
proof fn lemma_name_to(s: Seq<char>, m: MachineView, j: int)
    requires
        m.state == StateType::TagName,
        machine_wf(s, m),
        m.pos <= j <= s.len(),
        forall|k: int| m.pos <= k < j ==> s[k] != ' ' && s[k] != '/' && s[k] != '>',
    ensures
        run(s, m) == run(
            s,
            MachineView {
                pos: j,
                current: Some(
                    TokenView {
                        name: push_all(m.current.unwrap().name, s.subrange(m.pos, j)),
                        ..m.current.unwrap()
                    },
                ),
                ..m
            },
        ),
    decreases j - m.pos,
{
    let t = m.current.unwrap();
    if m.pos < j {
        lemma_run_step(s, m);
        let m2 = step(s, m)->Ok_0;
        lemma_name_to(s, m2, j);
        lemma_push_all_front(t.name, s[m.pos], s.subrange(m.pos + 1, j));
        assert(seq![s[m.pos]] + s.subrange(m.pos + 1, j) =~= s.subrange(m.pos, j));
        if m.pos + 1 == j {
            assert(s.subrange(m.pos + 1, j) =~= seq![]);
            assert(seq![s[m.pos]] + seq![] =~= seq![s[m.pos]]);
        }
    } else {
        assert(s.subrange(m.pos, j) =~= seq![]);
        assert(MachineView { pos: j, current: Some(TokenView { name: t.name, ..t }), ..m } == m);
    }
}

proof fn lemma_find_first(s: Seq<char>, i: int, k: int, d: Seq<char>)
    requires
        0 <= i <= k,
        forall|j: int| i <= j < k ==> !occurs_at(s, j, d),
        occurs_at(s, k, d),
    ensures
        crate::consumer::find_from(s, i, d) == Some(k),
    decreases k - i,
{
    if i < k {
        assert(!occurs_at(s, i, d));
        lemma_find_first(s, i + 1, k, d);
    }
}

/// The markup of the first `j` tokens begins the markup of all of them.
proof fn lemma_render_prefix(ts: Seq<TokenView>, j: int)
    requires
        0 <= j <= ts.len(),
    ensures
        render(ts.subrange(0, j)).len() <= render(ts).len(),
        render(ts).subrange(0, render(ts.subrange(0, j)).len() as int) == render(ts.subrange(0, j)),
    decreases ts.len(),
{
    if j == ts.len() {
        assert(ts.subrange(0, j) =~= ts);
        assert(render(ts).subrange(0, render(ts).len() as int) =~= render(ts));
    } else {
        let dl = ts.drop_last();
        lemma_render_prefix(dl, j);
        assert(dl.subrange(0, j) =~= ts.subrange(0, j));
        let r = render(ts.subrange(0, j));
        assert(render(ts) == render(dl) + render_token(ts.last()));
        assert(render(ts).subrange(0, r.len() as int) =~= render(dl).subrange(0, r.len() as int));
    }
}

proof fn lemma_render_next(ts: Seq<TokenView>, i: int)
    requires
        0 <= i < ts.len(),
    ensures
        render(ts.subrange(0, i + 1)) == render(ts.subrange(0, i)) + render_token(ts[i]),
{
    assert(ts.subrange(0, i + 1).drop_last() =~= ts.subrange(0, i));
}

/// Where the markup of token `i` stands in the markup of all of them.
proof fn lemma_token_chars(ts: Seq<TokenView>, i: int)
    requires
        0 <= i < ts.len(),
    ensures
        ({
            let s = render(ts);
            let p = render(ts.subrange(0, i)).len() as int;
            let r = render_token(ts[i]);
            &&& p + r.len() <= s.len()
            &&& render(ts.subrange(0, i + 1)).len() == p + r.len()
            &&& forall|k: int| 0 <= k < r.len() ==> s[p + k] == r[k]
        }),
{
    lemma_render_prefix(ts, i + 1);
    lemma_render_next(ts, i);
    let s = render(ts);
    let p = render(ts.subrange(0, i)).len() as int;
    let r = render_token(ts[i]);
    let whole = render(ts.subrange(0, i + 1));
    assert forall|k: int| 0 <= k < r.len() implies s[p + k] == r[k] by {
        assert(s.subrange(0, whole.len() as int)[p + k] == whole[p + k]);
    }
}

/// The tokens emitted before token `i` is read, once any pending text is
/// flushed.
proof fn lemma_flushed_before(ts: Seq<TokenView>, i: int, qv: char)
    requires
        plain_tokens(ts),
        0 <= i < ts.len(),
    ensures
        ({
            let m = after_tokens(ts, i, qv);
            let tc = match m.current {
                Some(t) => t,
                None => crate::html_parser::new_token(TokenType::Content),
            };
            flush(MachineView { current: Some(tc), ..m }) == ts.subrange(0, i)
        }),
{
    if i > 0 && ts[i - 1].kind == TokenType::Content {
        assert(plain_token(ts[i - 1]));
        assert(ts.subrange(0, i - 1).push(ts[i - 1]) =~= ts.subrange(0, i));
    }
}

pub open spec fn pending_or_new(cur: Option<TokenView>) -> TokenView {
    match cur {
        Some(t) => t,
        None => crate::html_parser::new_token(TokenType::Content),
    }
}

proof fn lemma_step_open_angle(s: Seq<char>, m: MachineView)
    requires
        machine_wf(s, m),
        m.state == StateType::Data,
        m.pos < s.len(),
        s[m.pos] == '<',
    ensures
        run(s, m) == run(
            s,
            MachineView { state: StateType::TagOpen, pos: m.pos + 1, current: Some(pending_or_new(m.current)), ..m },
        ),
{
    lemma_run_step(s, m);
}

proof fn lemma_step_tag_open(s: Seq<char>, m: MachineView)
    requires
        machine_wf(s, m),
        m.state == StateType::TagOpen,
        m.pos < s.len(),
        s[m.pos] == '!' || s[m.pos] == '/' || alphabetic(s[m.pos]),
    ensures
        run(s, m) == run(
            s,
            MachineView {
                state: if s[m.pos] == '!' {
                    StateType::MarkupDeclarationOpen
                } else if s[m.pos] == '/' {
                    StateType::EndTagOpen
                } else {
                    StateType::TagName
                },
                pos: if s[m.pos] == '!' || s[m.pos] == '/' {
                    m.pos + 1
                } else {
                    m.pos
                },
                tokens: flush(m),
                current: Some(crate::html_parser::new_token(TokenType::StartTag)),
                ..m
            },
        ),
{
    lemma_run_step(s, m);
}

proof fn lemma_step_end_tag_open(s: Seq<char>, m: MachineView)
    requires
        machine_wf(s, m),
        m.state == StateType::EndTagOpen,
        m.pos < s.len(),
        s[m.pos] != '>',
        alphabetic(s[m.pos]),
    ensures
        run(s, m) == run(
            s,
            MachineView {
                state: StateType::TagName,
                current: Some(TokenView { kind: TokenType::EndTag, ..m.current.unwrap() }),
                ..m
            },
        ),
{
    lemma_run_step(s, m);
}

proof fn lemma_step_tag_name_end(s: Seq<char>, m: MachineView)
    requires
        machine_wf(s, m),
        m.state == StateType::TagName,
        m.pos < s.len(),
        s[m.pos] == '>' || s[m.pos] == '/',
    ensures
        s[m.pos] == '>' ==> run(s, m) == run(
            s,
            MachineView {
                state: StateType::Data,
                pos: m.pos + 1,
                tokens: m.tokens.push(m.current.unwrap()),
                current: None,
                ..m
            },
        ),
        s[m.pos] == '/' ==> run(s, m) == run(
            s,
            MachineView { state: StateType::SelfClosingStartTag, pos: m.pos + 1, ..m },
        ),
{
    lemma_run_step(s, m);
}

proof fn lemma_step_self_closing(s: Seq<char>, m: MachineView)
    requires
        machine_wf(s, m),
        m.state == StateType::SelfClosingStartTag,
        m.pos < s.len(),
        s[m.pos] == '>',
    ensures
        run(s, m) == run(
            s,
            MachineView {
                state: StateType::Data,
                pos: m.pos + 1,
                tokens: m.tokens.push(TokenView { self_closing: true, ..m.current.unwrap() }),
                current: None,
                ..m
            },
        ),
{
    lemma_run_step(s, m);
}

proof fn lemma_attr_name_to(s: Seq<char>, m: MachineView, j: int)
    requires
        m.state == StateType::AttributeName,
        machine_wf(s, m),
        m.pos <= j <= s.len(),
        forall|k: int| m.pos <= k < j ==> s[k] != '=' && alphabetic(#[trigger] s[k]),
    ensures
        run(s, m) == run(
            s,
            MachineView { pos: j, attr: AttributeView { name: m.attr.name + s.subrange(m.pos, j), ..m.attr }, ..m },
        ),
    decreases j - m.pos,
{
    if m.pos < j {
        lemma_run_step(s, m);
        let m2 = step(s, m)->Ok_0;
        lemma_attr_name_to(s, m2, j);
        assert(m.attr.name.push(s[m.pos]) + s.subrange(m.pos + 1, j) =~= m.attr.name + s.subrange(m.pos, j));
    } else {
        assert(m.attr.name + s.subrange(m.pos, j) =~= m.attr.name);
        assert(MachineView { pos: j, attr: AttributeView { name: m.attr.name, ..m.attr }, ..m } == m);
    }
}

proof fn lemma_attr_value_to(s: Seq<char>, m: MachineView, j: int)
    requires
        m.state == StateType::AttributeValueQuoted,
        machine_wf(s, m),
        m.pos <= j <= s.len(),
        forall|k: int| m.pos <= k < j ==> s[k] != m.quote,
    ensures
        run(s, m) == run(
            s,
            MachineView { pos: j, attr: AttributeView { value: m.attr.value + s.subrange(m.pos, j), ..m.attr }, ..m },
        ),
    decreases j - m.pos,
{
    if m.pos < j {
        lemma_run_step(s, m);
        let m2 = step(s, m)->Ok_0;
        lemma_attr_value_to(s, m2, j);
        assert(m.attr.value.push(s[m.pos]) + s.subrange(m.pos + 1, j) =~= m.attr.value + s.subrange(m.pos, j));
    } else {
        assert(m.attr.value + s.subrange(m.pos, j) =~= m.attr.value);
        assert(MachineView { pos: j, attr: AttributeView { value: m.attr.value, ..m.attr }, ..m } == m);
    }
}

proof fn lemma_step_attr_start(s: Seq<char>, m: MachineView)
    requires
        machine_wf(s, m),
        m.state == StateType::TagName || m.state == StateType::AfterAttributeValue,
        m.pos + 1 < s.len(),
        s[m.pos] == ' ',
        s[m.pos + 1] != ' ',
        s[m.pos + 1] != '=',
    ensures
        run(s, m) == run(
            s,
            MachineView { state: StateType::AttributeName, pos: m.pos + 1, attr: empty_attr(), ..m },
        ),
{
    lemma_run_step(s, m);
    let m2 = step(s, m)->Ok_0;
    assert(m2 == MachineView { state: StateType::BeforeAttributeName, pos: m.pos + 1, ..m });
    lemma_run_step(s, m2);
}

proof fn lemma_step_attr_equals(s: Seq<char>, m: MachineView)
    requires
        machine_wf(s, m),
        m.state == StateType::AttributeName,
        m.pos + 1 < s.len(),
        s[m.pos] == '=',
        s[m.pos + 1] == '"' || s[m.pos + 1] == '\'',
    ensures
        run(s, m) == run(
            s,
            MachineView { state: StateType::AttributeValueQuoted, quote: s[m.pos + 1], pos: m.pos + 2, ..m },
        ),
{
    lemma_run_step(s, m);
    let m2 = step(s, m)->Ok_0;
    assert(m2 == MachineView { state: StateType::BeforeAttributeValue, pos: m.pos + 1, ..m });
    lemma_run_step(s, m2);
}

proof fn lemma_step_attr_close(s: Seq<char>, m: MachineView)
    requires
        machine_wf(s, m),
        m.state == StateType::AttributeValueQuoted,
        m.pos < s.len(),
        s[m.pos] == m.quote,
        m.current.unwrap().kind == TokenType::StartTag,
    ensures
        run(s, m) == run(
            s,
            MachineView {
                state: StateType::AfterAttributeValue,
                pos: m.pos + 1,
                current: Some(TokenView { attrs: m.current.unwrap().attrs.push(m.attr), ..m.current.unwrap() }),
                attr: empty_attr(),
                ..m
            },
        ),
{
    lemma_run_step(s, m);
}

/// One attribute's markup, read after a tag name or another attribute.
#[verifier::rlimit(100)]
proof fn lemma_one_attr(s: Seq<char>, m: MachineView, at: AttributeView)
    requires
        machine_wf(s, m),
        m.state == StateType::TagName || m.state == StateType::AfterAttributeValue,
        attr_ok(at),
        m.pos + render_attr(at).len() <= s.len(),
        forall|k: int| 0 <= k < render_attr(at).len() ==> s[m.pos + k] == render_attr(at)[k],
        m.current is Some,
        m.current.unwrap().kind == TokenType::StartTag,
    ensures
        run(s, m) == run(
            s,
            MachineView {
                state: StateType::AfterAttributeValue,
                quote: quote_for(at.value),
                pos: m.pos + render_attr(at).len(),
                current: Some(TokenView { attrs: m.current.unwrap().attrs.push(at), ..m.current.unwrap() }),
                attr: empty_attr(),
                ..m
            },
        ),
{
    let r = render_attr(at);
    let n = at.name;
    let v = at.value;
    let q = quote_for(v);
    let p = m.pos;
    assert(r =~= seq![' '] + n + seq!['=', q] + v + seq![q]);
    assert(r[0] == ' ' && r[1] == n[0]);
    assert(s[p + 0] == r[0] && s[p + 1] == r[1]);
    lemma_step_attr_start(s, m);
    let m1 = MachineView { state: StateType::AttributeName, pos: p + 1, attr: empty_attr(), ..m };
    assert forall|k: int| p + 1 <= k < p + 1 + n.len() implies s[k] != '=' && alphabetic(#[trigger] s[k]) by {
        assert(s[p + (k - p)] == r[k - p]);
        assert(r[k - p] == n[k - p - 1]);
    }
    lemma_attr_name_to(s, m1, p + 1 + n.len());
    assert(s.subrange(p + 1, p + 1 + n.len()) =~= n) by {
        assert forall|k: int| 0 <= k < n.len() implies s.subrange(p + 1, p + 1 + n.len())[k] == n[k] by {
            assert(s[p + (1 + k)] == r[1 + k]);
        }
    }
    assert(seq![] + n =~= n);
    let m2 = MachineView { pos: p + 1 + n.len(), attr: AttributeView { name: n, value: seq![] }, ..m1 };
    let e: int = 1 + n.len() as int;
    assert(r[e] == '=' && r[e + 1] == q);
    assert(s[p + e] == r[e] && s[p + (e + 1)] == r[e + 1]);
    assert(q == '"' || q == '\'');
    lemma_step_attr_equals(s, m2);
    let m3 = MachineView { state: StateType::AttributeValueQuoted, quote: q, pos: p + e + 2, ..m2 };
    let vs = p + e + 2;
    assert forall|k: int| vs <= k < vs + v.len() implies s[k] != q by {
        assert(s[p + (k - p)] == r[k - p]);
        assert(r[k - p] == v[k - vs]);
        if q == '"' {
            assert(!v.contains('"'));
        } else {
            assert(v.contains('"'));
            assert(!v.contains('\''));
        }
    }
    lemma_attr_value_to(s, m3, vs + v.len());
    assert(s.subrange(vs, vs + v.len()) =~= v) by {
        assert forall|k: int| 0 <= k < v.len() implies s.subrange(vs, vs + v.len())[k] == v[k] by {
            assert(s[p + (e + 2 + k)] == r[e + 2 + k]);
        }
    }
    assert(seq![] + v =~= v);
    let m4 = MachineView { pos: vs + v.len(), attr: AttributeView { name: n, value: v }, ..m3 };
    let ve: int = e + 2 + v.len() as int;
    assert(r[ve] == q);
    assert(s[p + ve] == r[ve]);
    lemma_step_attr_close(s, m4);
    assert(at == AttributeView { name: n, value: v });
}

proof fn lemma_step_unquoted_start(s: Seq<char>, m: MachineView)
    requires
        machine_wf(s, m),
        m.state == StateType::AttributeName,
        m.pos + 1 < s.len(),
        s[m.pos] == '=',
        s[m.pos + 1] != ' ' && s[m.pos + 1] != '"' && s[m.pos + 1] != '\'' && s[m.pos + 1] != '>',
    ensures
        run(s, m) == run(s, MachineView { state: StateType::AttributeValueUnquoted, pos: m.pos + 1, ..m }),
{
    lemma_run_step(s, m);
    let m2 = step(s, m)->Ok_0;
    assert(m2 == MachineView { state: StateType::BeforeAttributeValue, pos: m.pos + 1, ..m });
    lemma_run_step(s, m2);
}

proof fn lemma_unquoted_value_to(s: Seq<char>, m: MachineView, j: int)
    requires
        m.state == StateType::AttributeValueUnquoted,
        machine_wf(s, m),
        m.pos <= j <= s.len(),
        forall|k: int| m.pos <= k < j ==> alphanumeric(#[trigger] s[k]) && !crate::html_parser::is_newline_or_blank(s[k]) && s[k] != '>',
    ensures
        run(s, m) == run(
            s,
            MachineView { pos: j, attr: AttributeView { value: m.attr.value + s.subrange(m.pos, j), ..m.attr }, ..m },
        ),
    decreases j - m.pos,
{
    if m.pos < j {
        lemma_run_step(s, m);
        let m2 = step(s, m)->Ok_0;
        lemma_unquoted_value_to(s, m2, j);
        assert(m.attr.value.push(s[m.pos]) + s.subrange(m.pos + 1, j) =~= m.attr.value + s.subrange(m.pos, j));
    } else {
        assert(m.attr.value + s.subrange(m.pos, j) =~= m.attr.value);
        assert(MachineView { pos: j, attr: AttributeView { value: m.attr.value, ..m.attr }, ..m } == m);
    }
}

proof fn lemma_step_unquoted_end(s: Seq<char>, m: MachineView)
    requires
        machine_wf(s, m),
        m.state == StateType::AttributeValueUnquoted,
        m.pos < s.len(),
        s[m.pos] == '>',
        m.current.unwrap().kind == TokenType::StartTag,
    ensures
        run(s, m) == run(
            s,
            MachineView {
                state: StateType::Data,
                pos: m.pos + 1,
                tokens: m.tokens.push(TokenView { attrs: m.current.unwrap().attrs.push(m.attr), ..m.current.unwrap() }),
                current: None,
                attr: empty_attr(),
                ..m
            },
        ),
{
    lemma_run_step(s, m);
}

/// A last attribute with an unquoted value, and the `>` that ends its tag.
#[verifier::rlimit(100)]
proof fn lemma_unquoted_attr(s: Seq<char>, m: MachineView, at: AttributeView)
    requires
        machine_wf(s, m),
        m.state == StateType::TagName || m.state == StateType::AfterAttributeValue,
        attr_ok(at),
        unquoted_ok(at.value),
        m.pos + render_unquoted(at).len() + 1 <= s.len(),
        forall|k: int| 0 <= k < render_unquoted(at).len() + 1 ==> s[m.pos + k] == (render_unquoted(at) + seq!['>'])[k],
        m.current is Some,
        m.current.unwrap().kind == TokenType::StartTag,
    ensures
        run(s, m) == run(
            s,
            MachineView {
                state: StateType::Data,
                pos: m.pos + render_unquoted(at).len() + 1,
                tokens: m.tokens.push(TokenView { attrs: m.current.unwrap().attrs.push(at), ..m.current.unwrap() }),
                current: None,
                attr: empty_attr(),
                ..m
            },
        ),
{
    let r = render_unquoted(at) + seq!['>'];
    let n = at.name;
    let v = at.value;
    let p = m.pos;
    assert(r =~= seq![' '] + n + seq!['='] + v + seq!['>']);
    assert(r[0] == ' ' && r[1] == n[0]);
    assert(s[p + 0] == r[0] && s[p + 1] == r[1]);
    lemma_step_attr_start(s, m);
    let m1 = MachineView { state: StateType::AttributeName, pos: p + 1, attr: empty_attr(), ..m };
    assert forall|k: int| p + 1 <= k < p + 1 + n.len() implies s[k] != '=' && alphabetic(#[trigger] s[k]) by {
        assert(s[p + (k - p)] == r[k - p]);
        assert(r[k - p] == n[k - p - 1]);
    }
    lemma_attr_name_to(s, m1, p + 1 + n.len());
    assert(s.subrange(p + 1, p + 1 + n.len()) =~= n) by {
        assert forall|k: int| 0 <= k < n.len() implies s.subrange(p + 1, p + 1 + n.len())[k] == n[k] by {
            assert(s[p + (1 + k)] == r[1 + k]);
        }
    }
    assert(seq![] + n =~= n);
    let m2 = MachineView { pos: p + 1 + n.len(), attr: AttributeView { name: n, value: seq![] }, ..m1 };
    let e: int = 1 + n.len() as int;
    assert(r[e] == '=' && r[e + 1] == v[0]);
    assert(s[p + e] == r[e] && s[p + (e + 1)] == r[e + 1]);
    assert(!crate::html_parser::is_newline_or_blank(v[0]) && v[0] != '>');
    lemma_step_unquoted_start(s, m2);
    let m3 = MachineView { state: StateType::AttributeValueUnquoted, pos: p + e + 1, ..m2 };
    let vs = p + e + 1;
    assert forall|k: int| vs <= k < vs + v.len() implies alphanumeric(#[trigger] s[k]) && !crate::html_parser::is_newline_or_blank(s[k]) && s[k] != '>' by {
        assert(s[p + (k - p)] == r[k - p]);
        assert(r[k - p] == v[k - vs]);
    }
    lemma_unquoted_value_to(s, m3, vs + v.len());
    assert(s.subrange(vs, vs + v.len()) =~= v) by {
        assert forall|k: int| 0 <= k < v.len() implies s.subrange(vs, vs + v.len())[k] == v[k] by {
            assert(s[p + (e + 1 + k)] == r[e + 1 + k]);
        }
    }
    assert(seq![] + v =~= v);
    let m4 = MachineView { pos: vs + v.len(), attr: AttributeView { name: n, value: v }, ..m3 };
    let ve: int = e + 1 + v.len() as int;
    assert(r[ve] == '>');
    assert(s[p + ve] == r[ve]);
    lemma_step_unquoted_end(s, m4);
    assert(at == AttributeView { name: n, value: v });
}

/// A run of attributes' markup, read after a tag name.
proof fn lemma_attrs(s: Seq<char>, m: MachineView, a: Seq<AttributeView>)
    requires
        machine_wf(s, m),
        m.state == StateType::TagName,
        m.attr == empty_attr(),
        forall|k: int| 0 <= k < a.len() ==> attr_ok(#[trigger] a[k]),
        m.pos + render_attrs(a).len() <= s.len(),
        forall|k: int| 0 <= k < render_attrs(a).len() ==> s[m.pos + k] == render_attrs(a)[k],
        m.current is Some,
        m.current.unwrap().kind == TokenType::StartTag,
    ensures
        a.len() > 0 ==> run(s, m) == run(
            s,
            MachineView {
                state: StateType::AfterAttributeValue,
                quote: quote_for(a.last().value),
                pos: m.pos + render_attrs(a).len(),
                current: Some(TokenView { attrs: m.current.unwrap().attrs + a, ..m.current.unwrap() }),
                attr: empty_attr(),
                ..m
            },
        ),
    decreases a.len(),
{
    if a.len() > 0 {
        let b = a.drop_last();
        let at = a.last();
        let rb = render_attrs(b);
        let ra = render_attr(at);
        assert(render_attrs(a) == rb + ra);
        assert forall|k: int| 0 <= k < rb.len() implies s[m.pos + k] == rb[k] by {
            assert(render_attrs(a)[k] == rb[k]);
        }
        assert(attr_ok(a[a.len() - 1]));
        let t = m.current.unwrap();
        let mb = if b.len() > 0 {
            lemma_attrs(s, m, b);
            MachineView {
                state: StateType::AfterAttributeValue,
                quote: quote_for(b.last().value),
                pos: m.pos + rb.len(),
                current: Some(TokenView { attrs: t.attrs + b, ..t }),
                attr: empty_attr(),
                ..m
            }
        } else {
            assert(t.attrs + b =~= t.attrs);
            m
        };
        assert(rb.len() == 0 ==> mb.pos == m.pos + rb.len());
        assert forall|k: int| 0 <= k < ra.len() implies s[mb.pos + k] == ra[k] by {
            assert(s[m.pos + (rb.len() + k)] == render_attrs(a)[rb.len() + k]);
        }
        lemma_one_attr(s, mb, at);
        assert((t.attrs + b).push(at) =~= t.attrs + a);
    }
}

/// The machine once `<` and the name of start tag `i` are read.
pub open spec fn after_tag_name(ts: Seq<TokenView>, i: int, qv: char) -> MachineView {
    let n = text_of(ts[i].name);
    MachineView {
        state: StateType::TagName,
        quote: qv,
        pos: render(ts.subrange(0, i)).len() + 1 + n.len() as int,
        tokens: ts.subrange(0, i),
        current: Some(TokenView { name: Some(n), ..crate::html_parser::new_token(TokenType::StartTag) }),
        attr: empty_attr(),
    }
}

/// From the data state, `<` and a tag name open a start tag.
#[verifier::rlimit(60)]
proof fn lemma_start_tag_open(ts: Seq<TokenView>, i: int, qv: char)
    requires
        plain_tokens(ts),
        0 <= i < ts.len(),
        ts[i].kind == TokenType::StartTag,
    ensures
        run(render(ts), after_tokens(ts, i, qv)) == run(render(ts), after_tag_name(ts, i, qv)),
{
    let s = render(ts);
    let t = ts[i];
    assert(plain_token(t));
    let n = text_of(t.name);
    let p = render(ts.subrange(0, i)).len() as int;
    lemma_token_chars(ts, i);
    lemma_flushed_before(ts, i, qv);
    let r = render_token(t);
    let tail = start_tag_tail(t);
    assert(r =~= seq!['<'] + n + tail);
    assert(r[0] == '<');
    assert(forall|k: int| 0 <= k < n.len() ==> r[1 + k] == n[k]);
    let m0 = after_tokens(ts, i, qv);
    assert(s[p + 0] == r[0]);
    lemma_step_open_angle(s, m0);
    let m1 = MachineView { state: StateType::TagOpen, pos: p + 1, current: Some(pending_or_new(m0.current)), ..m0 };
    assert(s[p + 1] == r[1]);
    lemma_step_tag_open(s, m1);
    let m2 = MachineView {
        state: StateType::TagName,
        pos: p + 1,
        tokens: ts.subrange(0, i),
        current: Some(crate::html_parser::new_token(TokenType::StartTag)),
        ..m1
    };
    assert forall|k: int| p + 1 <= k < p + 1 + n.len() implies s[k] != ' ' && s[k] != '/' && s[k]
        != '>' by {
        assert(s[p + (k - p)] == r[k - p]);
        assert(r[k - p] == n[k - p - 1]);
    }
    lemma_name_to(s, m2, p + 1 + n.len());
    assert(s.subrange(p + 1, p + 1 + n.len()) =~= n) by {
        assert forall|k: int| 0 <= k < n.len() implies s.subrange(p + 1, p + 1 + n.len())[k] == n[k] by {
            assert(s[p + (1 + k)] == r[1 + k]);
        }
    }
}

proof fn lemma_step_after_slash(s: Seq<char>, m: MachineView)
    requires
        machine_wf(s, m),
        m.state == StateType::AfterAttributeValue,
        m.pos < s.len(),
        s[m.pos] == '/',
    ensures
        run(s, m) == run(
            s,
            MachineView {
                state: StateType::SelfClosingStartTag,
                pos: m.pos + 1,
                current: Some(TokenView { self_closing: true, ..m.current.unwrap() }),
                ..m
            },
        ),
{
    lemma_run_step(s, m);
}

/// From the data state, `<`, a tag name and `>` give a start tag; `/>` in
/// place of `>` gives a self-closing one, and attributes may stand before it.
#[verifier::rlimit(100)]
proof fn lemma_start_tag(ts: Seq<TokenView>, i: int, qv: char)
    requires
        plain_tokens(ts),
        0 <= i < ts.len(),
        ts[i].kind == TokenType::StartTag,
    ensures
        run(render(ts), after_tokens(ts, i, qv)) == run(render(ts), after_tokens(ts, i + 1, quote_after(ts[i], qv))),
{
    let s = render(ts);
    let t = ts[i];
    assert(plain_token(t));
    let n = text_of(t.name);
    let p = render(ts.subrange(0, i)).len() as int;
    lemma_token_chars(ts, i);
    lemma_start_tag_open(ts, i, qv);
    let m3 = after_tag_name(ts, i, qv);
    let ra = render_attrs(t.attrs);
    let r = render_token(t);
    let c: int = 1 + n.len() as int;
    assert(ts.subrange(0, i).push(t) =~= ts.subrange(0, i + 1));
    if t.attrs.len() == 0 {
        assert(ra =~= seq![]);
        assert(t.attrs =~= seq![]);
        if t.self_closing {
            assert(r =~= seq!['<'] + n + seq!['/', '>']);
            assert(r[c] == '/' && r[c + 1] == '>');
            assert(s[p + c] == r[c] && s[p + (c + 1)] == r[c + 1]);
            lemma_step_tag_name_end(s, m3);
            let m4 = MachineView { state: StateType::SelfClosingStartTag, pos: p + c + 1, ..m3 };
            lemma_step_self_closing(s, m4);
        } else {
            assert(r =~= seq!['<'] + n + seq!['>']);
            assert(r[c] == '>');
            assert(s[p + c] == r[c]);
            lemma_step_tag_name_end(s, m3);
        }
    } else if t.self_closing {
        assert(r =~= seq!['<'] + n + ra + seq!['/', '>']);
        assert forall|k: int| 0 <= k < ra.len() implies s[m3.pos + k] == ra[k] by {
            assert(s[p + (c + k)] == r[c + k]);
        }
        assert forall|k: int| 0 <= k < t.attrs.len() implies attr_ok(#[trigger] t.attrs[k]) by {
            assert(attr_ok(t.attrs[k]));
        }
        lemma_attrs(s, m3, t.attrs);
        let cur = TokenView { name: Some(n), ..crate::html_parser::new_token(TokenType::StartTag) };
        assert(cur.attrs + t.attrs =~= t.attrs);
        let ce: int = c + ra.len() as int;
        let m4 = MachineView {
            state: StateType::AfterAttributeValue,
            quote: quote_for(t.attrs.last().value),
            pos: p + ce,
            current: Some(TokenView { attrs: t.attrs, ..cur }),
            attr: empty_attr(),
            ..m3
        };
        assert(r[ce] == '/' && r[ce + 1] == '>');
        assert(s[p + ce] == r[ce] && s[p + (ce + 1)] == r[ce + 1]);
        lemma_step_after_slash(s, m4);
        let m5 = MachineView {
            state: StateType::SelfClosingStartTag,
            pos: p + ce + 1,
            current: Some(TokenView { attrs: t.attrs, self_closing: true, ..cur }),
            ..m4
        };
        lemma_step_self_closing(s, m5);
    } else {
        let b = t.attrs.drop_last();
        let at = t.attrs.last();
        let rb = render_attrs(b);
        let ru = render_unquoted(at) + seq!['>'];
        assert(r =~= seq!['<'] + n + rb + ru);
        assert forall|k: int| 0 <= k < b.len() implies attr_ok(#[trigger] b[k]) by {
            assert(attr_ok(t.attrs[k]));
        }
        assert(attr_ok(t.attrs[t.attrs.len() - 1]));
        assert forall|k: int| 0 <= k < rb.len() implies s[m3.pos + k] == rb[k] by {
            assert(s[p + (c + k)] == r[c + k]);
        }
        let cur = TokenView { name: Some(n), ..crate::html_parser::new_token(TokenType::StartTag) };
        let mb = if b.len() > 0 {
            lemma_attrs(s, m3, b);
            MachineView {
                state: StateType::AfterAttributeValue,
                quote: quote_for(b.last().value),
                pos: m3.pos + rb.len(),
                current: Some(TokenView { attrs: cur.attrs + b, ..cur }),
                attr: empty_attr(),
                ..m3
            }
        } else {
            assert(rb =~= seq![]);
            assert(cur.attrs + b =~= cur.attrs);
            m3
        };
        assert(mb.pos == p + c + rb.len());
        assert forall|k: int| 0 <= k < ru.len() implies s[mb.pos + k] == ru[k] by {
            assert(s[p + (c + rb.len() + k)] == r[c + rb.len() + k]);
        }
        lemma_unquoted_attr(s, mb, at);
        assert((cur.attrs + b).push(at) =~= t.attrs);
        if b.len() > 0 {
            assert(b.last() == t.attrs[t.attrs.len() - 2]);
        }
    }
}

proof fn lemma_step_comment_open(s: Seq<char>, m: MachineView)
    requires
        machine_wf(s, m),
        m.state == StateType::MarkupDeclarationOpen,
        m.pos + 2 <= s.len(),
        s[m.pos] == '-',
        s[m.pos + 1] == '-',
    ensures
        run(s, m) == run(
            s,
            MachineView {
                state: StateType::Comment,
                pos: m.pos + 2,
                current: Some(TokenView { kind: TokenType::Comment, ..m.current.unwrap() }),
                ..m
            },
        ),
{
    if occurs_at(s, m.pos, doctype_word()) {
        assert(s.subrange(m.pos, m.pos + 7)[0] == doctype_word()[0]);
    }
    assert(s.subrange(m.pos, m.pos + 2) =~= crate::html_parser::comment_open());
    lemma_run_step(s, m);
}

proof fn lemma_step_comment(s: Seq<char>, m: MachineView, k: int)
    requires
        machine_wf(s, m),
        m.state == StateType::Comment,
        crate::consumer::find_from(s, m.pos, comment_close()) == Some(k),
    ensures
        run(s, m) == run(
            s,
            MachineView {
                state: StateType::Data,
                pos: k + 3,
                tokens: m.tokens.push(
                    TokenView {
                        data: Some(text_of(m.current.unwrap().data) + s.subrange(m.pos, k)),
                        ..m.current.unwrap()
                    },
                ),
                current: None,
                ..m
            },
        ),
{
    crate::consumer::lemma_find_from_first(s, m.pos, comment_close());
    lemma_run_step(s, m);
}

/// From the data state, `</`, a tag name and `>` give an end tag.
#[verifier::rlimit(60)]
proof fn lemma_end_tag(ts: Seq<TokenView>, i: int, qv: char)
    requires
        plain_tokens(ts),
        0 <= i < ts.len(),
        ts[i].kind == TokenType::EndTag,
    ensures
        run(render(ts), after_tokens(ts, i, qv)) == run(render(ts), after_tokens(ts, i + 1, qv)),
{
    let s = render(ts);
    let t = ts[i];
    assert(plain_token(t));
    let n = text_of(t.name);
    let p = render(ts.subrange(0, i)).len() as int;
    lemma_token_chars(ts, i);
    lemma_flushed_before(ts, i, qv);
    let r = render_token(t);
    assert(r =~= seq!['<', '/'] + n + seq!['>']);
    assert(forall|k: int| 0 <= k < n.len() ==> r[2 + k] == n[k]);
    let m0 = after_tokens(ts, i, qv);
    assert(r[0] == '<' && r[1] == '/');
    assert(s[p + 0] == r[0] && s[p + 1] == r[1]);
    assert(s[p] == '<');
    lemma_step_open_angle(s, m0);
    let m1 = MachineView { state: StateType::TagOpen, pos: p + 1, current: Some(pending_or_new(m0.current)), ..m0 };
    assert(s[p + 1] == '/');
    lemma_step_tag_open(s, m1);
    let m2 = MachineView {
        state: StateType::EndTagOpen,
        pos: p + 2,
        tokens: ts.subrange(0, i),
        current: Some(crate::html_parser::new_token(TokenType::StartTag)),
        ..m1
    };
    assert(s[p + 2] == n[0]);
    lemma_step_end_tag_open(s, m2);
    let m3 = MachineView {
        state: StateType::TagName,
        current: Some(crate::html_parser::new_token(TokenType::EndTag)),
        ..m2
    };
    assert forall|k: int| p + 2 <= k < p + 2 + n.len() implies s[k] != ' ' && s[k] != '/' && s[k]
        != '>' by {
        assert(s[k] == r[k - p]);
        assert(r[k - p] == n[k - p - 2]);
    }
    lemma_name_to(s, m3, p + 2 + n.len());
    assert(s.subrange(p + 2, p + 2 + n.len()) =~= n);
    let m4 = MachineView {
        pos: p + 2 + n.len(),
        current: Some(TokenView { name: Some(n), ..crate::html_parser::new_token(TokenType::EndTag) }),
        ..m3
    };
    assert(t.attrs =~= seq![]);
    assert(ts.subrange(0, i).push(t) =~= ts.subrange(0, i + 1));
    assert(r[2 + n.len() as int] == '>');
    assert(s[p + (2 + n.len())] == '>');
    lemma_step_tag_name_end(s, m4);
}

/// From the data state, text gives a run of text under construction.
proof fn lemma_text_token(ts: Seq<TokenView>, i: int, qv: char)
    requires
        plain_tokens(ts),
        0 <= i < ts.len(),
        ts[i].kind == TokenType::Content,
    ensures
        run(render(ts), after_tokens(ts, i, qv)) == run(render(ts), after_tokens(ts, i + 1, qv)),
{
    let s = render(ts);
    let t = ts[i];
    assert(plain_token(t));
    let d = text_of(t.data);
    let p = render(ts.subrange(0, i)).len() as int;
    lemma_token_chars(ts, i);
    if i > 0 {
        assert(!(ts[i - 1].kind == TokenType::Content && ts[i].kind == TokenType::Content));
    }
    let m0 = after_tokens(ts, i, qv);
    assert forall|k: int| p <= k < p + d.len() implies s[k] != '<' by {
        assert(s[p + (k - p)] == d[k - p]);
    }
    lemma_text_to(s, m0, p + d.len());
    assert(s.subrange(p, p + d.len()) =~= d);
    assert(t.attrs =~= seq![]);
}

/// After `<!--`: a body and `-->` give the comment.
proof fn lemma_comment_body(s: Seq<char>, m: MachineView, d: Seq<char>)
    requires
        machine_wf(s, m),
        m.state == StateType::Comment,
        m.current is Some,
        comment_ok(d),
        m.pos + d.len() + 3 <= s.len(),
        forall|j: int| 0 <= j < d.len() + 3 ==> s[m.pos + j] == (d + comment_close())[j],
    ensures
        run(s, m) == run(
            s,
            MachineView {
                state: StateType::Data,
                pos: m.pos + d.len() + 3,
                tokens: m.tokens.push(
                    TokenView { data: Some(text_of(m.current.unwrap().data) + d), ..m.current.unwrap() },
                ),
                current: None,
                ..m
            },
        ),
{
    let q = m.pos;
    let body = d + comment_close();
    assert forall|j: int| q <= j < q + d.len() implies !occurs_at(s, j, comment_close()) by {
        assert(!occurs_at(body, j - q, comment_close()));
        if occurs_at(s, j, comment_close()) {
            assert forall|k: int| 0 <= k < 3 implies #[trigger] s.subrange(j, j + 3)[k] == body.subrange(j - q, j - q + 3)[k] by {
                assert(s[q + (j - q + k)] == body[j - q + k]);
            }
            assert(s.subrange(j, j + 3) =~= body.subrange(j - q, j - q + 3));
        }
    }
    assert(s.subrange(q + d.len(), q + d.len() + 3) =~= comment_close()) by {
        assert forall|k: int| 0 <= k < 3 implies s[q + d.len() + k] == comment_close()[k] by {
            assert(s[q + (d.len() + k)] == body[d.len() + k]);
        }
    }
    lemma_find_first(s, q, q + d.len(), comment_close());
    lemma_step_comment(s, m, q + d.len());
    assert(s.subrange(q, q + d.len()) =~= d) by {
        assert forall|k: int| 0 <= k < d.len() implies s[q + k] == d[k] by {
            assert(s[q + k] == body[k]);
            assert(body[k] == d[k]);
        }
    }
}

/// From the data state, `<!--`, a body and `-->` give a comment.
#[verifier::rlimit(100)]
proof fn lemma_comment_token(ts: Seq<TokenView>, i: int, qv: char)
    requires
        plain_tokens(ts),
        0 <= i < ts.len(),
        ts[i].kind == TokenType::Comment,
    ensures
        run(render(ts), after_tokens(ts, i, qv)) == run(render(ts), after_tokens(ts, i + 1, qv)),
{
    let s = render(ts);
    let t = ts[i];
    assert(plain_token(t));
    let d = text_of(t.data);
    let p = render(ts.subrange(0, i)).len() as int;
    lemma_token_chars(ts, i);
    lemma_flushed_before(ts, i, qv);
    let r = render_token(t);
    let body = d + comment_close();
    assert(r =~= seq!['<', '!', '-', '-'] + body);
    let m0 = after_tokens(ts, i, qv);
    assert(r[0] == '<' && r[1] == '!' && r[2] == '-' && r[3] == '-');
    assert(s[p + 0] == r[0] && s[p + 1] == r[1] && s[p + 2] == r[2] && s[p + 3] == r[3]);
    assert(s[p] == '<');
    lemma_step_open_angle(s, m0);
    let m1 = MachineView { state: StateType::TagOpen, pos: p + 1, current: Some(pending_or_new(m0.current)), ..m0 };
    assert(s[p + 1] == '!');
    lemma_step_tag_open(s, m1);
    let m2 = MachineView {
        state: StateType::MarkupDeclarationOpen,
        pos: p + 2,
        tokens: ts.subrange(0, i),
        current: Some(crate::html_parser::new_token(TokenType::StartTag)),
        ..m1
    };
    assert(s[p + 2] == '-' && s[p + 3] == '-');
    lemma_step_comment_open(s, m2);
    let m3 = MachineView {
        state: StateType::Comment,
        pos: p + 4,
        current: Some(crate::html_parser::new_token(TokenType::Comment)),
        ..m2
    };
    let q = p + 4;
    assert forall|j: int| 0 <= j < body.len() implies s[q + j] == body[j] by {
        assert(s[p + (4 + j)] == r[4 + j]);
    }
    lemma_comment_body(s, m3, d);
    assert(t.attrs =~= seq![]);
    assert(ts.subrange(0, i).push(t) =~= ts.subrange(0, i + 1));
    assert(seq![] + d =~= d);
}

proof fn lemma_step_doctype_open(s: Seq<char>, m: MachineView)
    requires
        machine_wf(s, m),
        m.state == StateType::MarkupDeclarationOpen,
        occurs_at(s, m.pos, doctype_word()),
    ensures
        run(s, m) == run(
            s,
            MachineView {
                state: StateType::Doctype,
                pos: m.pos + 7,
                current: Some(TokenView { kind: TokenType::Doctype, ..m.current.unwrap() }),
                ..m
            },
        ),
{
    lemma_run_step(s, m);
}

proof fn lemma_step_doctype(s: Seq<char>, m: MachineView, k: int)
    requires
        machine_wf(s, m),
        m.state == StateType::Doctype,
        m.pos < s.len(),
        s[m.pos] == ' ',
        crate::consumer::find_from(s, m.pos + 1, seq!['>']) == Some(k),
        forall|j: int| m.pos + 1 <= j < k ==> alphanumeric(#[trigger] s[j]),
    ensures
        run(s, m) == run(
            s,
            MachineView {
                state: StateType::Data,
                pos: k + 1,
                tokens: m.tokens.push(
                    TokenView {
                        name: Some(text_of(m.current.unwrap().name) + s.subrange(m.pos + 1, k)),
                        ..m.current.unwrap()
                    },
                ),
                current: None,
                ..m
            },
        ),
{
    crate::consumer::lemma_find_from_first(s, m.pos + 1, seq!['>']);
    lemma_run_step(s, m);
}

/// After `<!DOCTYPE`: a blank, a name and `>` give the doctype.
proof fn lemma_doctype_body(s: Seq<char>, m: MachineView, n: Seq<char>)
    requires
        machine_wf(s, m),
        m.state == StateType::Doctype,
        m.current is Some,
        m.pos + 2 + n.len() <= s.len(),
        s[m.pos] == ' ',
        forall|j: int| 0 <= j < n.len() + 1 ==> s[m.pos + 1 + j] == (n + seq!['>'])[j],
        forall|k: int| 0 <= k < n.len() ==> alphanumeric(#[trigger] n[k]) && n[k] != '>',
    ensures
        run(s, m) == run(
            s,
            MachineView {
                state: StateType::Data,
                pos: m.pos + 2 + n.len(),
                tokens: m.tokens.push(
                    TokenView { name: Some(text_of(m.current.unwrap().name) + n), ..m.current.unwrap() },
                ),
                current: None,
                ..m
            },
        ),
{
    let q = m.pos + 1;
    let tail = n + seq!['>'];
    assert forall|j: int| q <= j < q + n.len() implies alphanumeric(#[trigger] s[j]) by {
        assert(s[q + (j - q)] == tail[j - q]);
        assert(tail[j - q] == n[j - q]);
    }
    assert forall|j: int| q <= j < q + n.len() implies !occurs_at(s, j, seq!['>']) by {
        assert(s[q + (j - q)] == tail[j - q]);
        assert(tail[j - q] == n[j - q]);
        if occurs_at(s, j, seq!['>']) {
            assert(s.subrange(j, j + 1)[0] == s[j]);
        }
    }
    assert(s.subrange(q + n.len(), q + n.len() + 1) =~= seq!['>']) by {
        assert(s[q + n.len()] == tail[n.len() as int]);
    }
    lemma_find_first(s, q, q + n.len(), seq!['>']);
    lemma_step_doctype(s, m, q + n.len());
    assert(s.subrange(q, q + n.len()) =~= n) by {
        assert forall|k: int| 0 <= k < n.len() implies s[q + k] == n[k] by {
            assert(tail[k] == n[k]);
        }
    }
}

/// From the data state, `<!DOCTYPE `, a name and `>` give a doctype.
#[verifier::rlimit(100)]
proof fn lemma_doctype_token(ts: Seq<TokenView>, i: int, qv: char)
    requires
        plain_tokens(ts),
        0 <= i < ts.len(),
        ts[i].kind == TokenType::Doctype,
    ensures
        run(render(ts), after_tokens(ts, i, qv)) == run(render(ts), after_tokens(ts, i + 1, qv)),
{
    let s = render(ts);
    let t = ts[i];
    assert(plain_token(t));
    let n = text_of(t.name);
    let p = render(ts.subrange(0, i)).len() as int;
    lemma_token_chars(ts, i);
    lemma_flushed_before(ts, i, qv);
    let r = render_token(t);
    let tail = n + seq!['>'];
    assert(r =~= seq!['<', '!'] + doctype_word() + seq![' '] + tail);
    let m0 = after_tokens(ts, i, qv);
    assert(r[0] == '<' && r[1] == '!' && r[9] == ' ');
    assert(s[p + 0] == r[0] && s[p + 1] == r[1] && s[p + 9] == r[9]);
    lemma_step_open_angle(s, m0);
    let m1 = MachineView { state: StateType::TagOpen, pos: p + 1, current: Some(pending_or_new(m0.current)), ..m0 };
    lemma_step_tag_open(s, m1);
    let m2 = MachineView {
        state: StateType::MarkupDeclarationOpen,
        pos: p + 2,
        tokens: ts.subrange(0, i),
        current: Some(crate::html_parser::new_token(TokenType::StartTag)),
        ..m1
    };
    assert(s.subrange(p + 2, p + 9) =~= doctype_word()) by {
        assert forall|k: int| 0 <= k < 7 implies s[p + 2 + k] == doctype_word()[k] by {
            assert(s[p + (2 + k)] == r[2 + k]);
        }
    }
    lemma_step_doctype_open(s, m2);
    let m3 = MachineView {
        state: StateType::Doctype,
        pos: p + 9,
        current: Some(crate::html_parser::new_token(TokenType::Doctype)),
        ..m2
    };
    let q = p + 10;
    assert forall|j: int| 0 <= j < tail.len() implies s[q + j] == tail[j] by {
        assert(s[p + (10 + j)] == r[10 + j]);
    }
    lemma_doctype_body(s, m3, n);
    assert(t.attrs =~= seq![]);
    assert(ts.subrange(0, i).push(t) =~= ts.subrange(0, i + 1));
    assert(seq![] + n =~= n);
}

proof fn lemma_render_one(ts: Seq<TokenView>, i: int, qv: char)
    requires
        plain_tokens(ts),
        0 <= i < ts.len(),
    ensures
        run(render(ts), after_tokens(ts, i, qv)) == run(render(ts), after_tokens(ts, i + 1, quote_after(ts[i], qv))),
{
    assert(plain_token(ts[i]));
    match ts[i].kind {
        TokenType::Content => lemma_text_token(ts, i, qv),
        TokenType::StartTag => lemma_start_tag(ts, i, qv),
        TokenType::EndTag => lemma_end_tag(ts, i, qv),
        TokenType::Comment => lemma_comment_token(ts, i, qv),
        TokenType::Doctype => lemma_doctype_token(ts, i, qv),
    }
}

proof fn lemma_run_finished(s: Seq<char>, m: MachineView)
    requires
        finished(s, m),
    ensures
        run(s, m) == Ok::<Seq<TokenView>, TokenizeError>(flush(m)),
{
    reveal(run);
}

proof fn lemma_render_end(ts: Seq<TokenView>, qv: char)
    requires
        plain_tokens(ts),
    ensures
        run(render(ts), after_tokens(ts, ts.len() as int, qv)) == Ok::<Seq<TokenView>, TokenizeError>(ts),
{
    let i = ts.len() as int;
    assert(ts.subrange(0, i) =~= ts);
    lemma_run_finished(render(ts), after_tokens(ts, i, qv));
    if i > 0 && ts[i - 1].kind == TokenType::Content {
        assert(plain_token(ts[i - 1]));
        assert(ts.subrange(0, i - 1).push(ts[i - 1]) =~= ts);
    }
}

#[verifier::rlimit(100)]
proof fn lemma_render_from(ts: Seq<TokenView>, i: int, qv: char)
    requires
        plain_tokens(ts),
        0 <= i <= ts.len(),
    ensures
        run(render(ts), after_tokens(ts, i, qv)) == Ok::<Seq<TokenView>, TokenizeError>(ts),
    decreases ts.len() - i,
{
    if i < ts.len() {
        lemma_render_one(ts, i, qv);
        lemma_render_from(ts, i + 1, quote_after(ts[i], qv));
    } else {
        lemma_render_end(ts, qv);
    }
}

/// Tokens in the shape the tokenizer gives them, written back as markup,
/// tokenize to exactly themselves.
pub proof fn lemma_render_tokenizes_back(ts: Seq<TokenView>)
    requires
        plain_tokens(ts),
    ensures
        tokens_of(render(ts)) == Ok::<Seq<TokenView>, TokenizeError>(ts),
{
    lemma_render_from(ts, 0, '"');
    assert(ts.subrange(0, 0) =~= seq![]);
    assert(render(ts.subrange(0, 0)) =~= seq![]);
    assert(after_tokens(ts, 0, '"') == initial_machine());
}

/// Round trip: where markup tokenizes to tokens in the shape `plain_tokens`
/// describes, the markup written back from those tokens tokenizes to the
/// same tokens.
/// Quotes and blanks of the first markup are not kept.
pub proof fn lemma_round_trip(x: Seq<char>, ts: Seq<TokenView>)
    requires
        tokens_of(x) == Ok::<Seq<TokenView>, TokenizeError>(ts),
        plain_tokens(ts),
    ensures
        tokens_of(render(ts)) == tokens_of(x),
{
    lemma_render_tokenizes_back(ts);
}

} // verus!
