//! An HTML tokenizer: a state machine that turns markup into a flat list of
//! tokens (tags with attributes, comments, doctype, runs of text).
//!
//! Malformed markup stops the machine with a `TokenizeError`; nothing is
//! recovered. The machine is stated twice: as the spec function `run` over
//! `MachineView`, and as `Tokenizer`, whose `execute` is proved to compute
//! exactly what `run` gives.
use vstd::prelude::*;
use crate::consumer::{blank_end, find_from, occurs_at, Consumer};
use crate::text::{alphabetic, alphanumeric, char_to_string, is_alphabetic, is_alphanumeric, push_char, str_to_chars};

verus! {

/// The kind of a token. A token under construction may change kind.
#[derive(Clone, Copy, Debug, PartialEq, Eq, Structural)]
pub enum TokenType {
    Doctype,
    Comment,
    StartTag,
    EndTag,
    Content,
}

/// Why tokenizing stopped. Every one of these ends the run.
#[derive(Clone, Copy, Debug, PartialEq, Eq, Structural)]
pub enum TokenizeError {
    EofBeforeTagName,
    InvalidFirstCharacterOfTagName,
    MissingEndTagName,
    EofInTag,
    UnexpectedEqualsBeforeAttributeName,
    UnexpectedEofWaitingForAttributeName,
    UnexpectedCharacterInAttributeName,
    MissingAttributeValue,
    UnexpectedCharacterInUnquotedAttributeValue,
    MissingWhitespaceBetweenAttributes,
    UnexpectedSolidusInTag,
    IncorrectlyOpenedComment,
    EofInCommentTag,
    MissingWhitespaceBeforeDoctypeName,
    InvalidCharacterInDoctypeName,
    EofInDoctype,
}

/// The states of the machine.
#[derive(Clone, Copy, Debug, PartialEq, Eq, Structural)]
pub enum StateType {
    Data,
    TagOpen,
    EndTagOpen,
    TagName,
    BeforeAttributeName,
    AttributeName,
    BeforeAttributeValue,
    AttributeValueQuoted,
    AttributeValueUnquoted,
    AfterAttributeValue,
    SelfClosingStartTag,
    MarkupDeclarationOpen,
    Comment,
    Doctype,
}

/// A name/value pair of a start tag.
#[derive(Debug)]
pub struct Attribute {
    pub name: String,
    pub value: String,
}

pub struct AttributeView {
    pub name: Seq<char>,
    pub value: Seq<char>,
}

impl View for Attribute {
    type V = AttributeView;

    open spec fn view(&self) -> AttributeView {
        AttributeView { name: self.name@, value: self.value@ }
    }
}

/// One lexical unit: a tag, a comment, a doctype or a run of text.
#[derive(Debug)]
pub struct Token {
    pub token_type: TokenType,
    pub data: Option<String>,
    pub name: Option<String>,
    pub attr: Vec<Attribute>,
    pub self_closing: bool,
}

pub struct TokenView {
    pub kind: TokenType,
    pub name: Option<Seq<char>>,
    pub data: Option<Seq<char>>,
    pub attrs: Seq<AttributeView>,
    pub self_closing: bool,
}

pub open spec fn opt_view(o: Option<String>) -> Option<Seq<char>> {
    match o {
        Some(s) => Some(s@),
        None => None,
    }
}

pub open spec fn attrs_view(v: Seq<Attribute>) -> Seq<AttributeView> {
    v.map_values(|a: Attribute| a@)
}

pub open spec fn tokens_view(v: Seq<Token>) -> Seq<TokenView> {
    v.map_values(|t: Token| t@)
}

impl View for Token {
    type V = TokenView;

    open spec fn view(&self) -> TokenView {
        TokenView {
            kind: self.token_type,
            name: opt_view(self.name),
            data: opt_view(self.data),
            attrs: attrs_view(self.attr@),
            self_closing: self.self_closing,
        }
    }
}

/// A fresh token of the given kind: no name, no data, no attributes.
pub open spec fn new_token(kind: TokenType) -> TokenView {
    TokenView { kind, name: None, data: None, attrs: seq![], self_closing: false }
}

pub open spec fn empty_attr() -> AttributeView {
    AttributeView { name: seq![], value: seq![] }
}

/// The characters of an optional string; none where it is absent.
pub open spec fn text_of(o: Option<Seq<char>>) -> Seq<char> {
    match o {
        Some(s) => s,
        None => seq![],
    }
}

/// An optional string with one more character at its end; an absent string
/// becomes that character.
pub open spec fn push_opt(o: Option<Seq<char>>, c: char) -> Option<Seq<char>> {
    match o {
        Some(s) => Some(s.push(c)),
        None => Some(seq![c]),
    }
}

/// An optional string with the characters of `s` appended one by one: an
/// empty `s` leaves it as it is, absent included.
pub open spec fn push_all(o: Option<Seq<char>>, s: Seq<char>) -> Option<Seq<char>> {
    if s.len() == 0 {
        o
    } else {
        match o {
            Some(t) => Some(t + s),
            None => Some(s),
        }
    }
}

proof fn lemma_push_all_step(o: Option<Seq<char>>, s: Seq<char>, c: char)
    ensures
        push_all(o, s.push(c)) == push_opt(push_all(o, s), c),
{
    match o {
        Some(t) => {
            assert(t + s.push(c) =~= (t + s).push(c));
        },
        None => {
            if s.len() == 0 {
                assert(s.push(c) =~= seq![c]);
            }
        },
    }
}

impl Attribute {
    pub fn new() -> (r: Self)
        ensures
            r@ == empty_attr(),
    {
        Self { name: String::new(), value: String::new() }
    }

    pub fn push_name(&mut self, c: char)
        ensures
            final(self)@ == (AttributeView { name: old(self)@.name.push(c), ..old(self)@ }),
    {
        push_char(&mut self.name, c);
    }

    pub fn push_val(&mut self, c: char)
        ensures
            final(self)@ == (AttributeView { value: old(self)@.value.push(c), ..old(self)@ }),
    {
        push_char(&mut self.value, c);
    }
}

impl Token {
    pub fn new(token_type: TokenType) -> (r: Self)
        ensures
            r@ == new_token(token_type),
    {
        let r = Self { token_type, data: None, name: None, attr: Vec::new(), self_closing: false };
        assert(attrs_view(r.attr@) =~= seq![]);
        r
    }

    pub fn set_type(&mut self, token_type: TokenType)
        ensures
            final(self)@ == (TokenView { kind: token_type, ..old(self)@ }),
    {
        self.token_type = token_type;
    }

    pub fn push_data(&mut self, c: char)
        ensures
            final(self)@ == (TokenView { data: push_opt(old(self)@.data, c), ..old(self)@ }),
    {
        match self.data.take() {
            Some(inner) => {
                let mut inner = inner;
                push_char(&mut inner, c);
                self.data = Some(inner);
            },
            None => {
                self.data = Some(char_to_string(c));
            },
        }
    }

    pub fn push_name(&mut self, c: char)
        ensures
            final(self)@ == (TokenView { name: push_opt(old(self)@.name, c), ..old(self)@ }),
    {
        match self.name.take() {
            Some(inner) => {
                let mut inner = inner;
                push_char(&mut inner, c);
                self.name = Some(inner);
            },
            None => {
                self.name = Some(char_to_string(c));
            },
        }
    }

    pub fn push_attr(&mut self, attr: Attribute)
        ensures
            final(self)@ == (TokenView { attrs: old(self)@.attrs.push(attr@), ..old(self)@ }),
    {
        self.attr.push(attr);
        assert(attrs_view(self.attr@) =~= attrs_view(old(self).attr@).push(attr@));
    }

    pub fn set_self_closing(&mut self, b: bool)
        ensures
            final(self)@ == (TokenView { self_closing: b, ..old(self)@ }),
    {
        self.self_closing = b;
    }
}

impl Default for Token {
    fn default() -> (r: Self)
        ensures
            r@ == new_token(TokenType::Content),
    {
        Self::new(TokenType::Content)
    }
}

/// The machine between two steps: its state, the quote that opened the
/// attribute value being read, the index of the next character, the tokens
/// emitted so far, the token under construction and the attribute under
/// construction.
pub struct MachineView {
    pub state: StateType,
    pub quote: char,
    pub pos: int,
    pub tokens: Seq<TokenView>,
    pub current: Option<TokenView>,
    pub attr: AttributeView,
}

/// Where every run starts: the data state at the first character.
pub open spec fn initial_machine() -> MachineView {
    MachineView {
        state: StateType::Data,
        quote: '"',
        pos: 0,
        tokens: seq![],
        current: None,
        attr: empty_attr(),
    }
}

/// The position is within the input, and outside the data state a token is
/// under construction.
pub open spec fn machine_wf(input: Seq<char>, m: MachineView) -> bool {
    &&& 0 <= m.pos <= input.len()
    &&& m.state != StateType::Data ==> m.current is Some
}

pub open spec fn char_at(input: Seq<char>, i: int) -> Option<char> {
    if 0 <= i < input.len() {
        Some(input[i])
    } else {
        None
    }
}

pub open spec fn is_newline_or_blank(c: char) -> bool {
    c == ' ' || c == '\t' || c == '\r' || c == '\n'
}

pub open spec fn doctype_word() -> Seq<char> {
    seq!['D', 'O', 'C', 'T', 'Y', 'P', 'E']
}

pub open spec fn comment_open() -> Seq<char> {
    seq!['-', '-']
}

pub open spec fn comment_close() -> Seq<char> {
    seq!['-', '-', '>']
}

/// A token with a finished attribute added. Only a start tag takes
/// attributes; any other token is left as it is.
pub open spec fn attach(t: TokenView, a: AttributeView) -> TokenView {
    if t.kind == TokenType::StartTag {
        TokenView { attrs: t.attrs.push(a), ..t }
    } else {
        t
    }
}

/// Only start tags hold attributes.
pub open spec fn attrs_only_on_start_tags(ts: Seq<TokenView>) -> bool {
    forall|i: int| 0 <= i < ts.len() && (#[trigger] ts[i]).attrs.len() > 0 ==> ts[i].kind == TokenType::StartTag
}

/// Attributes stand only on start tags, among the tokens emitted and in the
/// token under construction; where a tag is about to change kind, it has none.
pub open spec fn attrs_placed(m: MachineView) -> bool {
    &&& attrs_only_on_start_tags(m.tokens)
    &&& match m.current {
        Some(t) => (t.attrs.len() > 0 ==> t.kind == TokenType::StartTag) && ((m.state
            == StateType::EndTagOpen || m.state == StateType::MarkupDeclarationOpen) ==> t.attrs.len()
            == 0),
        None => true,
    }
}

/// What a finished token holds: text and comments hold data and no name, a
/// doctype holds a name and no data. A tag may hold data as well: the text
/// after a `>` that follows a quoted value goes into that tag.
pub open spec fn token_shaped(t: TokenView) -> bool {
    match t.kind {
        TokenType::Content => t.data is Some && t.name is None,
        TokenType::Comment => t.data is Some && t.name is None,
        TokenType::Doctype => t.name is Some && t.data is None,
        TokenType::StartTag | TokenType::EndTag => true,
    }
}

pub open spec fn tokens_shaped(ts: Seq<TokenView>) -> bool {
    forall|i: int| 0 <= i < ts.len() ==> token_shaped(#[trigger] ts[i])
}

/// The emitted tokens are shaped, and the token under construction is on
/// its way to be: in the data state it is text without a name or a tag;
/// inside a tag it is a start or end tag without data; after `<!` and
/// in a comment or doctype it has neither name nor data.
pub open spec fn machine_shaped(m: MachineView) -> bool {
    &&& tokens_shaped(m.tokens)
    &&& match m.current {
        Some(t) => match m.state {
            StateType::Data => (t.kind == TokenType::Content && t.name is None) || t.kind
                == TokenType::StartTag || t.kind == TokenType::EndTag,
            StateType::TagOpen => (t.kind == TokenType::Content && t.name is None) || t.kind
                == TokenType::StartTag || t.kind == TokenType::EndTag,
            StateType::MarkupDeclarationOpen => t.name is None && t.data is None,
            StateType::Comment => t.kind == TokenType::Comment && t.name is None && t.data is None,
            StateType::Doctype => t.kind == TokenType::Doctype && t.name is None && t.data is None,
            _ => (t.kind == TokenType::StartTag || t.kind == TokenType::EndTag) && t.data is None,
        },
        None => true,
    }
}

/// The token under construction with the given changes.
pub open spec fn with_current(m: MachineView, t: TokenView) -> MachineView {
    MachineView { current: Some(t), ..m }
}

/// The token under construction moved to the output.
pub open spec fn emit(m: MachineView) -> MachineView {
    MachineView { tokens: m.tokens.push(m.current.unwrap()), current: None, ..m }
}

/// The tokens emitted so far, with the token under construction added where
/// it holds data.
pub open spec fn flush(m: MachineView) -> Seq<TokenView> {
    match m.current {
        Some(t) => if t.data is Some {
            m.tokens.push(t)
        } else {
            m.tokens
        },
        None => m.tokens,
    }
}

/// Text: each character other than `<` is added to the pending text.
pub open spec fn step_data(input: Seq<char>, m: MachineView) -> Result<MachineView, TokenizeError> {
    let c = input[m.pos];
    let t = match m.current {
        Some(t) => t,
        None => new_token(TokenType::Content),
    };
    if c == '<' {
        Ok(MachineView { state: StateType::TagOpen, pos: m.pos + 1, current: Some(t), ..m })
    } else {
        Ok(MachineView { pos: m.pos + 1, current: Some(TokenView { data: push_opt(t.data, c), ..t }), ..m })
    }
}

/// After `<`: pending text is emitted, and a start tag begins.
pub open spec fn step_tag_open(input: Seq<char>, m: MachineView) -> Result<MachineView, TokenizeError> {
    let m1 = MachineView { tokens: flush(m), current: Some(new_token(TokenType::StartTag)), ..m };
    match char_at(input, m.pos) {
        None => Err(TokenizeError::EofBeforeTagName),
        Some(c) => if c == '!' {
            Ok(MachineView { state: StateType::MarkupDeclarationOpen, pos: m.pos + 1, ..m1 })
        } else if c == '/' {
            Ok(MachineView { state: StateType::EndTagOpen, pos: m.pos + 1, ..m1 })
        } else if alphabetic(c) {
            Ok(MachineView { state: StateType::TagName, ..m1 })
        } else {
            Err(TokenizeError::InvalidFirstCharacterOfTagName)
        },
    }
}

pub open spec fn step_end_tag_open(input: Seq<char>, m: MachineView) -> Result<MachineView, TokenizeError> {
    let m1 = with_current(m, TokenView { kind: TokenType::EndTag, ..m.current.unwrap() });
    match char_at(input, m.pos) {
        None => Err(TokenizeError::EofBeforeTagName),
        Some(c) => if c == '>' {
            Err(TokenizeError::MissingEndTagName)
        } else if alphabetic(c) {
            Ok(MachineView { state: StateType::TagName, ..m1 })
        } else {
            Err(TokenizeError::InvalidFirstCharacterOfTagName)
        },
    }
}

pub open spec fn step_tag_name(input: Seq<char>, m: MachineView) -> Result<MachineView, TokenizeError> {
    let t = m.current.unwrap();
    match char_at(input, m.pos) {
        None => Err(TokenizeError::EofInTag),
        Some(c) => {
            let m1 = MachineView { pos: m.pos + 1, ..m };
            if c == ' ' {
                Ok(MachineView { state: StateType::BeforeAttributeName, ..m1 })
            } else if c == '/' {
                Ok(MachineView { state: StateType::SelfClosingStartTag, ..m1 })
            } else if c == '>' {
                Ok(emit(MachineView { state: StateType::Data, ..m1 }))
            } else {
                Ok(with_current(m1, TokenView { name: push_opt(t.name, c), ..t }))
            }
        },
    }
}

pub open spec fn step_before_attr_name(input: Seq<char>, m: MachineView) -> Result<MachineView, TokenizeError> {
    match char_at(input, m.pos) {
        None => Err(TokenizeError::UnexpectedEofWaitingForAttributeName),
        Some(c) => if c == ' ' {
            Ok(MachineView { pos: blank_end(input, m.pos), ..m })
        } else if c == '=' {
            Err(TokenizeError::UnexpectedEqualsBeforeAttributeName)
        } else {
            Ok(MachineView { state: StateType::AttributeName, attr: empty_attr(), ..m })
        },
    }
}

pub open spec fn step_attr_name(input: Seq<char>, m: MachineView) -> Result<MachineView, TokenizeError> {
    match char_at(input, m.pos) {
        None => Err(TokenizeError::UnexpectedEofWaitingForAttributeName),
        Some(c) => if c == '=' {
            Ok(MachineView { state: StateType::BeforeAttributeValue, pos: m.pos + 1, ..m })
        } else if alphabetic(c) {
            Ok(MachineView { pos: m.pos + 1, attr: AttributeView { name: m.attr.name.push(c), ..m.attr }, ..m })
        } else {
            Err(TokenizeError::UnexpectedCharacterInAttributeName)
        },
    }
}

pub open spec fn step_before_attr_val(input: Seq<char>, m: MachineView) -> Result<MachineView, TokenizeError> {
    match char_at(input, m.pos) {
        None => Err(TokenizeError::EofInTag),
        Some(c) => if c == ' ' {
            Ok(MachineView { pos: blank_end(input, m.pos), ..m })
        } else if c == '\'' || c == '"' {
            Ok(MachineView { state: StateType::AttributeValueQuoted, quote: c, pos: m.pos + 1, ..m })
        } else if c == '>' {
            Err(TokenizeError::MissingAttributeValue)
        } else {
            Ok(MachineView { state: StateType::AttributeValueUnquoted, ..m })
        },
    }
}

/// A quoted value runs to the quote that opened it; the attribute is then
/// added to the tag.
pub open spec fn step_attr_val_quoted(input: Seq<char>, m: MachineView) -> Result<MachineView, TokenizeError> {
    let t = m.current.unwrap();
    match char_at(input, m.pos) {
        None => Err(TokenizeError::EofInTag),
        Some(c) => if c == m.quote {
            Ok(MachineView {
                state: StateType::AfterAttributeValue,
                pos: m.pos + 1,
                current: Some(attach(t, m.attr)),
                attr: empty_attr(),
                ..m
            })
        } else {
            Ok(MachineView { pos: m.pos + 1, attr: AttributeView { value: m.attr.value.push(c), ..m.attr }, ..m })
        },
    }
}

/// An unquoted value runs to a blank or `>`; there the attribute is added to
/// the tag, and `>` also emits the tag.
pub open spec fn step_attr_val_unquoted(input: Seq<char>, m: MachineView) -> Result<MachineView, TokenizeError> {
    let t = m.current.unwrap();
    let closed = MachineView {
        pos: m.pos + 1,
        current: Some(attach(t, m.attr)),
        attr: empty_attr(),
        ..m
    };
    match char_at(input, m.pos) {
        None => Err(TokenizeError::EofInTag),
        Some(c) => if is_newline_or_blank(c) {
            Ok(MachineView { state: StateType::BeforeAttributeName, ..closed })
        } else if c == '>' {
            Ok(emit(MachineView { state: StateType::Data, ..closed }))
        } else if alphanumeric(c) {
            Ok(MachineView { pos: m.pos + 1, attr: AttributeView { value: m.attr.value.push(c), ..m.attr }, ..m })
        } else {
            Err(TokenizeError::UnexpectedCharacterInUnquotedAttributeValue)
        },
    }
}

/// After a quoted value. A `>` here returns to the data state without
/// emitting the tag: it stays under construction, text that follows is added
/// to it as data, and it is emitted with that data at the next `<` (or at the
/// end); without data it is dropped there.
pub open spec fn step_after_attr_val(input: Seq<char>, m: MachineView) -> Result<MachineView, TokenizeError> {
    let t = m.current.unwrap();
    match char_at(input, m.pos) {
        None => Err(TokenizeError::EofInTag),
        Some(c) => if is_newline_or_blank(c) {
            Ok(MachineView { state: StateType::BeforeAttributeName, pos: m.pos + 1, ..m })
        } else if c == '/' {
            Ok(MachineView {
                state: StateType::SelfClosingStartTag,
                pos: m.pos + 1,
                current: Some(TokenView { self_closing: true, ..t }),
                ..m
            })
        } else if c == '>' {
            Ok(MachineView { state: StateType::Data, pos: m.pos + 1, ..m })
        } else {
            Err(TokenizeError::MissingWhitespaceBetweenAttributes)
        },
    }
}

pub open spec fn step_self_closing(input: Seq<char>, m: MachineView) -> Result<MachineView, TokenizeError> {
    let t = m.current.unwrap();
    match char_at(input, m.pos) {
        None => Err(TokenizeError::EofInTag),
        Some(c) => if c == '>' {
            Ok(emit(MachineView {
                state: StateType::Data,
                pos: m.pos + 1,
                current: Some(TokenView { self_closing: true, ..t }),
                ..m
            }))
        } else {
            Err(TokenizeError::UnexpectedSolidusInTag)
        },
    }
}

/// After `<!`: `DOCTYPE` opens a doctype, else `--` opens a comment; the
/// first that matches decides the step.
pub open spec fn step_markup_declaration_open(input: Seq<char>, m: MachineView) -> Result<MachineView, TokenizeError> {
    let t = m.current.unwrap();
    if occurs_at(input, m.pos, doctype_word()) {
        Ok(MachineView {
            state: StateType::Doctype,
            pos: m.pos + 7,
            current: Some(TokenView { kind: TokenType::Doctype, ..t }),
            ..m
        })
    } else if occurs_at(input, m.pos, comment_open()) {
        Ok(MachineView {
            state: StateType::Comment,
            pos: m.pos + 2,
            current: Some(TokenView { kind: TokenType::Comment, ..t }),
            ..m
        })
    } else {
        Err(TokenizeError::IncorrectlyOpenedComment)
    }
}

/// A comment body runs to the first `-->`; the comment is emitted there.
pub open spec fn step_comment(input: Seq<char>, m: MachineView) -> Result<MachineView, TokenizeError> {
    let t = m.current.unwrap();
    match find_from(input, m.pos, comment_close()) {
        None => Err(TokenizeError::EofInCommentTag),
        Some(k) => Ok(emit(MachineView {
            state: StateType::Data,
            pos: k + 3,
            current: Some(TokenView { data: Some(text_of(t.data) + input.subrange(m.pos, k)), ..t }),
            ..m
        })),
    }
}

/// A doctype: one blank, then a name of alphanumeric characters up to `>`;
/// the doctype is emitted there.
pub open spec fn step_doctype(input: Seq<char>, m: MachineView) -> Result<MachineView, TokenizeError> {
    let t = m.current.unwrap();
    match char_at(input, m.pos) {
        None => Err(TokenizeError::EofInDoctype),
        Some(c) => if !is_newline_or_blank(c) {
            Err(TokenizeError::MissingWhitespaceBeforeDoctypeName)
        } else {
            match find_from(input, m.pos + 1, seq!['>']) {
                None => Err(TokenizeError::EofInDoctype),
                Some(k) => if exists|j: int| m.pos + 1 <= j < k && !alphanumeric(#[trigger] input[j]) {
                    Err(TokenizeError::InvalidCharacterInDoctypeName)
                } else {
                    Ok(emit(MachineView {
                        state: StateType::Data,
                        pos: k + 1,
                        current: Some(TokenView { name: Some(text_of(t.name) + input.subrange(m.pos + 1, k)), ..t }),
                        ..m
                    }))
                },
            }
        },
    }
}

/// One step of the machine, from any state but the data state at the end of
/// the input.
pub open spec fn step(input: Seq<char>, m: MachineView) -> Result<MachineView, TokenizeError> {
    match m.state {
        StateType::Data => step_data(input, m),
        StateType::TagOpen => step_tag_open(input, m),
        StateType::EndTagOpen => step_end_tag_open(input, m),
        StateType::TagName => step_tag_name(input, m),
        StateType::BeforeAttributeName => step_before_attr_name(input, m),
        StateType::AttributeName => step_attr_name(input, m),
        StateType::BeforeAttributeValue => step_before_attr_val(input, m),
        StateType::AttributeValueQuoted => step_attr_val_quoted(input, m),
        StateType::AttributeValueUnquoted => step_attr_val_unquoted(input, m),
        StateType::AfterAttributeValue => step_after_attr_val(input, m),
        StateType::SelfClosingStartTag => step_self_closing(input, m),
        StateType::MarkupDeclarationOpen => step_markup_declaration_open(input, m),
        StateType::Comment => step_comment(input, m),
        StateType::Doctype => step_doctype(input, m),
    }
}

/// The states left without reading a character.
pub open spec fn rank(s: StateType) -> int {
    match s {
        StateType::TagOpen | StateType::EndTagOpen | StateType::BeforeAttributeName
        | StateType::BeforeAttributeValue => 1,
        _ => 0,
    }
}

/// What each step lowers: the characters left, counted twice, and the rank.
pub open spec fn measure(input: Seq<char>, m: MachineView) -> int {
    (input.len() - m.pos) * 2 + rank(m.state)
}

/// Whether the machine has stopped: the data state at the end of the input.
pub open spec fn finished(input: Seq<char>, m: MachineView) -> bool {
    m.state == StateType::Data && m.pos >= input.len()
}

/// The outcome of running the machine from `m` to the end of the input: the
/// tokens, with any text still pending, or the first error.
#[verifier::opaque]
pub open spec fn run(input: Seq<char>, m: MachineView) -> Result<Seq<TokenView>, TokenizeError>
    decreases measure(input, m),
{
    if finished(input, m) {
        Ok(flush(m))
    } else {
        match step(input, m) {
            Err(e) => Err(e),
            Ok(m2) => if 0 <= measure(input, m2) < measure(input, m) {
                run(input, m2)
            } else {
                Ok(flush(m2))
            },
        }
    }
}

/// The tokens of a whole input, or the first error.
pub open spec fn tokens_of(input: Seq<char>) -> Result<Seq<TokenView>, TokenizeError> {
    run(input, initial_machine())
}

/// Every step keeps the machine well formed and lowers the measure.
pub proof fn lemma_step_progress(input: Seq<char>, m: MachineView)
    requires
        machine_wf(input, m),
        !finished(input, m),
    ensures
        step(input, m) matches Ok(m2) ==> machine_wf(input, m2) && 0 <= measure(input, m2)
            < measure(input, m),
{
    crate::consumer::lemma_find_from_first(input, m.pos, comment_close());
    if 0 <= m.pos + 1 <= input.len() {
        crate::consumer::lemma_find_from_first(input, m.pos + 1, seq!['>']);
    }
    crate::consumer::lemma_scan_bounds(input, m.pos);
}

/// Every step keeps attributes on start tags only.
pub proof fn lemma_step_keeps_attrs_placed(input: Seq<char>, m: MachineView)
    requires
        machine_wf(input, m),
        attrs_placed(m),
        !finished(input, m),
    ensures
        step(input, m) matches Ok(m2) ==> attrs_placed(m2),
{
    if step(input, m) is Ok {
        let m2 = step(input, m)->Ok_0;
        if m.current is Some {
            let t = m.current.unwrap();
            assert forall|i: int| 0 <= i < m.tokens.push(t).len() && (#[trigger] m.tokens.push(t)[i]).attrs.len()
                > 0 implies m.tokens.push(t)[i].kind == TokenType::StartTag by {
                if i < m.tokens.len() {
                    assert(m.tokens.push(t)[i] == m.tokens[i]);
                }
            }
            let t2 = attach(t, m.attr);
            assert forall|i: int| 0 <= i < m.tokens.push(t2).len() && (#[trigger] m.tokens.push(t2)[i]).attrs.len()
                > 0 implies m.tokens.push(t2)[i].kind == TokenType::StartTag by {
                if i < m.tokens.len() {
                    assert(m.tokens.push(t2)[i] == m.tokens[i]);
                }
            }
            let t3 = TokenView { self_closing: true, ..t };
            assert forall|i: int| 0 <= i < m.tokens.push(t3).len() && (#[trigger] m.tokens.push(t3)[i]).attrs.len()
                > 0 implies m.tokens.push(t3)[i].kind == TokenType::StartTag by {
                if i < m.tokens.len() {
                    assert(m.tokens.push(t3)[i] == m.tokens[i]);
                }
            }
        }
    }
}

proof fn lemma_push_shaped(ts: Seq<TokenView>, t: TokenView)
    requires
        tokens_shaped(ts),
        token_shaped(t),
    ensures
        tokens_shaped(ts.push(t)),
{
    assert forall|i: int| 0 <= i < ts.push(t).len() implies token_shaped(#[trigger] ts.push(t)[i]) by {
        if i < ts.len() {
            assert(ts.push(t)[i] == ts[i]);
        }
    }
}

/// Every step keeps the tokens shaped.
pub proof fn lemma_step_keeps_shape(input: Seq<char>, m: MachineView)
    requires
        machine_wf(input, m),
        machine_shaped(m),
        !finished(input, m),
    ensures
        step(input, m) matches Ok(m2) ==> machine_shaped(m2),
{
    if step(input, m) is Ok {
        let m2 = step(input, m)->Ok_0;
        if m2.tokens != m.tokens {
            let t = m2.tokens.last();
            assert(m2.tokens == m.tokens.push(t));
            lemma_push_shaped(m.tokens, t);
        }
    }
}

/// The outcome of a run as tokens' views.
pub open spec fn result_view(r: Result<Vec<Token>, TokenizeError>) -> Result<Seq<TokenView>, TokenizeError> {
    match r {
        Ok(v) => Ok(tokens_view(v@)),
        Err(e) => Err(e),
    }
}

/// Whether every character of `v` is alphanumeric.
fn all_alphanumeric(v: &Vec<char>) -> (r: bool)
    ensures
        r == forall|j: int| 0 <= j < v@.len() ==> alphanumeric(#[trigger] v@[j]),
{
    let mut i: usize = 0;
    while i < v.len()
        invariant
            i <= v.len(),
            forall|j: int| 0 <= j < i ==> alphanumeric(#[trigger] v@[j]),
        decreases v.len() - i,
    {
        if !is_alphanumeric(v[i]) {
            return false;
        }
        i = i + 1;
    }
    true
}

/// One executed step did what `step` says, from `before` to `after`.
pub open spec fn step_matches(
    input: Seq<char>,
    before: MachineView,
    after_input: Seq<char>,
    after: MachineView,
    r: Result<(), TokenizeError>,
) -> bool {
    &&& after_input == input
    &&& machine_wf(input, after)
    &&& (attrs_placed(before) && r is Err) ==> attrs_placed(after)
    &&& (machine_shaped(before) && r is Err) ==> machine_shaped(after)
    &&& match step(input, before) {
        Ok(m2) => r is Ok && after == m2,
        Err(e) => r == Err::<(), TokenizeError>(e),
    }
}

/// The state machine over one input. It owns a cursor, the tokens emitted so
/// far and one slot each for the token and the attribute under construction.
pub struct Tokenizer {
    con: Consumer,
    state: StateType,
    quote: char,
    tokens: Vec<Token>,
    current: Option<Token>,
    current_attr: Attribute,
}

impl View for Tokenizer {
    type V = MachineView;

    closed spec fn view(&self) -> MachineView {
        MachineView {
            state: self.state,
            quote: self.quote,
            pos: self.con.pos(),
            tokens: tokens_view(self.tokens@),
            current: match self.current {
                Some(t) => Some(t@),
                None => None,
            },
            attr: self.current_attr@,
        }
    }
}

impl Tokenizer {
    /// The characters being tokenized.
    pub closed spec fn input(&self) -> Seq<char> {
        self.con.input()
    }

    pub open spec fn wf(&self) -> bool {
        &&& machine_wf(self.input(), self@)
        &&& attrs_placed(self@)
        &&& machine_shaped(self@)
    }

    pub fn new(src: &str) -> (r: Self)
        ensures
            r.wf(),
            r.input() == src@,
            r@ == initial_machine(),
    {
        let r = Self {
            con: Consumer::new(src),
            state: StateType::Data,
            quote: '"',
            tokens: Vec::new(),
            current: None,
            current_attr: Attribute::new(),
        };
        assert(tokens_view(r.tokens@) =~= seq![]);
        r
    }

    /// Runs the machine to the end of the input and hands out the tokens, or
    /// the first error.
    pub fn execute(&mut self) -> (r: Result<Vec<Token>, TokenizeError>)
        requires
            old(self).wf(),
        ensures
            final(self).wf(),
            final(self).input() == old(self).input(),
            result_view(r) == run(old(self).input(), old(self)@),
            r matches Ok(v) ==> attrs_only_on_start_tags(tokens_view(v@)) && tokens_shaped(tokens_view(v@)),
    {
        loop
            invariant
                self.wf(),
                self.input() == old(self).input(),
                run(self.input(), self@) == run(old(self).input(), old(self)@),
            ensures
                self.wf(),
                self.input() == old(self).input(),
                run(self.input(), self@) == run(old(self).input(), old(self)@),
                finished(self.input(), self@),
            decreases measure(self.input(), self@),
        {
            if self.state == StateType::Data && self.con.peek_char().is_none() {
                break;
            }
            proof {
                lemma_step_progress(self.input(), self@);
                lemma_step_keeps_attrs_placed(self.input(), self@);
                lemma_step_keeps_shape(self.input(), self@);
                reveal(run);
            }
            let ghost before = self@;
            let r = match self.state {
                StateType::Data => self.data(),
                StateType::TagOpen => self.tag_open(),
                StateType::EndTagOpen => self.end_tag_open(),
                StateType::TagName => self.tag_name(),
                StateType::BeforeAttributeName => self.before_attr_name(),
                StateType::AttributeName => self.attr_name(),
                StateType::BeforeAttributeValue => self.before_attr_val(),
                StateType::AttributeValueQuoted => self.attr_val_quoted(),
                StateType::AttributeValueUnquoted => self.attr_val_unquoted(),
                StateType::AfterAttributeValue => self.after_attr_val(),
                StateType::SelfClosingStartTag => self.self_closing_start_tag(),
                StateType::MarkupDeclarationOpen => self.markup_declaration_open(),
                StateType::Comment => self.comment(),
                StateType::Doctype => self.doctype(),
            };
            if let Err(e) = r {
                return Err(e);
            }
            assert(run(self.input(), before) == run(self.input(), self@)) by {
                reveal(run);
            }
        }
        proof {
            reveal(run);
        }
        let ghost before_flush = self@;
        let cur = self.current.take();
        if let Some(t) = cur {
            if t.data.is_some() {
                self.push_token(t);
            }
        }
        let mut out: Vec<Token> = Vec::new();
        std::mem::swap(&mut self.tokens, &mut out);
        assert(tokens_view(out@) == flush(before_flush));
        assert(tokens_view(self.tokens@) =~= seq![]);
        Ok(out)
    }

    fn push_token(&mut self, t: Token)
        ensures
            final(self)@ == (MachineView { tokens: old(self)@.tokens.push(t@), ..old(self)@ }),
            final(self).input() == old(self).input(),
    {
        self.tokens.push(t);
        assert(tokens_view(self.tokens@) =~= tokens_view(old(self).tokens@).push(t@));
    }

    /// Moves the attribute under construction into the token under
    /// construction, and starts a fresh attribute.
    fn close_attribute(&mut self)
        requires
            old(self).current is Some,
        ensures
            final(self)@ == (MachineView {
                current: Some(attach(old(self)@.current.unwrap(), old(self)@.attr)),
                attr: empty_attr(),
                ..old(self)@
            }),
            final(self).input() == old(self).input(),
    {
        let mut attr = Attribute::new();
        std::mem::swap(&mut self.current_attr, &mut attr);
        let mut t = self.current.take().unwrap();
        if t.token_type == TokenType::StartTag {
            t.push_attr(attr);
        }
        self.current = Some(t);
    }

    /// Moves the token under construction to the output.
    fn emit(&mut self)
        requires
            old(self).current is Some,
        ensures
            final(self)@ == emit(old(self)@),
            final(self).input() == old(self).input(),
    {
        let t = self.current.take().unwrap();
        self.push_token(t);
    }

    fn data(&mut self) -> (r: Result<(), TokenizeError>)
        requires
            old(self).wf(),
            old(self)@.state == StateType::Data,
            !finished(old(self).input(), old(self)@),
        ensures
            step_matches(old(self).input(), old(self)@, final(self).input(), final(self)@, r),
    {
        if self.current.is_none() {
            self.current = Some(Token::new(TokenType::Content));
        }
        let c = self.con.next_char().unwrap();
        if c != '<' {
            let mut t = self.current.take().unwrap();
            t.push_data(c);
            self.current = Some(t);
        } else {
            self.state = StateType::TagOpen;
        }
        Ok(())
    }

    fn tag_open(&mut self) -> (r: Result<(), TokenizeError>)
        requires
            old(self).wf(),
            old(self)@.state == StateType::TagOpen,
            !finished(old(self).input(), old(self)@),
        ensures
            step_matches(old(self).input(), old(self)@, final(self).input(), final(self)@, r),
    {
        let cur = self.current.take();
        if let Some(t) = cur {
            if t.data.is_some() {
                self.push_token(t);
            }
        }
        self.current = Some(Token::new(TokenType::StartTag));
        match self.con.peek_char() {
            None => Err(TokenizeError::EofBeforeTagName),
            Some(c) => {
                if c == '!' {
                    self.con.next_char();
                    self.state = StateType::MarkupDeclarationOpen;
                    Ok(())
                } else if c == '/' {
                    self.con.next_char();
                    self.state = StateType::EndTagOpen;
                    Ok(())
                } else if is_alphabetic(c) {
                    self.state = StateType::TagName;
                    Ok(())
                } else {
                    Err(TokenizeError::InvalidFirstCharacterOfTagName)
                }
            },
        }
    }

    fn end_tag_open(&mut self) -> (r: Result<(), TokenizeError>)
        requires
            old(self).wf(),
            old(self)@.state == StateType::EndTagOpen,
            !finished(old(self).input(), old(self)@),
        ensures
            step_matches(old(self).input(), old(self)@, final(self).input(), final(self)@, r),
    {
        let mut t = self.current.take().unwrap();
        t.set_type(TokenType::EndTag);
        self.current = Some(t);
        match self.con.peek_char() {
            None => Err(TokenizeError::EofBeforeTagName),
            Some(c) => {
                if c == '>' {
                    Err(TokenizeError::MissingEndTagName)
                } else if is_alphabetic(c) {
                    self.state = StateType::TagName;
                    Ok(())
                } else {
                    Err(TokenizeError::InvalidFirstCharacterOfTagName)
                }
            },
        }
    }

    fn tag_name(&mut self) -> (r: Result<(), TokenizeError>)
        requires
            old(self).wf(),
            old(self)@.state == StateType::TagName,
            !finished(old(self).input(), old(self)@),
        ensures
            step_matches(old(self).input(), old(self)@, final(self).input(), final(self)@, r),
    {
        match self.con.next_char() {
            None => Err(TokenizeError::EofInTag),
            Some(c) => {
                if c == ' ' {
                    self.state = StateType::BeforeAttributeName;
                } else if c == '/' {
                    self.state = StateType::SelfClosingStartTag;
                } else if c == '>' {
                    self.state = StateType::Data;
                    self.emit();
                } else {
                    let mut t = self.current.take().unwrap();
                    t.push_name(c);
                    self.current = Some(t);
                }
                Ok(())
            },
        }
    }

    fn before_attr_name(&mut self) -> (r: Result<(), TokenizeError>)
        requires
            old(self).wf(),
            old(self)@.state == StateType::BeforeAttributeName,
            !finished(old(self).input(), old(self)@),
        ensures
            step_matches(old(self).input(), old(self)@, final(self).input(), final(self)@, r),
    {
        match self.con.peek_char() {
            None => Err(TokenizeError::UnexpectedEofWaitingForAttributeName),
            Some(c) => {
                if c == ' ' {
                    self.con.skip_space();
                    Ok(())
                } else if c == '=' {
                    Err(TokenizeError::UnexpectedEqualsBeforeAttributeName)
                } else {
                    self.current_attr = Attribute::new();
                    self.state = StateType::AttributeName;
                    Ok(())
                }
            },
        }
    }

    fn attr_name(&mut self) -> (r: Result<(), TokenizeError>)
        requires
            old(self).wf(),
            old(self)@.state == StateType::AttributeName,
            !finished(old(self).input(), old(self)@),
        ensures
            step_matches(old(self).input(), old(self)@, final(self).input(), final(self)@, r),
    {
        match self.con.next_char() {
            None => Err(TokenizeError::UnexpectedEofWaitingForAttributeName),
            Some(c) => {
                if c == '=' {
                    self.state = StateType::BeforeAttributeValue;
                    Ok(())
                } else if is_alphabetic(c) {
                    self.current_attr.push_name(c);
                    Ok(())
                } else {
                    Err(TokenizeError::UnexpectedCharacterInAttributeName)
                }
            },
        }
    }

    fn before_attr_val(&mut self) -> (r: Result<(), TokenizeError>)
        requires
            old(self).wf(),
            old(self)@.state == StateType::BeforeAttributeValue,
            !finished(old(self).input(), old(self)@),
        ensures
            step_matches(old(self).input(), old(self)@, final(self).input(), final(self)@, r),
    {
        match self.con.peek_char() {
            None => Err(TokenizeError::EofInTag),
            Some(c) => {
                if c == ' ' {
                    self.con.skip_space();
                    Ok(())
                } else if c == '\'' || c == '"' {
                    self.con.next_char();
                    self.quote = c;
                    self.state = StateType::AttributeValueQuoted;
                    Ok(())
                } else if c == '>' {
                    Err(TokenizeError::MissingAttributeValue)
                } else {
                    self.state = StateType::AttributeValueUnquoted;
                    Ok(())
                }
            },
        }
    }

    fn attr_val_quoted(&mut self) -> (r: Result<(), TokenizeError>)
        requires
            old(self).wf(),
            old(self)@.state == StateType::AttributeValueQuoted,
            !finished(old(self).input(), old(self)@),
        ensures
            step_matches(old(self).input(), old(self)@, final(self).input(), final(self)@, r),
    {
        match self.con.next_char() {
            None => Err(TokenizeError::EofInTag),
            Some(c) => {
                if c == self.quote {
                    self.state = StateType::AfterAttributeValue;
                    self.close_attribute();
                } else {
                    self.current_attr.push_val(c);
                }
                Ok(())
            },
        }
    }

    fn attr_val_unquoted(&mut self) -> (r: Result<(), TokenizeError>)
        requires
            old(self).wf(),
            old(self)@.state == StateType::AttributeValueUnquoted,
            !finished(old(self).input(), old(self)@),
        ensures
            step_matches(old(self).input(), old(self)@, final(self).input(), final(self)@, r),
    {
        match self.con.next_char() {
            None => Err(TokenizeError::EofInTag),
            Some(c) => {
                if c == ' ' || c == '\t' || c == '\r' || c == '\n' {
                    self.close_attribute();
                    self.state = StateType::BeforeAttributeName;
                    Ok(())
                } else if c == '>' {
                    self.close_attribute();
                    self.state = StateType::Data;
                    self.emit();
                    Ok(())
                } else if is_alphanumeric(c) {
                    self.current_attr.push_val(c);
                    Ok(())
                } else {
                    Err(TokenizeError::UnexpectedCharacterInUnquotedAttributeValue)
                }
            },
        }
    }

    fn after_attr_val(&mut self) -> (r: Result<(), TokenizeError>)
        requires
            old(self).wf(),
            old(self)@.state == StateType::AfterAttributeValue,
            !finished(old(self).input(), old(self)@),
        ensures
            step_matches(old(self).input(), old(self)@, final(self).input(), final(self)@, r),
    {
        match self.con.next_char() {
            None => Err(TokenizeError::EofInTag),
            Some(c) => {
                if c == ' ' || c == '\t' || c == '\r' || c == '\n' {
                    self.state = StateType::BeforeAttributeName;
                    Ok(())
                } else if c == '/' {
                    self.state = StateType::SelfClosingStartTag;
                    let mut t = self.current.take().unwrap();
                    t.set_self_closing(true);
                    self.current = Some(t);
                    Ok(())
                } else if c == '>' {
                    self.state = StateType::Data;
                    Ok(())
                } else {
                    Err(TokenizeError::MissingWhitespaceBetweenAttributes)
                }
            },
        }
    }

    fn self_closing_start_tag(&mut self) -> (r: Result<(), TokenizeError>)
        requires
            old(self).wf(),
            old(self)@.state == StateType::SelfClosingStartTag,
            !finished(old(self).input(), old(self)@),
        ensures
            step_matches(old(self).input(), old(self)@, final(self).input(), final(self)@, r),
    {
        match self.con.next_char() {
            None => Err(TokenizeError::EofInTag),
            Some(c) => {
                if c == '>' {
                    let mut t = self.current.take().unwrap();
                    t.set_self_closing(true);
                    self.current = Some(t);
                    self.state = StateType::Data;
                    self.emit();
                    Ok(())
                } else {
                    Err(TokenizeError::UnexpectedSolidusInTag)
                }
            },
        }
    }

    fn markup_declaration_open(&mut self) -> (r: Result<(), TokenizeError>)
        requires
            old(self).wf(),
            old(self)@.state == StateType::MarkupDeclarationOpen,
            !finished(old(self).input(), old(self)@),
        ensures
            step_matches(old(self).input(), old(self)@, final(self).input(), final(self)@, r),
    {
        proof {
            reveal_strlit("DOCTYPE");
            reveal_strlit("--");
        }
        let doctype = String::from_str("DOCTYPE");
        assert(doctype@ =~= doctype_word());
        if let Some(s) = self.con.peek_n(7) {
            if s == doctype {
                self.con.next_n(7);
                self.state = StateType::Doctype;
                let mut t = self.current.take().unwrap();
                t.set_type(TokenType::Doctype);
                self.current = Some(t);
                return Ok(());
            }
        }
        let open = String::from_str("--");
        assert(open@ =~= comment_open());
        if let Some(s) = self.con.peek_n(2) {
            if s == open {
                self.con.next_n(2);
                self.state = StateType::Comment;
                let mut t = self.current.take().unwrap();
                t.set_type(TokenType::Comment);
                self.current = Some(t);
                return Ok(());
            }
        }
        Err(TokenizeError::IncorrectlyOpenedComment)
    }

    fn comment(&mut self) -> (r: Result<(), TokenizeError>)
        requires
            old(self).wf(),
            old(self)@.state == StateType::Comment,
            !finished(old(self).input(), old(self)@),
        ensures
            step_matches(old(self).input(), old(self)@, final(self).input(), final(self)@, r),
    {
        proof {
            reveal_strlit("-->");
        }
        assert("-->"@ =~= comment_close());
        let ghost start = self.con.pos();
        proof {
            crate::consumer::lemma_find_from_first(self.input(), start, comment_close());
        }
        match self.con.next_until("-->") {
            None => Err(TokenizeError::EofInCommentTag),
            Some(s) => {
                self.con.next_n(3);
                let chars = str_to_chars(s.as_str());
                let mut t = self.current.take().unwrap();
                let ghost orig = t@;
                if t.data.is_none() {
                    t.data = Some(String::new());
                }
                let ghost t0 = t@;
                assert(t0.data == Some(text_of(orig.data)));
                let mut i: usize = 0;
                while i < chars.len()
                    invariant
                        i <= chars.len(),
                        t@ == (TokenView { data: push_all(t0.data, chars@.subrange(0, i as int)), ..t0 }),
                    decreases chars.len() - i,
                {
                    proof {
                        lemma_push_all_step(t0.data, chars@.subrange(0, i as int), chars@[i as int]);
                        assert(chars@.subrange(0, i + 1) =~= chars@.subrange(0, i as int).push(chars@[i as int]));
                    }
                    t.push_data(chars[i]);
                    i = i + 1;
                }
                assert(chars@.subrange(0, i as int) =~= chars@);
                proof {
                    if chars@.len() == 0 {
                        assert(text_of(orig.data) + chars@ =~= text_of(orig.data));
                    }
                }
                self.current = Some(t);
                self.state = StateType::Data;
                self.emit();
                Ok(())
            },
        }
    }

    fn doctype(&mut self) -> (r: Result<(), TokenizeError>)
        requires
            old(self).wf(),
            old(self)@.state == StateType::Doctype,
            !finished(old(self).input(), old(self)@),
        ensures
            step_matches(old(self).input(), old(self)@, final(self).input(), final(self)@, r),
    {
        match self.con.next_char() {
            None => Err(TokenizeError::EofInDoctype),
            Some(c) => {
                if !(c == ' ' || c == '\t' || c == '\r' || c == '\n') {
                    return Err(TokenizeError::MissingWhitespaceBeforeDoctypeName);
                }
                proof {
                    reveal_strlit(">");
                }
                assert(">"@ =~= seq!['>']);
                let ghost start = self.con.pos();
                proof {
                    crate::consumer::lemma_find_from_first(self.input(), start, seq!['>']);
                }
                match self.con.next_until(">") {
                    None => Err(TokenizeError::EofInDoctype),
                    Some(s) => {
                        self.con.next();
                        let chars = str_to_chars(s.as_str());
                        if !all_alphanumeric(&chars) {
                            let ghost j = choose|j: int| 0 <= j < chars@.len() && !alphanumeric(chars@[j]);
                            assert(!alphanumeric(self.input()[start + j]));
                            return Err(TokenizeError::InvalidCharacterInDoctypeName);
                        }
                        assert forall|j: int| start <= j < start + chars@.len() implies alphanumeric(
                            #[trigger] self.input()[j],
                        ) by {
                            assert(self.input()[j] == chars@[j - start]);
                        }
                        assert(!(exists|j: int| start <= j < start + chars@.len() && !alphanumeric(#[trigger] self.input()[j])));
                        assert(find_from(self.input(), start, seq!['>']) == Some(start + chars@.len()));
                        let mut t = self.current.take().unwrap();
                        let ghost orig = t@;
                        if t.name.is_none() {
                            t.name = Some(String::new());
                        }
                        let ghost t0 = t@;
                        assert(t0.name == Some(text_of(orig.name)));
                        let mut i: usize = 0;
                        while i < chars.len()
                            invariant
                                i <= chars.len(),
                                t@ == (TokenView { name: push_all(t0.name, chars@.subrange(0, i as int)), ..t0 }),
                            decreases chars.len() - i,
                        {
                            proof {
                                lemma_push_all_step(t0.name, chars@.subrange(0, i as int), chars@[i as int]);
                                assert(chars@.subrange(0, i + 1) =~= chars@.subrange(0, i as int).push(chars@[i as int]));
                            }
                            t.push_name(chars[i]);
                            i = i + 1;
                        }
                        assert(chars@.subrange(0, i as int) =~= chars@);
                        proof {
                            if chars@.len() == 0 {
                                assert(text_of(orig.name) + chars@ =~= text_of(orig.name));
                            }
                        }
                        self.current = Some(t);
                        self.state = StateType::Data;
                        self.emit();
                        Ok(())
                    },
                }
            },
        }
    }

} // impl Tokenizer

/// Tokenizes a whole input: the tokens in document order, or the first error.
pub fn tokenize(src: &str) -> (r: Result<Vec<Token>, TokenizeError>)
    ensures
        result_view(r) == tokens_of(src@),
        r matches Ok(v) ==> attrs_only_on_start_tags(tokens_view(v@)) && tokens_shaped(tokens_view(v@)),
{
    let mut tokenizer = Tokenizer::new(src);
    tokenizer.execute()
}

/// The token under construction after the characters `rest` of text were
/// read into it in the data state.
pub open spec fn pending_text(cur: Option<TokenView>, rest: Seq<char>) -> Option<TokenView> {
    if rest.len() == 0 {
        cur
    } else {
        let t = match cur {
            Some(t) => t,
            None => new_token(TokenType::Content),
        };
        Some(TokenView { data: push_all(t.data, rest), ..t })
    }
}

pub proof fn lemma_push_all_front(o: Option<Seq<char>>, c: char, r: Seq<char>)
    ensures
        push_all(push_opt(o, c), r) == push_all(o, seq![c] + r),
{
    match o {
        Some(t) => {
            assert(t.push(c) + r =~= t + (seq![c] + r));
            assert(t + (seq![c] + r) =~= t.push(c) + r);
            if r.len() == 0 {
                assert(seq![c] + r =~= seq![c]);
                assert(t + seq![c] =~= t.push(c));
            }
        },
        None => {
            if r.len() == 0 {
                assert(seq![c] + r =~= seq![c]);
            }
        },
    }
}

/// From the data state, text without a `<` is read to the end into the
/// token under construction.
proof fn lemma_run_text(s: Seq<char>, m: MachineView)
    requires
        m.state == StateType::Data,
        0 <= m.pos <= s.len(),
        forall|j: int| m.pos <= j < s.len() ==> s[j] != '<',
    ensures
        run(s, m) == Ok::<Seq<TokenView>, TokenizeError>(
            flush(
                MachineView {
                    pos: s.len() as int,
                    current: pending_text(m.current, s.subrange(m.pos, s.len() as int)),
                    ..m
                },
            ),
        ),
    decreases s.len() - m.pos,
{
    reveal(run);
    if m.pos < s.len() {
        let m2 = step(s, m)->Ok_0;
        lemma_run_text(s, m2);
        let t = match m.current {
            Some(t) => t,
            None => new_token(TokenType::Content),
        };
        lemma_push_all_front(t.data, s[m.pos], s.subrange(m.pos + 1, s.len() as int));
        assert(seq![s[m.pos]] + s.subrange(m.pos + 1, s.len() as int) =~= s.subrange(
            m.pos,
            s.len() as int,
        ));
        if m.pos + 1 == s.len() {
            assert(s.subrange(m.pos + 1, s.len() as int) =~= seq![]);
            assert(seq![s[m.pos]] + seq![] =~= seq![s[m.pos]]);
        }
    } else {
        assert(s.subrange(m.pos, s.len() as int) =~= seq![]);
        assert(MachineView { pos: s.len() as int, current: m.current, ..m } == m);
    }
}

/// Text without a `<` comes out as a single content token that holds all of
/// it; an empty input gives no token at all.
pub proof fn lemma_plain_text(s: Seq<char>)
    requires
        forall|j: int| 0 <= j < s.len() ==> s[j] != '<',
    ensures
        tokens_of(s) == Ok::<Seq<TokenView>, TokenizeError>(
            if s.len() == 0 {
                seq![]
            } else {
                seq![
                    TokenView {
                        kind: TokenType::Content,
                        name: None,
                        data: Some(s),
                        attrs: seq![],
                        self_closing: false,
                    },
                ]
            },
        ),
{
    lemma_run_text(s, initial_machine());
    assert(s.subrange(0, s.len() as int) =~= s);
    if s.len() == 0 {
        assert(flush(initial_machine()) =~= seq![]);
    }
}

} // verus!
