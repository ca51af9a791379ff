//! Parsing of type ids such as `List<Item=ns:path>` or `Map<Key=string,Item=number>`.
use vstd::prelude::*;
use crate::editor_id::{editor_id_check, EditorId};
use crate::lexer::{lexeme_ok, lexemes_of, lexing, run, CharClass, Lexeme, TokenKind};
use crate::text::{chars_of, string_of, string_push};

verus! {

/// A constant type.
#[derive(Debug, Clone, PartialEq, Eq)]
pub enum ETypeConst {
    Null,
    Bool(bool),
    /// A number constant, kept as the text of its literal.
    Number(String),
    String(String),
}

/// The data types that an id can name.
#[derive(Debug, Clone, PartialEq, Eq)]
pub enum EDataType {
    Object { ident: EditorId },
    Number,
    String,
    Boolean,
    Unknown,
    Const { value: ETypeConst },
    /// A list type, by the id of its registered list.
    List { id: u128 },
    /// A map type, by the id of its registered map.
    Mapping { id: u128 },
}

/// A parsed type id.
#[derive(Debug, PartialEq, Eq)]
pub enum ParsedId {
    Simple(EDataType),
    GenericObject { ident: EditorId, generics: Vec<(String, ParsedId)> },
    List(Box<ParsedId>),
    MapOf { key: Box<ParsedId>, value: Box<ParsedId> },
}

/// What a parse error says was expected.
#[derive(Debug, Clone, Copy, PartialEq, Eq, Structural)]
pub enum Expected {
    /// The given token.
    Token(TokenKind),
    EndOfInput,
    GenericArguments,
    AlphanumericIdentifier,
    CommaOrCloseAngle,
    TypeOrId,
}

/// Why a type id was refused.
#[derive(Debug, Clone, PartialEq, Eq)]
pub enum IdParseError {
    /// The input ended where a token was needed.
    UnexpectedEnd,
    /// A token (its text) where something else was expected.
    UnexpectedToken(String, Expected),
    /// Text (given) that forms no token.
    BadToken(String),
}

// ---------------------------------------------------------------------------
// The model

pub enum SData {
    Object(Seq<char>),
    Number,
    String,
    Boolean,
    Unknown,
    ConstNull,
    ConstBool(bool),
    ConstNumber(Seq<char>),
    ConstString(Seq<char>),
    List(u128),
    Mapping(u128),
}

pub enum SParsed {
    Simple(SData),
    Generic(Seq<char>),
    List(Box<SParsed>),
    MapOf(Box<SParsed>, Box<SParsed>),
}

/// A parse error: lexemes are given by their index.
pub enum SErr {
    End,
    Unexpected(int, Expected),
    Bad(int),
}

pub enum SOut {
    Parsed(SParsed, int),
    Failed(SErr),
    /// An id token whose text is no valid editor id was read.
    Panic,
}

pub enum SCheck {
    Pass,
    Fail(SErr),
    Panic,
}

impl ETypeConst {
    pub open spec fn view(&self) -> SData {
        match self {
            ETypeConst::Null => SData::ConstNull,
            ETypeConst::Bool(b) => SData::ConstBool(*b),
            ETypeConst::Number(t) => SData::ConstNumber(t@),
            ETypeConst::String(t) => SData::ConstString(t@),
        }
    }
}

impl EDataType {
    pub open spec fn view(&self) -> SData {
        match self {
            EDataType::Object { ident } => SData::Object(ident.0@),
            EDataType::Number => SData::Number,
            EDataType::String => SData::String,
            EDataType::Boolean => SData::Boolean,
            EDataType::Unknown => SData::Unknown,
            EDataType::Const { value } => value.view(),
            EDataType::List { id } => SData::List(*id),
            EDataType::Mapping { id } => SData::Mapping(*id),
        }
    }
}

impl ETypeConst {
    /// An equal copy.
    pub fn copied(&self) -> (r: Self)
        ensures
            r == *self,
    {
        match self {
            ETypeConst::Null => ETypeConst::Null,
            ETypeConst::Bool(b) => ETypeConst::Bool(*b),
            ETypeConst::Number(t) => ETypeConst::Number(t.clone()),
            ETypeConst::String(t) => ETypeConst::String(t.clone()),
        }
    }
}

impl EDataType {
    /// An equal copy.
    pub fn copied(&self) -> (r: Self)
        ensures
            r == *self,
    {
        match self {
            EDataType::Object { ident } => EDataType::Object { ident: EditorId(ident.0.clone()) },
            EDataType::Number => EDataType::Number,
            EDataType::String => EDataType::String,
            EDataType::Boolean => EDataType::Boolean,
            EDataType::Unknown => EDataType::Unknown,
            EDataType::Const { value } => EDataType::Const { value: value.copied() },
            EDataType::List { id } => EDataType::List { id: *id },
            EDataType::Mapping { id } => EDataType::Mapping { id: *id },
        }
    }
}

impl ParsedId {
    pub open spec fn view(&self) -> SParsed
        decreases self,
    {
        match self {
            ParsedId::Simple(t) => SParsed::Simple(t.view()),
            ParsedId::GenericObject { ident, .. } => SParsed::Generic(ident.0@),
            ParsedId::List(t) => SParsed::List(Box::new(t.view())),
            ParsedId::MapOf { key, value } => SParsed::MapOf(Box::new(key.view()), Box::new(value.view())),
        }
    }
}

/// The text of a lexeme.
pub open spec fn text(s: Seq<char>, lx: Lexeme) -> Seq<char> {
    s.subrange(lx.start as int, lx.end as int)
}

/// An id token whose text is refused as an editor id.
pub open spec fn bad_id(s: Seq<char>, lx: Lexeme) -> bool {
    lx.kind == Some(TokenKind::Id) && editor_id_check(text(s, lx)) is Err
}

pub enum Step {
    Tok(TokenKind),
    End,
    Bad,
    Panic,
}

/// What reading the lexeme at `pos` gives.
pub open spec fn step_at(s: Seq<char>, toks: Seq<Lexeme>, pos: int) -> Step {
    if pos < 0 || pos >= toks.len() {
        Step::End
    } else if bad_id(s, toks[pos]) {
        Step::Panic
    } else {
        match toks[pos].kind {
            None => Step::Bad,
            Some(k) => Step::Tok(k),
        }
    }
}

/// Reading the lexeme at `pos`, which must be `k`.
pub open spec fn sp_expect(s: Seq<char>, toks: Seq<Lexeme>, pos: int, k: TokenKind) -> SCheck {
    match step_at(s, toks, pos) {
        Step::Panic => SCheck::Panic,
        Step::End => SCheck::Fail(SErr::End),
        Step::Bad => SCheck::Fail(SErr::Bad(pos)),
        Step::Tok(t) => if t == k {
            SCheck::Pass
        } else {
            SCheck::Fail(SErr::Unexpected(pos, Expected::Token(k)))
        },
    }
}

/// Reading `k1 k2 k3` from `pos`.
pub open spec fn sp_expect3(
    s: Seq<char>,
    toks: Seq<Lexeme>,
    pos: int,
    k1: TokenKind,
    k2: TokenKind,
    k3: TokenKind,
) -> SCheck {
    match sp_expect(s, toks, pos, k1) {
        SCheck::Pass => match sp_expect(s, toks, pos + 1, k2) {
            SCheck::Pass => sp_expect(s, toks, pos + 2, k3),
            other => other,
        },
        other => other,
    }
}

/// `'...'` without its quotes, each doubled quote read as one.
pub open spec fn unpair(t: Seq<char>, i: int) -> Seq<char>
    decreases t.len() - i,
{
    if i >= t.len() {
        Seq::empty()
    } else if i + 1 < t.len() && t[i] == '\'' && t[i + 1] == '\'' {
        seq!['\''] + unpair(t, i + 2)
    } else {
        seq![t[i]] + unpair(t, i + 1)
    }
}

/// `t` with each quote written twice.
pub open spec fn double_quotes(t: Seq<char>) -> Seq<char>
    decreases t.len(),
{
    if t.len() == 0 {
        Seq::empty()
    } else if t[0] == '\'' {
        seq!['\'', '\''] + double_quotes(t.drop_first())
    } else {
        seq![t[0]] + double_quotes(t.drop_first())
    }
}

/// The value of a string literal.
pub open spec fn unescape(t: Seq<char>) -> Seq<char> {
    unpair(t.subrange(1, t.len() - 1), 0)
}

/// The type that a single-token type id names.
pub open spec fn simple_of(s: Seq<char>, lx: Lexeme, k: TokenKind) -> Option<SData> {
    match k {
        TokenKind::Number => Some(SData::Number),
        TokenKind::String => Some(SData::String),
        TokenKind::Boolean => Some(SData::Boolean),
        TokenKind::Unknown => Some(SData::Unknown),
        TokenKind::Null => Some(SData::ConstNull),
        TokenKind::ConstNumber => Some(SData::ConstNumber(text(s, lx))),
        TokenKind::ConstString => Some(SData::ConstString(unescape(text(s, lx)))),
        TokenKind::ConstBool => Some(SData::ConstBool(text(s, lx) == seq!['t', 'r', 'u', 'e'])),
        _ => None,
    }
}

/// Parsing a type from the lexeme at `pos`: the type and the position after it.
pub open spec fn sp_type(s: Seq<char>, toks: Seq<Lexeme>, pos: int) -> SOut
    decreases toks.len() - pos,
{
    if pos < 0 || pos >= toks.len() {
        SOut::Failed(SErr::End)
    } else {
        match step_at(s, toks, pos) {
            Step::Panic => SOut::Panic,
            Step::End => SOut::Failed(SErr::End),
            Step::Bad => SOut::Failed(SErr::Bad(pos)),
            Step::Tok(TokenKind::Id) => match step_at(s, toks, pos + 1) {
                Step::Panic => SOut::Panic,
                Step::Bad => SOut::Failed(SErr::Bad(pos + 1)),
                Step::Tok(TokenKind::OpenAngle) => SOut::Failed(
                    SErr::Unexpected(pos + 1, Expected::AlphanumericIdentifier),
                ),
                Step::Tok(TokenKind::CloseAngle) | Step::Tok(TokenKind::Comma) | Step::End =>
                    SOut::Parsed(SParsed::Simple(SData::Object(text(s, toks[pos]))), pos + 1),
                Step::Tok(_) => SOut::Failed(SErr::Unexpected(pos + 1, Expected::GenericArguments)),
            },
            Step::Tok(TokenKind::List) => match sp_expect3(
                s,
                toks,
                pos + 1,
                TokenKind::OpenAngle,
                TokenKind::Item,
                TokenKind::Equals,
            ) {
                SCheck::Panic => SOut::Panic,
                SCheck::Fail(e) => SOut::Failed(e),
                SCheck::Pass => match sp_type(s, toks, pos + 4) {
                    SOut::Parsed(item, p1) => match sp_expect(s, toks, p1, TokenKind::CloseAngle) {
                        SCheck::Pass => SOut::Parsed(SParsed::List(Box::new(item)), p1 + 1),
                        SCheck::Fail(e) => SOut::Failed(e),
                        SCheck::Panic => SOut::Panic,
                    },
                    other => other,
                },
            },
            Step::Tok(TokenKind::MapWord) => match sp_expect3(
                s,
                toks,
                pos + 1,
                TokenKind::OpenAngle,
                TokenKind::Key,
                TokenKind::Equals,
            ) {
                SCheck::Panic => SOut::Panic,
                SCheck::Fail(e) => SOut::Failed(e),
                SCheck::Pass => match sp_type(s, toks, pos + 4) {
                    SOut::Parsed(key, p1) => if p1 <= pos {
                        SOut::Failed(SErr::End)
                    } else {
                        match sp_expect(s, toks, p1, TokenKind::Comma) {
                            SCheck::Panic => SOut::Panic,
                            SCheck::Fail(e) => SOut::Failed(e),
                            SCheck::Pass => match sp_expect(s, toks, p1 + 1, TokenKind::Item) {
                                SCheck::Panic => SOut::Panic,
                                SCheck::Fail(e) => SOut::Failed(e),
                                SCheck::Pass => match sp_expect(s, toks, p1 + 2, TokenKind::Equals) {
                                    SCheck::Panic => SOut::Panic,
                                    SCheck::Fail(e) => SOut::Failed(e),
                                    SCheck::Pass => match sp_type(s, toks, p1 + 3) {
                                        SOut::Parsed(value, p2) => match sp_expect(s, toks, p2, TokenKind::CloseAngle) {
                                            SCheck::Pass => SOut::Parsed(
                                                SParsed::MapOf(Box::new(key), Box::new(value)),
                                                p2 + 1,
                                            ),
                                            SCheck::Fail(e) => SOut::Failed(e),
                                            SCheck::Panic => SOut::Panic,
                                        },
                                        other => other,
                                    },
                                },
                            },
                        }
                    },
                    other => other,
                },
            },
            Step::Tok(k) => match simple_of(s, toks[pos], k) {
                Some(d) => SOut::Parsed(SParsed::Simple(d), pos + 1),
                None => SOut::Failed(SErr::Unexpected(pos, Expected::TypeOrId)),
            },
        }
    }
}

} // verus!

verus! {

// ---------------------------------------------------------------------------
// String literals

proof fn lemma_double_quotes_push(x: Seq<char>, c: char)
    ensures
        double_quotes(x.push(c)) == double_quotes(x) + double_quotes(seq![c]),
    decreases x.len(),
{
    if x.len() == 0 {
        assert(x.push(c) =~= seq![c]);
        assert(double_quotes(x) =~= Seq::<char>::empty());
        assert(double_quotes(x) + double_quotes(seq![c]) =~= double_quotes(seq![c]));
    } else {
        assert(x.push(c).drop_first() =~= x.drop_first().push(c));
        lemma_double_quotes_push(x.drop_first(), c);
        assert(double_quotes(seq![c]).len() >= 0);
        assert(seq![c].drop_first() =~= Seq::<char>::empty());
        if x[0] == '\'' {
            assert(double_quotes(x.push(c)) =~= seq!['\'', '\''] + (double_quotes(x.drop_first())
                + double_quotes(seq![c])));
        } else {
            assert(double_quotes(x.push(c)) =~= seq![x[0]] + (double_quotes(x.drop_first())
                + double_quotes(seq![c])));
        }
    }
}

/// Escapes a string for the standard display: each `'` is written twice.
pub fn escape_const_string(str: &str) -> (r: String)
    ensures
        r@ == double_quotes(str@),
{
    let v = chars_of(str);
    let mut r = String::new();
    let mut i: usize = 0;
    assert(double_quotes(v@.subrange(0, 0)) =~= Seq::<char>::empty());
    while i < v.len()
        invariant
            i <= v@.len(),
            r@ == double_quotes(v@.subrange(0, i as int)),
        decreases v.len() - i,
    {
        let c = v[i];
        proof {
            lemma_double_quotes_push(v@.subrange(0, i as int), c);
            assert(v@.subrange(0, i + 1) =~= v@.subrange(0, i as int).push(c));
            assert(seq![c].drop_first() =~= Seq::<char>::empty());
            assert(double_quotes(Seq::<char>::empty()) =~= Seq::<char>::empty());
            assert(double_quotes(seq![c]) =~= if c == '\'' { seq!['\'', '\''] } else { seq![c] });
        }
        if c == '\'' {
            string_push(&mut r, '\'');
            string_push(&mut r, '\'');
            assert(r@ =~= double_quotes(v@.subrange(0, i + 1)));
        } else {
            string_push(&mut r, c);
            assert(r@ =~= double_quotes(v@.subrange(0, i + 1)));
        }
        i = i + 1;
    }
    assert(v@.subrange(0, v@.len() as int) =~= str@);
    r
}

/// `unpair` of `t[i..]` is `unpair` of `(p + t)[p.len() + i..]`.
proof fn lemma_unpair_shift(p: Seq<char>, t: Seq<char>, i: int)
    requires
        0 <= i,
    ensures
        unpair(p + t, p.len() + i) == unpair(t, i),
    decreases t.len() - i,
{
    let pt = p + t;
    if i >= t.len() {
    } else if i + 1 < t.len() && t[i] == '\'' && t[i + 1] == '\'' {
        assert(pt[p.len() + i] == t[i]);
        assert(pt[p.len() + i + 1] == t[i + 1]);
        lemma_unpair_shift(p, t, i + 2);
    } else {
        assert(pt[p.len() + i] == t[i]);
        if i + 1 < t.len() {
            assert(pt[p.len() + i + 1] == t[i + 1]);
        }
        lemma_unpair_shift(p, t, i + 1);
    }
}

/// Undoubling the quotes of a text with doubled quotes gives the text.
pub proof fn lemma_unpair_double_quotes(x: Seq<char>)
    ensures
        unpair(double_quotes(x), 0) == x,
    decreases x.len(),
{
    if x.len() > 0 {
        let rest = double_quotes(x.drop_first());
        lemma_unpair_double_quotes(x.drop_first());
        if x[0] == '\'' {
            let head = seq!['\'', '\''];
            lemma_unpair_shift(head, rest, 0);
            assert(double_quotes(x) == head + rest);
            assert((head + rest)[0] == '\'' && (head + rest)[1] == '\'');
            assert(unpair(head + rest, 0) == seq!['\''] + unpair(head + rest, 2));
        } else {
            let head = seq![x[0]];
            lemma_unpair_shift(head, rest, 0);
            assert(double_quotes(x) == head + rest);
            assert((head + rest)[0] == x[0]);
            assert(unpair(head + rest, 0) == seq![x[0]] + unpair(head + rest, 1));
        }
        assert(x =~= seq![x[0]] + x.drop_first());
    }
}

/// A string escaped and put in quotes reads back as the string.
pub proof fn law_unescape_after_escape(x: Seq<char>)
    ensures
        unescape(seq!['\''] + double_quotes(x) + seq!['\'']) == x,
{
    let t = seq!['\''] + double_quotes(x) + seq!['\''];
    assert(t.subrange(1, t.len() - 1) =~= double_quotes(x));
    lemma_unpair_double_quotes(x);
}

/// The characters of `v[lo..hi]` with each doubled quote read as one.
fn unpair_range(v: &Vec<char>, lo: usize, hi: usize) -> (r: String)
    requires
        lo <= hi <= v@.len(),
    ensures
        r@ == unpair(v@.subrange(lo as int, hi as int), 0),
{
    let ghost t = v@.subrange(lo as int, hi as int);
    let mut r = String::new();
    let mut i = lo;
    while i < hi
        invariant
            lo <= i <= hi <= v@.len(),
            t == v@.subrange(lo as int, hi as int),
            r@ + unpair(t, i - lo) == unpair(t, 0),
        decreases hi - i,
    {
        if i + 1 < hi && v[i] == '\'' && v[i + 1] == '\'' {
            string_push(&mut r, '\'');
            assert(unpair(t, i - lo) == seq!['\''] + unpair(t, i + 2 - lo));
            assert(r@ + unpair(t, i + 2 - lo) =~= unpair(t, 0));
            i = i + 2;
        } else {
            let c = v[i];
            string_push(&mut r, c);
            assert(unpair(t, i - lo) == seq![c] + unpair(t, i + 1 - lo));
            assert(r@ + unpair(t, i + 1 - lo) =~= unpair(t, 0));
            i = i + 1;
        }
    }
    assert(r@ =~= r@ + unpair(t, i - lo));
    r
}

/// Reads a string literal `'...'`: drops the quotes and reads each doubled quote as one.
pub fn unescape_const_string(str: &str) -> (r: String)
    requires
        str@.len() >= 2,
        str@[0] == '\'',
        str@[str@.len() - 1] == '\'',
    ensures
        r@ == unescape(str@),
{
    let v = chars_of(str);
    unpair_range(&v, 1, v.len() - 1)
}

} // verus!

verus! {

/// `e` is the error that `se` describes.
pub open spec fn err_is(s: Seq<char>, toks: Seq<Lexeme>, se: SErr, e: IdParseError) -> bool {
    match se {
        SErr::End => e == IdParseError::UnexpectedEnd,
        SErr::Bad(i) => e matches IdParseError::BadToken(t) && t@ == text(s, toks[i]),
        SErr::Unexpected(i, x) => e matches IdParseError::UnexpectedToken(t, y) && t@ == text(
            s,
            toks[i],
        ) && y == x,
    }
}

/// A parse from `pos` ends after `pos`.
pub proof fn lemma_sp_type_pos(s: Seq<char>, toks: Seq<Lexeme>, pos: int)
    ensures
        sp_type(s, toks, pos) matches SOut::Parsed(_, e) ==> pos < e <= toks.len(),
    decreases toks.len() - pos,
{
    if 0 <= pos < toks.len() {
        match step_at(s, toks, pos) {
            Step::Tok(TokenKind::List) => {
                if pos + 4 <= toks.len() {
                    lemma_sp_type_pos(s, toks, pos + 4);
                }
            },
            Step::Tok(TokenKind::MapWord) => {
                if pos + 4 <= toks.len() {
                    lemma_sp_type_pos(s, toks, pos + 4);
                }
                match sp_type(s, toks, pos + 4) {
                    SOut::Parsed(_, p1) => {
                        if p1 > pos && p1 + 3 <= toks.len() {
                            lemma_sp_type_pos(s, toks, p1 + 3);
                        }
                    },
                    _ => {},
                }
            },
            _ => {},
        }
    }
}

fn token_text(v: &Vec<char>, lx: Lexeme) -> (r: String)
    requires
        lx.start <= lx.end <= v@.len(),
    ensures
        r@ == text(v@, lx),
{
    string_of(v, lx.start, lx.end)
}

/// How parsing stops early: with an error, or on an id token whose text is no
/// valid editor id.
pub enum Halt {
    Error(IdParseError),
    MalformedId,
}

/// `h` is how the spec outcome `sc` stops.
pub open spec fn halt_is(s: Seq<char>, toks: Seq<Lexeme>, sc: SCheck, h: Halt) -> bool {
    match sc {
        SCheck::Pass => false,
        SCheck::Fail(e) => h matches Halt::Error(x) && err_is(s, toks, e, x),
        SCheck::Panic => h is MalformedId,
    }
}

/// Whether the id lexeme `lx` holds a valid editor id.
fn id_ok(v: &Vec<char>, lx: Lexeme) -> (r: bool)
    requires
        lx.start <= lx.end <= v@.len(),
    ensures
        r == (editor_id_check(text(v@, lx)) is Ok),
{
    let t = token_text(v, lx);
    EditorId::parse(t.as_str()).is_ok()
}

/// Reads the lexeme at `pos`.
fn next_token(v: &Vec<char>, toks: &Vec<Lexeme>, pos: usize) -> (r: Result<TokenKind, Halt>)
    requires
        lexing(v@, toks@),
    ensures
        match step_at(v@, toks@, pos as int) {
            Step::End => r matches Err(Halt::Error(e)) && e == IdParseError::UnexpectedEnd,
            Step::Bad => r matches Err(Halt::Error(e)) && err_is(v@, toks@, SErr::Bad(pos as int), e),
            Step::Tok(k) => r == Ok::<TokenKind, Halt>(k),
            Step::Panic => r matches Err(Halt::MalformedId),
        },
{
    if pos >= toks.len() {
        return Err(Halt::Error(IdParseError::UnexpectedEnd));
    }
    let lx = toks[pos];
    proof {
        assert(lexeme_ok(v@, toks@[pos as int]));
    }
    match lx.kind {
        Some(k) => {
            if k == TokenKind::Id && !id_ok(v, lx) {
                return Err(Halt::MalformedId);
            }
            Ok(k)
        },
        None => Err(Halt::Error(IdParseError::BadToken(token_text(v, lx)))),
    }
}

/// Reads the lexeme at `pos`, which must be `k`.
fn expect_next(v: &Vec<char>, toks: &Vec<Lexeme>, pos: usize, k: TokenKind) -> (r: Result<(), Halt>)
    requires
        lexing(v@, toks@),
    ensures
        match sp_expect(v@, toks@, pos as int, k) {
            SCheck::Pass => r is Ok,
            other => r is Err && halt_is(v@, toks@, other, r->Err_0),
        },
{
    let t = next_token(v, toks, pos)?;
    if t == k {
        Ok(())
    } else {
        proof {
            assert(lexeme_ok(v@, toks@[pos as int]));
        }
        Err(Halt::Error(IdParseError::UnexpectedToken(token_text(v, toks[pos]), Expected::Token(k))))
    }
}

fn expect3(
    v: &Vec<char>,
    toks: &Vec<Lexeme>,
    pos: usize,
    k1: TokenKind,
    k2: TokenKind,
    k3: TokenKind,
) -> (r: Result<(), Halt>)
    requires
        lexing(v@, toks@),
        pos <= toks@.len(),
        toks@.len() + 8 <= usize::MAX,
    ensures
        match sp_expect3(v@, toks@, pos as int, k1, k2, k3) {
            SCheck::Pass => r is Ok,
            other => r is Err && halt_is(v@, toks@, other, r->Err_0),
        },
{
    expect_next(v, toks, pos, k1)?;
    expect_next(v, toks, pos + 1, k2)?;
    expect_next(v, toks, pos + 2, k3)
}

/// `r` is the exec outcome of the spec outcome `o`.
pub open spec fn outcome_is(s: Seq<char>, toks: Seq<Lexeme>, o: SOut, r: Result<(ParsedId, usize), Halt>) -> bool {
    match o {
        SOut::Parsed(p, e) => r is Ok && r->Ok_0.0.view() == p && r->Ok_0.1 == e,
        SOut::Failed(se) => r matches Err(Halt::Error(x)) && err_is(s, toks, se, x),
        SOut::Panic => r matches Err(Halt::MalformedId),
    }
}

/// Parses a type from the lexeme at `pos`; gives the type and the position after it.
fn parse_type(v: &Vec<char>, toks: &Vec<Lexeme>, pos: usize) -> (r: Result<(ParsedId, usize), Halt>)
    requires
        lexing(v@, toks@),
        pos <= toks@.len(),
        toks@.len() + 8 <= usize::MAX,
    ensures
        outcome_is(v@, toks@, sp_type(v@, toks@, pos as int), r),
    decreases toks@.len() - pos,
{
    let ghost s = v@;
    let n = toks.len();
    if pos >= n {
        return Err(Halt::Error(IdParseError::UnexpectedEnd));
    }
    proof {
        assert(lexeme_ok(s, toks@[pos as int]));
        if pos + 4 <= n {
            lemma_sp_type_pos(s, toks@, pos + 4);
        }
    }
    let lx = toks[pos];
    let kind = next_token(v, toks, pos)?;
    match kind {
        TokenKind::Id => {
            let t = token_text(v, lx);
            let id = match EditorId::parse(t.as_str()) {
                Ok(id) => id,
                Err(_) => {
                    return vstd::pervasive::unreached();
                },
            };
            if pos + 1 < n {
                proof {
                    assert(lexeme_ok(s, toks@[pos + 1]));
                }
                let next = toks[pos + 1];
                match next.kind {
                    None => {
                        return Err(Halt::Error(IdParseError::BadToken(token_text(v, next))));
                    },
                    Some(TokenKind::CloseAngle) | Some(TokenKind::Comma) => {},
                    Some(TokenKind::OpenAngle) => {
                        return Err(
                            Halt::Error(
                                IdParseError::UnexpectedToken(
                                    token_text(v, next),
                                    Expected::AlphanumericIdentifier,
                                ),
                            ),
                        );
                    },
                    Some(k) => {
                        if k == TokenKind::Id && !id_ok(v, next) {
                            return Err(Halt::MalformedId);
                        }
                        return Err(
                            Halt::Error(
                                IdParseError::UnexpectedToken(
                                    token_text(v, next),
                                    Expected::GenericArguments,
                                ),
                            ),
                        );
                    },
                }
            }
            Ok((ParsedId::Simple(EDataType::Object { ident: id }), pos + 1))
        },
        TokenKind::List => {
            expect3(v, toks, pos + 1, TokenKind::OpenAngle, TokenKind::Item, TokenKind::Equals)?;
            let (item, p1) = parse_type(v, toks, pos + 4)?;
            expect_next(v, toks, p1, TokenKind::CloseAngle)?;
            Ok((ParsedId::List(Box::new(item)), p1 + 1))
        },
        TokenKind::MapWord => {
            expect3(v, toks, pos + 1, TokenKind::OpenAngle, TokenKind::Key, TokenKind::Equals)?;
            let (key, p1) = parse_type(v, toks, pos + 4)?;
            proof {
                if p1 + 3 <= n {
                    lemma_sp_type_pos(s, toks@, p1 + 3);
                }
            }
            expect_next(v, toks, p1, TokenKind::Comma)?;
            expect_next(v, toks, p1 + 1, TokenKind::Item)?;
            expect_next(v, toks, p1 + 2, TokenKind::Equals)?;
            let (value, p2) = parse_type(v, toks, p1 + 3)?;
            expect_next(v, toks, p2, TokenKind::CloseAngle)?;
            Ok((ParsedId::MapOf { key: Box::new(key), value: Box::new(value) }, p2 + 1))
        },
        TokenKind::Number => Ok((ParsedId::Simple(EDataType::Number), pos + 1)),
        TokenKind::String => Ok((ParsedId::Simple(EDataType::String), pos + 1)),
        TokenKind::Boolean => Ok((ParsedId::Simple(EDataType::Boolean), pos + 1)),
        TokenKind::Unknown => Ok((ParsedId::Simple(EDataType::Unknown), pos + 1)),
        TokenKind::Null => Ok(
            (ParsedId::Simple(EDataType::Const { value: ETypeConst::Null }), pos + 1),
        ),
        TokenKind::ConstNumber => Ok(
            (
                ParsedId::Simple(EDataType::Const { value: ETypeConst::Number(token_text(v, lx)) }),
                pos + 1,
            ),
        ),
        TokenKind::ConstString => {
            assert(text(s, lx).subrange(1, text(s, lx).len() - 1) =~= s.subrange(
                lx.start + 1,
                lx.end - 1,
            ));
            let value = unpair_range(v, lx.start + 1, lx.end - 1);
            Ok((ParsedId::Simple(EDataType::Const { value: ETypeConst::String(value) }), pos + 1))
        },
        TokenKind::ConstBool => {
            let w = ['t', 'r', 'u', 'e'];
            assert(w@ =~= seq!['t', 'r', 'u', 'e']);
            let b = crate::lexer::is_word(v, lx.start, lx.end, w.as_slice());
            Ok((ParsedId::Simple(EDataType::Const { value: ETypeConst::Bool(b) }), pos + 1))
        },
        _ => Err(Halt::Error(IdParseError::UnexpectedToken(token_text(v, lx), Expected::TypeOrId))),
    }
}

} // verus!

verus! {

/// Lexemes are never more than characters.
pub proof fn lemma_lexing_len(s: Seq<char>, toks: Seq<Lexeme>)
    requires
        lexing(s, toks),
    ensures
        toks.len() <= s.len(),
{
    if toks.len() > 0 {
        assert forall|k: int| 0 <= k < toks.len() implies k < (#[trigger] toks[k]).end by {
            lemma_lexeme_end_grows(s, toks, k);
        }
        assert(lexeme_ok(s, toks[toks.len() - 1]));
    }
}

proof fn lemma_lexeme_end_grows(s: Seq<char>, toks: Seq<Lexeme>, k: int)
    requires
        lexing(s, toks),
        0 <= k < toks.len(),
    ensures
        k < toks[k].end,
    decreases k,
{
    assert(lexeme_ok(s, toks[k]));
    if k > 0 {
        lemma_lexeme_end_grows(s, toks, k - 1);
        let j = k - 1;
        assert(toks[j + 1].start == run(s, toks[j].end as int, s.len() as int, CharClass::Ws));
        assert(lexeme_ok(s, toks[j]));
        crate::lexer::lemma_run(s, toks[j].end as int, s.len() as int, CharClass::Ws);
    }
}

/// Parsing a whole type id: one type and then the end of the input.
pub open spec fn sp_full(s: Seq<char>, toks: Seq<Lexeme>) -> SOut {
    match sp_type(s, toks, 0) {
        SOut::Parsed(p, e) => match step_at(s, toks, e) {
            Step::End => SOut::Parsed(p, e),
            Step::Panic => SOut::Panic,
            Step::Bad => SOut::Failed(SErr::Bad(e)),
            Step::Tok(_) => SOut::Failed(SErr::Unexpected(e, Expected::EndOfInput)),
        },
        other => other,
    }
}

/// Parsing `id` reads an id token whose text is no valid editor id.
pub open spec fn parse_reads_malformed_id(id: Seq<char>) -> bool {
    sp_full(id, lexemes_of(id)) is Panic
}

fn parse_full(v: &Vec<char>, toks: &Vec<Lexeme>) -> (r: Result<ParsedId, Halt>)
    requires
        lexing(v@, toks@),
        toks@.len() + 8 <= usize::MAX,
    ensures
        match sp_full(v@, toks@) {
            SOut::Parsed(p, _) => r is Ok && r->Ok_0.view() == p,
            SOut::Failed(se) => r matches Err(Halt::Error(x)) && err_is(v@, toks@, se, x),
            SOut::Panic => r matches Err(Halt::MalformedId),
        },
{
    let (p, e) = parse_type(v, toks, 0)?;
    match next_token(v, toks, e) {
        Err(Halt::Error(IdParseError::UnexpectedEnd)) => Ok(p),
        Err(h) => Err(h),
        Ok(_) => {
            proof {
                assert(lexeme_ok(v@, toks@[e as int]));
            }
            Err(Halt::Error(IdParseError::UnexpectedToken(token_text(v, toks[e]), Expected::EndOfInput)))
        },
    }
}

/// Parses a full type id.
pub fn parse_full_id(id: &str) -> (r: Result<ParsedId, IdParseError>)
    requires
        id@.len() + 8 <= usize::MAX,
        !parse_reads_malformed_id(id@),
    ensures
        match sp_full(id@, lexemes_of(id@)) {
            SOut::Parsed(p, _) => r is Ok && r->Ok_0.view() == p,
            SOut::Failed(se) => r is Err && err_is(id@, lexemes_of(id@), se, r->Err_0),
            SOut::Panic => false,
        },
{
    let v = chars_of(id);
    let toks = crate::lexer::lexemes(&v);
    proof {
        lemma_lexing_len(v@, toks@);
    }
    match parse_full(&v, &toks) {
        Ok(p) => Ok(p),
        Err(Halt::Error(e)) => Err(e),
        Err(Halt::MalformedId) => vstd::pervasive::unreached(),
    }
}

/// Whether parsing `id` reads an id token whose text is no valid editor id.
pub fn reads_malformed_id(id: &str) -> (r: bool)
    requires
        id@.len() + 8 <= usize::MAX,
    ensures
        r == parse_reads_malformed_id(id@),
{
    let v = chars_of(id);
    let toks = crate::lexer::lexemes(&v);
    proof {
        lemma_lexing_len(v@, toks@);
    }
    match parse_full(&v, &toks) {
        Err(Halt::MalformedId) => true,
        _ => false,
    }
}

/// The texts of the first `k` lexemes, joined.
pub open spec fn joined(s: Seq<char>, toks: Seq<Lexeme>, k: int) -> Seq<char>
    decreases k,
{
    if k <= 0 {
        Seq::empty()
    } else {
        joined(s, toks, k - 1) + text(s, toks[k - 1])
    }
}

/// Some lexeme of `s` is an id token whose text is no valid editor id.
pub open spec fn has_malformed_id(s: Seq<char>) -> bool {
    exists|k: int| 0 <= k < lexemes_of(s).len() && bad_id(s, #[trigger] lexemes_of(s)[k])
}

/// Normalizes an identifier: the texts of its lexemes, without the whitespace between them.
pub fn normalize_id(id: &str) -> (r: String)
    requires
        !has_malformed_id(id@),
    ensures
        r@ == joined(id@, lexemes_of(id@), lexemes_of(id@).len() as int),
{
    let v = chars_of(id);
    let toks = crate::lexer::lexemes(&v);
    let mut r = String::new();
    let mut k: usize = 0;
    while k < toks.len()
        invariant
            lexing(v@, toks@),
            k <= toks@.len(),
            r@ == joined(v@, toks@, k as int),
        decreases toks.len() - k,
    {
        let lx = toks[k];
        proof {
            assert(lexeme_ok(v@, toks@[k as int]));
        }
        let mut i = lx.start;
        let ghost before = r@;
        while i < lx.end
            invariant
                lx.start <= i <= lx.end <= v@.len(),
                r@ == before + v@.subrange(lx.start as int, i as int),
            decreases lx.end - i,
        {
            string_push(&mut r, v[i]);
            i = i + 1;
            assert(r@ =~= before + v@.subrange(lx.start as int, i as int));
        }
        k = k + 1;
    }
    r
}

/// Whether some lexeme of `id` is an id token whose text is no valid editor id.
pub fn contains_malformed_id(id: &str) -> (r: bool)
    ensures
        r == has_malformed_id(id@),
{
    let v = chars_of(id);
    let toks = crate::lexer::lexemes(&v);
    let mut k: usize = 0;
    while k < toks.len()
        invariant
            lexing(v@, toks@),
            toks@ == lexemes_of(v@),
            v@ == id@,
            k <= toks@.len(),
            forall|j: int| 0 <= j < k ==> !bad_id(v@, #[trigger] toks@[j]),
        decreases toks.len() - k,
    {
        let lx = toks[k];
        proof {
            assert(lexeme_ok(v@, toks@[k as int]));
        }
        if lx.kind == Some(TokenKind::Id) && !id_ok(&v, lx) {
            return true;
        }
        k = k + 1;
    }
    false
}

} // verus!

verus! {

/// `p` begins `s`.
pub open spec fn starts_with_chars(s: Seq<char>, p: Seq<char>) -> bool {
    p.len() <= s.len() && s.subrange(0, p.len() as int) == p
}

/// Whether the text `s` begins with `p`.
fn str_starts_with(s: &str, p: &str) -> (r: bool)
    ensures
        r == starts_with_chars(s@, p@),
{
    let a = chars_of(s);
    let b = chars_of(p);
    if b.len() > a.len() {
        return false;
    }
    let mut i: usize = 0;
    while i < b.len()
        invariant
            a@ == s@,
            b@ == p@,
            b@.len() <= a@.len(),
            i <= b@.len(),
            forall|j: int| 0 <= j < i ==> a@[j] == b@[j],
        decreases b.len() - i,
    {
        if a[i] != b[i] {
            assert(a@.subrange(0, b@.len() as int)[i as int] == a@[i as int]);
            return false;
        }
        i = i + 1;
    }
    assert(a@.subrange(0, b@.len() as int) =~= b@);
    true
}

/// Whether `ty` is an optional type: an object type whose id begins with
/// the prefix that the registry gives the ids of optional types
/// (`optional_prefix`).
pub fn is_type_option(ty: &EDataType, optional_prefix: &str) -> (r: bool)
    ensures
        r == (ty matches EDataType::Object { ident } && starts_with_chars(ident.0@, optional_prefix@)),
{
    match ty {
        EDataType::Object { ident } => str_starts_with(ident.0.as_str(), optional_prefix),
        _ => false,
    }
}

} // verus!

verus! {

/// A constant boolean type id names the boolean it spells: an id made of a
/// single `true` or `false` word parses, whole, to that constant, which is
/// `true` for the word `true` and `false` for the word `false`.
pub proof fn law_bool_constant_spells_its_value(id: Seq<char>)
    requires
        lexemes_of(id).len() == 1,
        lexemes_of(id)[0].kind == Some(TokenKind::ConstBool),
    ensures
        sp_full(id, lexemes_of(id)) matches SOut::Parsed(SParsed::Simple(SData::ConstBool(b)), e) && e == 1
            && (text(id, lexemes_of(id)[0]) == seq!['t', 'r', 'u', 'e'] ==> b)
            && (text(id, lexemes_of(id)[0]) == seq!['f', 'a', 'l', 's', 'e'] ==> !b),
{
    let toks = lexemes_of(id);
    assert(!bad_id(id, toks[0]));
    assert(step_at(id, toks, 0) == Step::Tok(TokenKind::ConstBool));
    assert(step_at(id, toks, 1) == Step::End);
    assert(seq!['t', 'r', 'u', 'e'] != seq!['f', 'a', 'l', 's', 'e']) by {
        assert(seq!['t', 'r', 'u', 'e'].len() != seq!['f', 'a', 'l', 's', 'e'].len());
    }
}

} // verus!
