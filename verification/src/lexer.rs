//! The tokenizer of the type-id grammar.
//!
//! At every position the lexer skips whitespace and then takes the longest
//! prefix of the rest that is a token; between tokens of equal length the
//! keywords win over plain identifiers. Where no prefix is a token the lexer
//! yields an error lexeme: the rest of the input for an unterminated `'...`
//! string, one character otherwise.
use vstd::prelude::*;

verus! {

/// The kinds of tokens of the type-id grammar.
#[derive(Debug, Clone, Copy, PartialEq, Eq, Structural)]
pub enum TokenKind {
    /// `namespace:path`
    Id,
    /// `number`
    Number,
    /// `string`
    String,
    /// `boolean`
    Boolean,
    /// `unknown`
    Unknown,
    /// `null`
    Null,
    /// `List`
    List,
    /// `Map`
    MapWord,
    /// `Item`
    Item,
    /// `Key`
    Key,
    /// Any other identifier `[a-zA-Z_][a-zA-Z0-9_]*`
    OtherAlphanumeric,
    /// A number literal `[-+]?(0|[1-9][0-9]*)(\.[0-9]*)?([eE][-+]?[0-9]+)?`
    ConstNumber,
    /// A string literal `'...'` where a quote inside is written twice
    ConstString,
    /// `true` or `false`
    ConstBool,
    /// `<`
    OpenAngle,
    /// `>`
    CloseAngle,
    /// `=`
    Equals,
    /// `,`
    Comma,
}

/// One lexeme: the characters `start..end` of the input, with their kind, or
/// `None` where they form no token.
#[derive(Debug, Clone, Copy, PartialEq, Eq, Structural)]
pub struct Lexeme {
    pub kind: Option<TokenKind>,
    pub start: usize,
    pub end: usize,
}

pub open spec fn is_ws(c: char) -> bool {
    c == ' ' || c == '\t' || c == '\r' || c == '\n' || c == '\x0c'
}

pub open spec fn is_alpha_(c: char) -> bool {
    ('a' <= c && c <= 'z') || ('A' <= c && c <= 'Z') || c == '_'
}

pub open spec fn is_digit(c: char) -> bool {
    '0' <= c && c <= '9'
}

pub open spec fn is_alnum_(c: char) -> bool {
    is_alpha_(c) || is_digit(c)
}

pub open spec fn is_id_path(c: char) -> bool {
    is_alnum_(c) || c == '/'
}

pub open spec fn is_sign(c: char) -> bool {
    c == '-' || c == '+'
}

/// Character classes that the lexer scans runs of.
#[derive(Debug, Clone, Copy, PartialEq, Eq, Structural)]
pub enum CharClass {
    Ws,
    Alnum,
    IdPath,
    Digit,
}

pub open spec fn class_p(cls: CharClass) -> spec_fn(char) -> bool {
    match cls {
        CharClass::Ws => |c: char| is_ws(c),
        CharClass::Alnum => |c: char| is_alnum_(c),
        CharClass::IdPath => |c: char| is_id_path(c),
        CharClass::Digit => |c: char| is_digit(c),
    }
}

/// End of the longest run of characters in class `cls` from `i`, stopping at `hi`.
pub open spec fn run(s: Seq<char>, i: int, hi: int, cls: CharClass) -> int
    decreases hi - i,
{
    if i < hi && class_p(cls)(s[i]) {
        run(s, i + 1, hi, cls)
    } else {
        i
    }
}

/// `s[lo..hi]` is `namespace:path`.
pub open spec fn pat_id(s: Seq<char>, lo: int, hi: int) -> bool {
    let a = run(s, lo, hi, CharClass::Alnum);
    lo < a && a + 1 < hi && s[a] == ':' && run(s, a + 1, hi, CharClass::IdPath) == hi
}

/// `s[lo..hi]` is an identifier.
pub open spec fn pat_ident(s: Seq<char>, lo: int, hi: int) -> bool {
    lo < hi && is_alpha_(s[lo]) && run(s, lo + 1, hi, CharClass::Alnum) == hi
}

pub open spec fn exp_tail(s: Seq<char>, i2: int, hi: int) -> bool {
    i2 == hi || (i2 < hi && (s[i2] == 'e' || s[i2] == 'E') && {
        let q = if i2 + 1 < hi && is_sign(s[i2 + 1]) { i2 + 2 } else { i2 + 1 };
        q < hi && run(s, q, hi, CharClass::Digit) == hi
    })
}

pub open spec fn number_tail(s: Seq<char>, i1: int, hi: int) -> bool {
    if i1 < hi && s[i1] == '.' {
        exp_tail(s, run(s, i1 + 1, hi, CharClass::Digit), hi)
    } else {
        exp_tail(s, i1, hi)
    }
}

/// `s[lo..hi]` is a number literal.
pub open spec fn pat_number(s: Seq<char>, lo: int, hi: int) -> bool {
    let p = if lo < hi && is_sign(s[lo]) { lo + 1 } else { lo };
    p < hi && is_digit(s[p]) && {
        let i1 = if s[p] == '0' { p + 1 } else { run(s, p + 1, hi, CharClass::Digit) };
        number_tail(s, i1, hi)
    }
}

/// `s[i..e]` is made of single non-quote characters and doubled quotes.
pub open spec fn paired(s: Seq<char>, i: int, e: int) -> bool
    decreases e - i,
{
    if i >= e {
        i == e
    } else if s[i] != '\'' {
        paired(s, i + 1, e)
    } else {
        i + 1 < e && s[i + 1] == '\'' && paired(s, i + 2, e)
    }
}

/// `s[lo..hi]` is a string literal.
pub open spec fn pat_string(s: Seq<char>, lo: int, hi: int) -> bool {
    lo + 2 <= hi && s[lo] == '\'' && s[hi - 1] == '\'' && paired(s, lo + 1, hi - 1)
}

pub open spec fn word(s: Seq<char>, lo: int, hi: int, w: Seq<char>) -> bool {
    0 <= lo <= hi <= s.len() && s.subrange(lo, hi) == w
}

/// The keyword that `s[lo..hi]` spells, if any (`true`/`false` included).
pub open spec fn keyword_at(s: Seq<char>, lo: int, hi: int) -> Option<TokenKind> {
    if word(s, lo, hi, seq!['n', 'u', 'm', 'b', 'e', 'r']) {
        Some(TokenKind::Number)
    } else if word(s, lo, hi, seq!['s', 't', 'r', 'i', 'n', 'g']) {
        Some(TokenKind::String)
    } else if word(s, lo, hi, seq!['b', 'o', 'o', 'l', 'e', 'a', 'n']) {
        Some(TokenKind::Boolean)
    } else if word(s, lo, hi, seq!['u', 'n', 'k', 'n', 'o', 'w', 'n']) {
        Some(TokenKind::Unknown)
    } else if word(s, lo, hi, seq!['n', 'u', 'l', 'l']) {
        Some(TokenKind::Null)
    } else if word(s, lo, hi, seq!['L', 'i', 's', 't']) {
        Some(TokenKind::List)
    } else if word(s, lo, hi, seq!['M', 'a', 'p']) {
        Some(TokenKind::MapWord)
    } else if word(s, lo, hi, seq!['I', 't', 'e', 'm']) {
        Some(TokenKind::Item)
    } else if word(s, lo, hi, seq!['K', 'e', 'y']) {
        Some(TokenKind::Key)
    } else if word(s, lo, hi, seq!['t', 'r', 'u', 'e']) || word(s, lo, hi, seq!['f', 'a', 'l', 's', 'e']) {
        Some(TokenKind::ConstBool)
    } else {
        None
    }
}

/// The token that `s[lo..hi]` is, if it is one.
pub open spec fn classify_at(s: Seq<char>, lo: int, hi: int) -> Option<TokenKind> {
    if pat_id(s, lo, hi) {
        Some(TokenKind::Id)
    } else if pat_ident(s, lo, hi) {
        match keyword_at(s, lo, hi) {
            Some(k) => Some(k),
            None => Some(TokenKind::OtherAlphanumeric),
        }
    } else if pat_number(s, lo, hi) {
        Some(TokenKind::ConstNumber)
    } else if pat_string(s, lo, hi) {
        Some(TokenKind::ConstString)
    } else if hi == lo + 1 && s[lo] == '<' {
        Some(TokenKind::OpenAngle)
    } else if hi == lo + 1 && s[lo] == '>' {
        Some(TokenKind::CloseAngle)
    } else if hi == lo + 1 && s[lo] == '=' {
        Some(TokenKind::Equals)
    } else if hi == lo + 1 && s[lo] == ',' {
        Some(TokenKind::Comma)
    } else {
        None
    }
}

/// Where an error lexeme starting at `i` ends.
pub open spec fn error_end(s: Seq<char>, i: int) -> int {
    if s[i] == '\'' {
        s.len() as int
    } else {
        i + 1
    }
}

/// `lx` is the lexeme that starts at `lx.start`: the longest token there, or an error.
pub open spec fn lexeme_ok(s: Seq<char>, lx: Lexeme) -> bool {
    &&& lx.start < lx.end <= s.len()
    &&& !is_ws(s[lx.start as int])
    &&& match lx.kind {
        Some(k) => classify_at(s, lx.start as int, lx.end as int) == Some(k),
        None => lx.end == error_end(s, lx.start as int)
            && forall|e: int| lx.start < e <= s.len() ==> (#[trigger] classify_at(s, lx.start as int, e)) is None,
    }
    &&& forall|e: int| lx.end < e <= s.len() ==> (#[trigger] classify_at(s, lx.start as int, e)) is None
}

/// `toks` is the lexing of `s`: whitespace between lexemes is skipped, and each
/// lexeme is the longest token at its start, or an error.
pub open spec fn lexing(s: Seq<char>, toks: Seq<Lexeme>) -> bool {
    &&& forall|k: int| 0 <= k < toks.len() ==> lexeme_ok(s, #[trigger] toks[k])
    &&& if toks.len() == 0 {
        run(s, 0, s.len() as int, CharClass::Ws) == s.len()
    } else {
        &&& toks[0].start == run(s, 0, s.len() as int, CharClass::Ws)
        &&& forall|k: int| 0 <= k < toks.len() - 1 ==>
            (#[trigger] toks[k + 1]).start == run(s, toks[k].end as int, s.len() as int, CharClass::Ws)
        &&& run(s, toks[toks.len() - 1].end as int, s.len() as int, CharClass::Ws) == s.len()
    }
}

// ---------------------------------------------------------------------------
// Facts about runs

pub proof fn lemma_run(s: Seq<char>, i: int, hi: int, cls: CharClass)
    requires
        0 <= i <= hi <= s.len(),
    ensures
        i <= run(s, i, hi, cls) <= hi,
        forall|j: int| i <= j < run(s, i, hi, cls) ==> class_p(cls)(#[trigger] s[j]),
        run(s, i, hi, cls) < hi ==> !class_p(cls)(s[run(s, i, hi, cls)]),
    decreases hi - i,
{
    if i < hi && class_p(cls)(s[i]) {
        lemma_run(s, i + 1, hi, cls);
    }
}

/// A run stopped early by a smaller bound.
pub proof fn lemma_run_bound(s: Seq<char>, i: int, hi: int, hi2: int, cls: CharClass)
    requires
        0 <= i <= hi2 <= hi <= s.len(),
    ensures
        run(s, i, hi2, cls) == if run(s, i, hi, cls) < hi2 { run(s, i, hi, cls) } else { hi2 },
    decreases hi2 - i,
{
    if i < hi2 && class_p(cls)(s[i]) {
        lemma_run_bound(s, i + 1, hi, hi2, cls);
    } else {
        lemma_run(s, i, hi, cls);
    }
}

/// A run that reaches `j` continues as the run from `j`.
pub proof fn lemma_run_split(s: Seq<char>, i: int, j: int, hi: int, cls: CharClass)
    requires
        0 <= i <= j <= hi <= s.len(),
        forall|k: int| i <= k < j ==> class_p(cls)(#[trigger] s[k]),
    ensures
        run(s, i, hi, cls) == run(s, j, hi, cls),
    decreases j - i,
{
    if i < j {
        lemma_run_split(s, i + 1, j, hi, cls);
    }
}

// ---------------------------------------------------------------------------
// Facts about quoted strings

/// Paired content can be cut at any position that its parse passes.
pub proof fn lemma_paired_extend(s: Seq<char>, i: int, j: int, e: int)
    requires
        0 <= i <= j <= e <= s.len(),
        paired(s, i, j),
    ensures
        paired(s, i, e) == paired(s, j, e),
    decreases j - i,
{
    if i < j {
        if s[i] != '\'' {
            lemma_paired_extend(s, i + 1, j, e);
        } else {
            lemma_paired_extend(s, i + 2, j, e);
        }
    }
}

/// Paired content ending in a doubled quote.
pub proof fn lemma_paired_pair(s: Seq<char>, i: int, j: int)
    requires
        0 <= i <= j,
        j + 2 <= s.len(),
        paired(s, i, j),
        s[j] == '\'',
        s[j + 1] == '\'',
    ensures
        paired(s, i, j + 2),
{
    lemma_paired_extend(s, i, j, j + 2);
    assert(paired(s, j + 2, j + 2));
}

/// Paired content followed by one ordinary character.
pub proof fn lemma_paired_char(s: Seq<char>, i: int, j: int)
    requires
        0 <= i <= j,
        j + 1 <= s.len(),
        paired(s, i, j),
        s[j] != '\'',
    ensures
        paired(s, i, j + 1),
{
    lemma_paired_extend(s, i, j, j + 1);
    assert(paired(s, j + 1, j + 1));
}

/// After paired content, a quote cannot end the content.
pub proof fn lemma_paired_quote_end(s: Seq<char>, i: int, j: int, e: int)
    requires
        0 <= i <= j < e <= s.len(),
        paired(s, i, j),
        s[j] == '\'',
        e == j + 1 || s[j + 1] != '\'',
    ensures
        !paired(s, i, e),
{
    lemma_paired_extend(s, i, j, e);
}

// ---------------------------------------------------------------------------
// What the first character of a token can be

pub proof fn lemma_first_char(s: Seq<char>, lo: int, hi: int)
    requires
        0 <= lo < hi <= s.len(),
    ensures
        pat_id(s, lo, hi) ==> is_alnum_(s[lo]),
        pat_ident(s, lo, hi) ==> is_alpha_(s[lo]),
        pat_number(s, lo, hi) ==> is_sign(s[lo]) || is_digit(s[lo]),
        pat_string(s, lo, hi) ==> s[lo] == '\'',
{
    if pat_id(s, lo, hi) {
        lemma_run(s, lo, hi, CharClass::Alnum);
        assert(class_p(CharClass::Alnum)(s[lo]));
    }
}

/// A character that starts no token.
pub open spec fn starts_nothing(c: char) -> bool {
    !is_alnum_(c) && !is_sign(c) && c != '\'' && c != '<' && c != '>' && c != '=' && c != ','
}

} // verus!

verus! {

pub open spec fn is_num_char(c: char) -> bool {
    is_digit(c) || is_sign(c) || c == '.' || c == 'e' || c == 'E'
}

/// Number literals are made of digits, signs, `.`, `e` and `E`.
pub proof fn lemma_number_chars(s: Seq<char>, lo: int, hi: int)
    requires
        0 <= lo < hi <= s.len(),
        pat_number(s, lo, hi),
    ensures
        forall|k: int| lo <= k < hi ==> is_num_char(#[trigger] s[k]),
{
    let p = if lo < hi && is_sign(s[lo]) { lo + 1 } else { lo };
    lemma_run(s, p + 1, hi, CharClass::Digit);
    let i1 = if s[p] == '0' { p + 1 } else { run(s, p + 1, hi, CharClass::Digit) };
    let i2 = if i1 < hi && s[i1] == '.' { run(s, i1 + 1, hi, CharClass::Digit) } else { i1 };
    if i1 < hi && s[i1] == '.' {
        lemma_run(s, i1 + 1, hi, CharClass::Digit);
    }
    if i2 < hi {
        let q = if i2 + 1 < hi && is_sign(s[i2 + 1]) { i2 + 2 } else { i2 + 1 };
        lemma_run(s, q, hi, CharClass::Digit);
    }
    assert forall|k: int| lo <= k < hi implies is_num_char(#[trigger] s[k]) by {
        if k < p {
        } else if k == p {
        } else if k < i1 {
            assert(class_p(CharClass::Digit)(s[k]));
        } else if k == i1 {
        } else if k < i2 {
            assert(class_p(CharClass::Digit)(s[k]));
        } else if k == i2 {
        } else {
            let q = if i2 + 1 < hi && is_sign(s[i2 + 1]) { i2 + 2 } else { i2 + 1 };
            if k >= q {
                assert(class_p(CharClass::Digit)(s[k]));
            }
        }
    }
}

fn in_class(cls: CharClass, c: char) -> (r: bool)
    ensures
        r == class_p(cls)(c),
{
    match cls {
        CharClass::Ws => c == ' ' || c == '\t' || c == '\r' || c == '\n' || c == '\x0c',
        CharClass::Alnum => ('a' <= c && c <= 'z') || ('A' <= c && c <= 'Z') || c == '_' || ('0'
            <= c && c <= '9'),
        CharClass::IdPath => ('a' <= c && c <= 'z') || ('A' <= c && c <= 'Z') || c == '_' || ('0'
            <= c && c <= '9') || c == '/',
        CharClass::Digit => '0' <= c && c <= '9',
    }
}

/// End of the run of `cls` characters from `i`.
fn scan(v: &Vec<char>, i: usize, cls: CharClass) -> (j: usize)
    requires
        i <= v@.len(),
    ensures
        j == run(v@, i as int, v@.len() as int, cls),
{
    let n = v.len();
    let mut j = i;
    while j < n && in_class(cls, v[j])
        invariant
            i <= j <= n == v@.len(),
            run(v@, i as int, n as int, cls) == run(v@, j as int, n as int, cls),
        decreases n - j,
    {
        j = j + 1;
    }
    j
}

pub(crate) fn is_word(v: &Vec<char>, lo: usize, hi: usize, w: &[char]) -> (r: bool)
    requires
        lo <= hi <= v@.len(),
    ensures
        r == word(v@, lo as int, hi as int, w@),
{
    if hi - lo != w.len() {
        return false;
    }
    let mut k: usize = 0;
    while k < w.len()
        invariant
            hi - lo == w@.len(),
            lo <= hi <= v@.len(),
            k <= w@.len(),
            forall|m: int| 0 <= m < k ==> v@[lo + m] == w@[m],
        decreases w.len() - k,
    {
        if v[lo + k] != w[k] {
            assert(v@.subrange(lo as int, hi as int)[k as int] != w@[k as int]);
            return false;
        }
        k = k + 1;
    }
    assert(v@.subrange(lo as int, hi as int) =~= w@);
    true
}

fn keyword_kind(v: &Vec<char>, lo: usize, hi: usize) -> (r: Option<TokenKind>)
    requires
        lo <= hi <= v@.len(),
    ensures
        r == keyword_at(v@, lo as int, hi as int),
{
    let w_number = ['n', 'u', 'm', 'b', 'e', 'r'];
    let w_string = ['s', 't', 'r', 'i', 'n', 'g'];
    let w_boolean = ['b', 'o', 'o', 'l', 'e', 'a', 'n'];
    let w_unknown = ['u', 'n', 'k', 'n', 'o', 'w', 'n'];
    let w_null = ['n', 'u', 'l', 'l'];
    let w_list = ['L', 'i', 's', 't'];
    let w_map = ['M', 'a', 'p'];
    let w_item = ['I', 't', 'e', 'm'];
    let w_key = ['K', 'e', 'y'];
    let w_true = ['t', 'r', 'u', 'e'];
    let w_false = ['f', 'a', 'l', 's', 'e'];
    assert(w_number@ =~= seq!['n', 'u', 'm', 'b', 'e', 'r']);
    assert(w_string@ =~= seq!['s', 't', 'r', 'i', 'n', 'g']);
    assert(w_boolean@ =~= seq!['b', 'o', 'o', 'l', 'e', 'a', 'n']);
    assert(w_unknown@ =~= seq!['u', 'n', 'k', 'n', 'o', 'w', 'n']);
    assert(w_null@ =~= seq!['n', 'u', 'l', 'l']);
    assert(w_list@ =~= seq!['L', 'i', 's', 't']);
    assert(w_map@ =~= seq!['M', 'a', 'p']);
    assert(w_item@ =~= seq!['I', 't', 'e', 'm']);
    assert(w_key@ =~= seq!['K', 'e', 'y']);
    assert(w_true@ =~= seq!['t', 'r', 'u', 'e']);
    assert(w_false@ =~= seq!['f', 'a', 'l', 's', 'e']);
    if is_word(v, lo, hi, w_number.as_slice()) {
        Some(TokenKind::Number)
    } else if is_word(v, lo, hi, w_string.as_slice()) {
        Some(TokenKind::String)
    } else if is_word(v, lo, hi, w_boolean.as_slice()) {
        Some(TokenKind::Boolean)
    } else if is_word(v, lo, hi, w_unknown.as_slice()) {
        Some(TokenKind::Unknown)
    } else if is_word(v, lo, hi, w_null.as_slice()) {
        Some(TokenKind::Null)
    } else if is_word(v, lo, hi, w_list.as_slice()) {
        Some(TokenKind::List)
    } else if is_word(v, lo, hi, w_map.as_slice()) {
        Some(TokenKind::MapWord)
    } else if is_word(v, lo, hi, w_item.as_slice()) {
        Some(TokenKind::Item)
    } else if is_word(v, lo, hi, w_key.as_slice()) {
        Some(TokenKind::Key)
    } else if is_word(v, lo, hi, w_true.as_slice()) || is_word(v, lo, hi, w_false.as_slice()) {
        Some(TokenKind::ConstBool)
    } else {
        None
    }
}

} // verus!

verus! {

/// What scanning a number literal from `i` computes.
pub open spec fn number_scan(s: Seq<char>, i: int, p: int, i1: int, i2: int, q: int, e: int) -> bool {
    let n = s.len() as int;
    &&& 0 <= i < n
    &&& p == if is_sign(s[i]) { i + 1 } else { i }
    &&& p < n
    &&& is_digit(s[p])
    &&& i1 == if s[p] == '0' { p + 1 } else { run(s, p + 1, n, CharClass::Digit) }
    &&& i2 == if i1 < n && s[i1] == '.' { run(s, i1 + 1, n, CharClass::Digit) } else { i1 }
    &&& q == if i2 < n && (s[i2] == 'e' || s[i2] == 'E') {
        if i2 + 1 < n && is_sign(s[i2 + 1]) { i2 + 2 } else { i2 + 1 }
    } else {
        i2
    }
    &&& e == if i2 < n && (s[i2] == 'e' || s[i2] == 'E') && q < n && is_digit(s[q]) {
        run(s, q, n, CharClass::Digit)
    } else {
        i2
    }
}

proof fn lemma_number_scan_bounds(s: Seq<char>, i: int, p: int, i1: int, i2: int, q: int, e: int)
    requires
        number_scan(s, i, p, i1, i2, q, e),
    ensures
        p < i1 <= i2 <= e <= s.len(),
        i2 <= q,
{
    let n = s.len() as int;
    lemma_run(s, p + 1, n, CharClass::Digit);
    if i1 < n && s[i1] == '.' {
        lemma_run(s, i1 + 1, n, CharClass::Digit);
    }
    if i2 < n && (s[i2] == 'e' || s[i2] == 'E') && q < n && is_digit(s[q]) {
        lemma_run(s, q, n, CharClass::Digit);
    }
}

proof fn lemma_number_scan_found(s: Seq<char>, i: int, p: int, i1: int, i2: int, q: int, e: int)
    requires
        number_scan(s, i, p, i1, i2, q, e),
    ensures
        pat_number(s, i, e),
{
    let n = s.len() as int;
    lemma_number_scan_bounds(s, i, p, i1, i2, q, e);
    if s[p] != '0' {
        lemma_run_bound(s, p + 1, n, e, CharClass::Digit);
    }
    if i1 < n && s[i1] == '.' {
        lemma_run(s, i1 + 1, n, CharClass::Digit);
        lemma_run_bound(s, i1 + 1, n, e, CharClass::Digit);
    }
    if i2 < n && (s[i2] == 'e' || s[i2] == 'E') && q < n && is_digit(s[q]) {
        lemma_run(s, q, n, CharClass::Digit);
        lemma_run_bound(s, q, n, e, CharClass::Digit);
    }
}

proof fn lemma_number_scan_longest(
    s: Seq<char>,
    i: int,
    p: int,
    i1: int,
    i2: int,
    q: int,
    e: int,
    e2: int,
)
    requires
        number_scan(s, i, p, i1, i2, q, e),
        e < e2 <= s.len(),
    ensures
        !pat_number(s, i, e2),
{
    let n = s.len() as int;
    lemma_number_scan_bounds(s, i, p, i1, i2, q, e);
    if s[p] != '0' {
        lemma_run_bound(s, p + 1, n, e2, CharClass::Digit);
    }
    if i1 < n && s[i1] == '.' {
        lemma_run(s, i1 + 1, n, CharClass::Digit);
        lemma_run_bound(s, i1 + 1, n, e2, CharClass::Digit);
    }
    if i2 < e2 && (s[i2] == 'e' || s[i2] == 'E') {
        let qq = if i2 + 1 < e2 && is_sign(s[i2 + 1]) { i2 + 2 } else { i2 + 1 };
        if qq < e2 {
            assert(qq == q);
            lemma_run_bound(s, q, n, e2, CharClass::Digit);
            lemma_run(s, q, n, CharClass::Digit);
        }
    }
}

/// The longest number literal starting at `i`, whose digits start at `p`.
fn scan_number(v: &Vec<char>, i: usize, p: usize) -> (e: usize)
    requires
        i < v@.len(),
        p == if is_sign(v@[i as int]) { i + 1 } else { i as int },
        p < v@.len(),
        is_digit(v@[p as int]),
    ensures
        p < e <= v@.len(),
        pat_number(v@, i as int, e as int),
        forall|e2: int| e < e2 <= v@.len() ==> !pat_number(v@, i as int, e2),
{
    let ghost s = v@;
    let n = v.len();
    proof {
        lemma_run(s, p + 1, n as int, CharClass::Digit);
    }
    let i1 = if v[p] == '0' { p + 1 } else { scan(v, p + 1, CharClass::Digit) };
    let frac = i1 < n && v[i1] == '.';
    let i2 = if frac { scan(v, i1 + 1, CharClass::Digit) } else { i1 };
    proof {
        if frac {
            lemma_run(s, i1 + 1, n as int, CharClass::Digit);
        }
    }
    let mut e = i2;
    let mut q = i2;
    if i2 < n && (v[i2] == 'e' || v[i2] == 'E') {
        q = i2 + 1;
        if q < n && (v[q] == '-' || v[q] == '+') {
            q = q + 1;
        }
        if q < n && '0' <= v[q] && v[q] <= '9' {
            e = scan(v, q, CharClass::Digit);
        }
    }
    proof {
        assert(number_scan(s, i as int, p as int, i1 as int, i2 as int, q as int, e as int));
        lemma_number_scan_bounds(s, i as int, p as int, i1 as int, i2 as int, q as int, e as int);
        lemma_number_scan_found(s, i as int, p as int, i1 as int, i2 as int, q as int, e as int);
        assert forall|e2: int| e < e2 <= n implies !pat_number(s, i as int, e2) by {
            lemma_number_scan_longest(
                s,
                i as int,
                p as int,
                i1 as int,
                i2 as int,
                q as int,
                e as int,
                e2,
            );
        }
    }
    e
}

/// The longest string literal starting at the quote at `i`, if any.
fn scan_string(v: &Vec<char>, i: usize) -> (r: Option<usize>)
    requires
        i < v@.len(),
        v@[i as int] == '\'',
    ensures
        match r {
            Some(e) => i + 2 <= e <= v@.len() && pat_string(v@, i as int, e as int)
                && forall|e2: int| e < e2 <= v@.len() ==> !pat_string(v@, i as int, e2),
            None => forall|e2: int| i < e2 <= v@.len() ==> !pat_string(v@, i as int, e2),
        },
{
    let ghost s = v@;
    let n = v.len();
    let mut j = i + 1;
    let mut last: Option<usize> = None;
    let mut done = false;
    assert(paired(s, i + 1, i + 1));
    while j < n && !done
        invariant
            n == s.len(),
            s == v@,
            s[i as int] == '\'',
            i + 1 <= j <= n,
            paired(s, i + 1, j as int),
            match last {
                Some(l) => i + 2 <= l <= n && pat_string(s, i as int, l as int),
                None => true,
            },
            forall|e2: int| (match last { Some(l) => l as int, None => i as int }) < e2 <= j
                ==> !pat_string(s, i as int, e2),
            done ==> (last == Some((j + 1) as usize) && j < n && s[j as int] == '\''
                && (j + 1 == n || s[j + 1] != '\'')),
        decreases (n - j) * 2 + if done { 0int } else { 1int },
    {
        if v[j] != '\'' {
            proof {
                lemma_paired_char(s, i + 1, j as int);
            }
            j = j + 1;
        } else {
            last = Some(j + 1);
            if j + 1 < n && v[j + 1] == '\'' {
                proof {
                    lemma_paired_quote_end(s, i + 1, j as int, j + 1);
                    lemma_paired_pair(s, i + 1, j as int);
                }
                j = j + 2;
            } else {
                done = true;
            }
        }
    }
    proof {
        if done {
            assert forall|e2: int| j + 1 < e2 <= n implies !pat_string(s, i as int, e2) by {
                lemma_paired_quote_end(s, i + 1, j as int, e2 - 1);
            }
        }
    }
    last
}

} // verus!

verus! {

/// `s` has an id token from `i`: the alphanumeric run from `i` is followed by `:` and a path character.
pub open spec fn has_id_at(s: Seq<char>, i: int) -> bool {
    let a = run(s, i, s.len() as int, CharClass::Alnum);
    a < s.len() && s[a] == ':' && a + 1 < s.len() && is_id_path(s[a + 1])
}

proof fn lemma_not_id(s: Seq<char>, i: int, e2: int)
    requires
        0 <= i < e2 <= s.len(),
        !has_id_at(s, i),
    ensures
        !pat_id(s, i, e2),
{
    let n = s.len() as int;
    let a = run(s, i, n, CharClass::Alnum);
    lemma_run(s, i, n, CharClass::Alnum);
    lemma_run_bound(s, i, n, e2, CharClass::Alnum);
    if pat_id(s, i, e2) {
        lemma_run(s, a + 1, e2, CharClass::IdPath);
        assert(class_p(CharClass::IdPath)(s[a + 1]));
    }
}

proof fn lemma_alnum_run_tail(s: Seq<char>, i: int, e2: int)
    requires
        0 <= i < e2 <= s.len(),
        is_alnum_(s[i]),
        run(s, i, s.len() as int, CharClass::Alnum) < e2,
    ensures
        !pat_ident(s, i, e2),
{
    let n = s.len() as int;
    assert(run(s, i, n, CharClass::Alnum) == run(s, i + 1, n, CharClass::Alnum));
    lemma_run_bound(s, i + 1, n, e2, CharClass::Alnum);
}

proof fn lemma_id_token(s: Seq<char>, i: int, b: int)
    requires
        0 <= i < s.len(),
        is_alnum_(s[i]),
        has_id_at(s, i),
        b == run(s, run(s, i, s.len() as int, CharClass::Alnum) + 1, s.len() as int, CharClass::IdPath),
    ensures
        classify_at(s, i, b) == Some(TokenKind::Id),
        forall|e2: int| b < e2 <= s.len() ==> (#[trigger] classify_at(s, i, e2)) is None,
{
    let n = s.len() as int;
    let a = run(s, i, n, CharClass::Alnum);
    lemma_run(s, i, n, CharClass::Alnum);
    lemma_run(s, a + 1, n, CharClass::IdPath);
    lemma_run_bound(s, i, n, b, CharClass::Alnum);
    lemma_run_bound(s, a + 1, n, b, CharClass::IdPath);
    assert(pat_id(s, i, b));
    assert forall|e2: int| b < e2 <= n implies (#[trigger] classify_at(s, i, e2)) is None by {
        lemma_run_bound(s, i, n, e2, CharClass::Alnum);
        lemma_run_bound(s, a + 1, n, e2, CharClass::IdPath);
        lemma_first_char(s, i, e2);
        if is_alnum_(s[i]) && is_alpha_(s[i]) {
            lemma_alnum_run_tail(s, i, e2);
        }
        if pat_number(s, i, e2) {
            lemma_number_chars(s, i, e2);
            assert(is_num_char(s[a]));
        }
    }
}

proof fn lemma_word_token(s: Seq<char>, i: int, a: int)
    requires
        0 <= i < s.len(),
        !has_id_at(s, i),
        is_alpha_(s[i]),
        a == run(s, i, s.len() as int, CharClass::Alnum),
    ensures
        i < a,
        !pat_id(s, i, a),
        pat_ident(s, i, a),
        forall|e2: int| a < e2 <= s.len() ==> (#[trigger] classify_at(s, i, e2)) is None,
{
    let n = s.len() as int;
    lemma_run(s, i, n, CharClass::Alnum);
    assert(run(s, i, n, CharClass::Alnum) == run(s, i + 1, n, CharClass::Alnum));
    lemma_run_bound(s, i + 1, n, a, CharClass::Alnum);
    lemma_run_bound(s, i, n, a, CharClass::Alnum);
    assert forall|e2: int| a < e2 <= n implies (#[trigger] classify_at(s, i, e2)) is None by {
        lemma_not_id(s, i, e2);
        lemma_alnum_run_tail(s, i, e2);
        lemma_first_char(s, i, e2);
    }
}

proof fn lemma_number_token(s: Seq<char>, i: int, e: int)
    requires
        0 <= i < e <= s.len(),
        !has_id_at(s, i) || is_sign(s[i]),
        !is_alpha_(s[i]),
        pat_number(s, i, e),
        forall|e2: int| e < e2 <= s.len() ==> !pat_number(s, i, e2),
    ensures
        classify_at(s, i, e) == Some(TokenKind::ConstNumber),
        forall|e2: int| e < e2 <= s.len() ==> (#[trigger] classify_at(s, i, e2)) is None,
{
    let n = s.len() as int;
    lemma_first_char(s, i, e);
    if is_sign(s[i]) {
    } else {
        lemma_not_id(s, i, e);
    }
    assert forall|e2: int| e < e2 <= n implies (#[trigger] classify_at(s, i, e2)) is None by {
        lemma_first_char(s, i, e2);
        if !is_sign(s[i]) {
            lemma_not_id(s, i, e2);
        }
    }
}

/// The lexeme that starts at `i`.
fn next_lexeme(v: &Vec<char>, i: usize) -> (lx: Lexeme)
    requires
        i < v@.len(),
        !is_ws(v@[i as int]),
    ensures
        lx.start == i,
        lexeme_ok(v@, lx),
{
    let ghost s = v@;
    let n = v.len();
    let c = v[i];
    if in_class(CharClass::Alnum, c) {
        let a = scan(v, i, CharClass::Alnum);
        proof {
            lemma_run(s, i as int, n as int, CharClass::Alnum);
        }
        if a < n && v[a] == ':' && a + 1 < n && in_class(CharClass::IdPath, v[a + 1]) {
            let b = scan(v, a + 1, CharClass::IdPath);
            proof {
                lemma_run(s, a + 1, n as int, CharClass::IdPath);
                lemma_id_token(s, i as int, b as int);
            }
            return Lexeme { kind: Some(TokenKind::Id), start: i, end: b };
        }
        if ('a' <= c && c <= 'z') || ('A' <= c && c <= 'Z') || c == '_' {
            proof {
                lemma_word_token(s, i as int, a as int);
            }
            let kind = match keyword_kind(v, i, a) {
                Some(k) => k,
                None => TokenKind::OtherAlphanumeric,
            };
            return Lexeme { kind: Some(kind), start: i, end: a };
        }
        let e = scan_number(v, i, i);
        proof {
            lemma_number_token(s, i as int, e as int);
        }
        return Lexeme { kind: Some(TokenKind::ConstNumber), start: i, end: e };
    }
    if c == '-' || c == '+' {
        if i + 1 < n && '0' <= v[i + 1] && v[i + 1] <= '9' {
            let e = scan_number(v, i, i + 1);
            proof {
                lemma_number_token(s, i as int, e as int);
            }
            return Lexeme { kind: Some(TokenKind::ConstNumber), start: i, end: e };
        }
        proof {
            assert forall|e2: int| i < e2 <= n implies (#[trigger] classify_at(s, i as int, e2)) is None by {
                lemma_first_char(s, i as int, e2);
            }
        }
        return Lexeme { kind: None, start: i, end: i + 1 };
    }
    if c == '\'' {
        let r = scan_string(v, i);
        proof {
            assert forall|e2: int| i < e2 <= n implies !pat_id(s, i as int, e2) && !pat_ident(s, i as int, e2)
                && !pat_number(s, i as int, e2) by {
                lemma_first_char(s, i as int, e2);
            }
        }
        match r {
            Some(e) => {
                return Lexeme { kind: Some(TokenKind::ConstString), start: i, end: e };
            }
            None => {
                return Lexeme { kind: None, start: i, end: n };
            }
        }
    }
    let kind = if c == '<' {
        Some(TokenKind::OpenAngle)
    } else if c == '>' {
        Some(TokenKind::CloseAngle)
    } else if c == '=' {
        Some(TokenKind::Equals)
    } else if c == ',' {
        Some(TokenKind::Comma)
    } else {
        None
    };
    proof {
        assert forall|e2: int| i < e2 <= n implies !pat_id(s, i as int, e2) && !pat_ident(s, i as int, e2)
            && !pat_number(s, i as int, e2) && !pat_string(s, i as int, e2) by {
            lemma_first_char(s, i as int, e2);
        }
    }
    Lexeme { kind, start: i, end: i + 1 }
}

/// Splits `v` into lexemes.
pub fn lex(v: &Vec<char>) -> (toks: Vec<Lexeme>)
    ensures
        lexing(v@, toks@),
{
    let ghost s = v@;
    let n = v.len();
    let mut toks: Vec<Lexeme> = Vec::new();
    let mut i = scan(v, 0, CharClass::Ws);
    proof {
        lemma_run(s, 0, n as int, CharClass::Ws);
    }
    while i < n
        invariant
            n == s.len(),
            s == v@,
            i <= n,
            forall|k: int| 0 <= k < toks@.len() ==> lexeme_ok(s, #[trigger] toks@[k]),
            toks@.len() == 0 ==> i == run(s, 0, n as int, CharClass::Ws),
            toks@.len() > 0 ==> toks@[0].start == run(s, 0, n as int, CharClass::Ws),
            forall|k: int| 0 <= k < toks@.len() - 1 ==>
                (#[trigger] toks@[k + 1]).start == run(s, toks@[k].end as int, n as int, CharClass::Ws),
            toks@.len() > 0 ==> i == run(s, toks@[toks@.len() - 1].end as int, n as int, CharClass::Ws),
            i < n ==> !is_ws(s[i as int]),
        decreases n - i,
    {
        let lx = next_lexeme(v, i);
        toks.push(lx);
        i = scan(v, lx.end, CharClass::Ws);
        proof {
            lemma_run(s, lx.end as int, n as int, CharClass::Ws);
        }
    }
    toks
}

} // verus!

verus! {

/// Two lexemes that start at the same place are the same lexeme.
pub proof fn lemma_lexeme_unique(s: Seq<char>, a: Lexeme, b: Lexeme)
    requires
        lexeme_ok(s, a),
        lexeme_ok(s, b),
        a.start == b.start,
    ensures
        a == b,
{
    if a.kind is Some && b.kind is Some {
        if a.end < b.end {
            assert(classify_at(s, a.start as int, b.end as int) is None);
        } else if b.end < a.end {
            assert(classify_at(s, b.start as int, a.end as int) is None);
        }
    } else if a.kind is Some {
        assert(classify_at(s, a.start as int, a.end as int) is None);
    } else if b.kind is Some {
        assert(classify_at(s, b.start as int, b.end as int) is None);
    }
}

/// A text has one lexing.
pub proof fn lemma_lexing_unique(s: Seq<char>, t1: Seq<Lexeme>, t2: Seq<Lexeme>)
    requires
        lexing(s, t1),
        lexing(s, t2),
    ensures
        t1 == t2,
{
    let m = if t1.len() < t2.len() { t1.len() } else { t2.len() };
    assert forall|k: int| 0 <= k < m implies t1[k] == t2[k] by {
        lemma_lexing_prefix(s, t1, t2, k);
    }
    if t1.len() < t2.len() {
        if t1.len() == 0 {
            assert(lexeme_ok(s, t2[0]));
        } else {
            let l = t1.len() - 1;
            assert(t1[l] == t2[l]);
            assert(lexeme_ok(s, t2[l + 1]));
        }
    } else if t2.len() < t1.len() {
        if t2.len() == 0 {
            assert(lexeme_ok(s, t1[0]));
        } else {
            let l = t2.len() - 1;
            assert(t1[l] == t2[l]);
            assert(lexeme_ok(s, t1[l + 1]));
        }
    }
    assert(t1 =~= t2);
}

proof fn lemma_lexing_prefix(s: Seq<char>, t1: Seq<Lexeme>, t2: Seq<Lexeme>, k: int)
    requires
        lexing(s, t1),
        lexing(s, t2),
        0 <= k < t1.len(),
        k < t2.len(),
    ensures
        t1[k] == t2[k],
    decreases k,
{
    if k > 0 {
        lemma_lexing_prefix(s, t1, t2, k - 1);
        let j = k - 1;
        assert(t1[j + 1].start == run(s, t1[j].end as int, s.len() as int, CharClass::Ws));
        assert(t2[j + 1].start == run(s, t2[j].end as int, s.len() as int, CharClass::Ws));
    }
    assert(lexeme_ok(s, t1[k]));
    assert(lexeme_ok(s, t2[k]));
    lemma_lexeme_unique(s, t1[k], t2[k]);
}

/// The lexemes of a text.
pub open spec fn lexemes_of(s: Seq<char>) -> Seq<Lexeme> {
    choose|t: Seq<Lexeme>| lexing(s, t)
}

/// Splits `v` into its lexemes.
pub fn lexemes(v: &Vec<char>) -> (toks: Vec<Lexeme>)
    ensures
        toks@ == lexemes_of(v@),
        lexing(v@, toks@),
{
    let toks = lex(v);
    proof {
        lemma_lexing_unique(v@, toks@, lexemes_of(v@));
    }
    toks
}

} // verus!
