use vstd::prelude::*;
use vstd::string::StrSliceExecFns;
use vstd::string::StringExecFns;
use vstd::string::StringSliceAdditionalSpecFns;

verus! {

/// What a token is, apart from the text that it carries.
#[derive(Debug, Clone, Copy, PartialEq, Eq, Structural)]
pub enum TokenKind {
    Select,
    Insert,
    Update,
    Delete,
    From,
    Into,
    Values,
    SetWord,
    Where,
    Identifier,
    StringLiteral,
    NumberLiteral,
    Equals,
    Comma,
    Asterisk,
    Semicolon,
    LeftParen,
    RightParen,
    LessThan,
    GreaterThan,
    Unknown,
    Create,
    Table,
    Alter,
    Add,
    Drop,
    Modify,
    Order,
    By,
    Desc,
    Asc,
    Group,
    Join,
    Left,
    Right,
    Full,
    On,
    Dot,
    Cross,
}

/// One lexical unit of a statement. A number literal carries its text as it
/// was written.
#[derive(Debug, Clone, PartialEq)]
pub enum Token {
    Select,
    Insert,
    Update,
    Delete,
    From,
    Into,
    Values,
    SetWord,
    Where,
    Identifier(String),
    StringLiteral(String),
    NumberLiteral(String),
    Equals,
    Comma,
    Asterisk,
    Semicolon,
    LeftParen,
    RightParen,
    LessThan,
    GreaterThan,
    Unknown(String),
    Create,
    Table,
    Alter,
    Add,
    Drop,
    Modify,
    Order,
    By,
    Desc,
    Asc,
    Group,
    Join,
    Left,
    Right,
    Full,
    On,
    Dot,
    Cross,
}

/// The mathematical value of a `Token`: its kind, and the text that it
/// carries; a token that carries none has the empty text.
pub struct TokenModel {
    pub kind: TokenKind,
    pub text: Seq<char>,
}

/// A token that carries no text.
pub open spec fn plain(kind: TokenKind) -> TokenModel {
    TokenModel { kind, text: Seq::empty() }
}

impl View for Token {
    type V = TokenModel;

    open spec fn view(&self) -> TokenModel {
        match self {
            Token::Select => plain(TokenKind::Select),
            Token::Insert => plain(TokenKind::Insert),
            Token::Update => plain(TokenKind::Update),
            Token::Delete => plain(TokenKind::Delete),
            Token::From => plain(TokenKind::From),
            Token::Into => plain(TokenKind::Into),
            Token::Values => plain(TokenKind::Values),
            Token::SetWord => plain(TokenKind::SetWord),
            Token::Where => plain(TokenKind::Where),
            Token::Identifier(text) => TokenModel { kind: TokenKind::Identifier, text: text@ },
            Token::StringLiteral(text) => TokenModel { kind: TokenKind::StringLiteral, text: text@ },
            Token::NumberLiteral(text) => TokenModel { kind: TokenKind::NumberLiteral, text: text@ },
            Token::Equals => plain(TokenKind::Equals),
            Token::Comma => plain(TokenKind::Comma),
            Token::Asterisk => plain(TokenKind::Asterisk),
            Token::Semicolon => plain(TokenKind::Semicolon),
            Token::LeftParen => plain(TokenKind::LeftParen),
            Token::RightParen => plain(TokenKind::RightParen),
            Token::LessThan => plain(TokenKind::LessThan),
            Token::GreaterThan => plain(TokenKind::GreaterThan),
            Token::Unknown(text) => TokenModel { kind: TokenKind::Unknown, text: text@ },
            Token::Create => plain(TokenKind::Create),
            Token::Table => plain(TokenKind::Table),
            Token::Alter => plain(TokenKind::Alter),
            Token::Add => plain(TokenKind::Add),
            Token::Drop => plain(TokenKind::Drop),
            Token::Modify => plain(TokenKind::Modify),
            Token::Order => plain(TokenKind::Order),
            Token::By => plain(TokenKind::By),
            Token::Desc => plain(TokenKind::Desc),
            Token::Asc => plain(TokenKind::Asc),
            Token::Group => plain(TokenKind::Group),
            Token::Join => plain(TokenKind::Join),
            Token::Left => plain(TokenKind::Left),
            Token::Right => plain(TokenKind::Right),
            Token::Full => plain(TokenKind::Full),
            Token::On => plain(TokenKind::On),
            Token::Dot => plain(TokenKind::Dot),
            Token::Cross => plain(TokenKind::Cross),
        }
    }
}

/// The views of `tokens`, in order.
pub open spec fn token_views(tokens: Seq<Token>) -> Seq<TokenModel> {
    Seq::new(tokens.len(), |i: int| tokens[i]@)
}

impl Token {
    /// What the token is, apart from its text.
    pub fn kind(&self) -> (kind: TokenKind)
        ensures
            kind == self@.kind,
    {
        match self {
            Token::Select => TokenKind::Select,
            Token::Insert => TokenKind::Insert,
            Token::Update => TokenKind::Update,
            Token::Delete => TokenKind::Delete,
            Token::From => TokenKind::From,
            Token::Into => TokenKind::Into,
            Token::Values => TokenKind::Values,
            Token::SetWord => TokenKind::SetWord,
            Token::Where => TokenKind::Where,
            Token::Identifier(_) => TokenKind::Identifier,
            Token::StringLiteral(_) => TokenKind::StringLiteral,
            Token::NumberLiteral(_) => TokenKind::NumberLiteral,
            Token::Equals => TokenKind::Equals,
            Token::Comma => TokenKind::Comma,
            Token::Asterisk => TokenKind::Asterisk,
            Token::Semicolon => TokenKind::Semicolon,
            Token::LeftParen => TokenKind::LeftParen,
            Token::RightParen => TokenKind::RightParen,
            Token::LessThan => TokenKind::LessThan,
            Token::GreaterThan => TokenKind::GreaterThan,
            Token::Unknown(_) => TokenKind::Unknown,
            Token::Create => TokenKind::Create,
            Token::Table => TokenKind::Table,
            Token::Alter => TokenKind::Alter,
            Token::Add => TokenKind::Add,
            Token::Drop => TokenKind::Drop,
            Token::Modify => TokenKind::Modify,
            Token::Order => TokenKind::Order,
            Token::By => TokenKind::By,
            Token::Desc => TokenKind::Desc,
            Token::Asc => TokenKind::Asc,
            Token::Group => TokenKind::Group,
            Token::Join => TokenKind::Join,
            Token::Left => TokenKind::Left,
            Token::Right => TokenKind::Right,
            Token::Full => TokenKind::Full,
            Token::On => TokenKind::On,
            Token::Dot => TokenKind::Dot,
            Token::Cross => TokenKind::Cross,
        }
    }

    /// The text that the token carries; empty where it carries none.
    pub fn text(&self) -> (text: String)
        ensures
            text@ == self@.text,
    {
        match self {
            Token::Identifier(text) => text.clone(),
            Token::StringLiteral(text) => text.clone(),
            Token::NumberLiteral(text) => text.clone(),
            Token::Unknown(text) => text.clone(),
            _ => String::new(),
        }
    }

    /// The token of the kind `kind` that carries `text`; a kind that carries
    /// no text drops it.
    pub fn of(kind: TokenKind, text: String) -> (token: Token)
        ensures
            token@.kind == kind,
            token@.text == carried(kind, text@),
    {
        match kind {
            TokenKind::Select => Token::Select,
            TokenKind::Insert => Token::Insert,
            TokenKind::Update => Token::Update,
            TokenKind::Delete => Token::Delete,
            TokenKind::From => Token::From,
            TokenKind::Into => Token::Into,
            TokenKind::Values => Token::Values,
            TokenKind::SetWord => Token::SetWord,
            TokenKind::Where => Token::Where,
            TokenKind::Identifier => Token::Identifier(text),
            TokenKind::StringLiteral => Token::StringLiteral(text),
            TokenKind::NumberLiteral => Token::NumberLiteral(text),
            TokenKind::Equals => Token::Equals,
            TokenKind::Comma => Token::Comma,
            TokenKind::Asterisk => Token::Asterisk,
            TokenKind::Semicolon => Token::Semicolon,
            TokenKind::LeftParen => Token::LeftParen,
            TokenKind::RightParen => Token::RightParen,
            TokenKind::LessThan => Token::LessThan,
            TokenKind::GreaterThan => Token::GreaterThan,
            TokenKind::Unknown => Token::Unknown(text),
            TokenKind::Create => Token::Create,
            TokenKind::Table => Token::Table,
            TokenKind::Alter => Token::Alter,
            TokenKind::Add => Token::Add,
            TokenKind::Drop => Token::Drop,
            TokenKind::Modify => Token::Modify,
            TokenKind::Order => Token::Order,
            TokenKind::By => Token::By,
            TokenKind::Desc => Token::Desc,
            TokenKind::Asc => Token::Asc,
            TokenKind::Group => Token::Group,
            TokenKind::Join => Token::Join,
            TokenKind::Left => Token::Left,
            TokenKind::Right => Token::Right,
            TokenKind::Full => Token::Full,
            TokenKind::On => Token::On,
            TokenKind::Dot => Token::Dot,
            TokenKind::Cross => Token::Cross,
        }
    }
}

/// Whether tokens of the kind `kind` carry a text.
pub open spec fn carries_text(kind: TokenKind) -> bool {
    kind == TokenKind::Identifier || kind == TokenKind::StringLiteral || kind
        == TokenKind::NumberLiteral || kind == TokenKind::Unknown
}

/// The text that a token of the kind `kind` keeps of `text`.
pub open spec fn carried(kind: TokenKind, text: Seq<char>) -> Seq<char> {
    if carries_text(kind) {
        text
    } else {
        Seq::empty()
    }
}

/// Whether `c` is numeric as Unicode has it.
pub uninterp spec fn is_numeric_char(c: char) -> bool;

/// Whether `c` is a letter or numeric as Unicode has it.
pub uninterp spec fn is_alphanumeric_char(c: char) -> bool;

/// `text` with every letter in upper case, as Unicode maps it.
pub uninterp spec fn uppercase(text: Seq<char>) -> Seq<char>;

/// `char::is_numeric` of std. The result is claimed to depend on the
/// character alone.
#[verifier::external_body]
fn char_is_numeric(c: char) -> (numeric: bool)
    ensures
        numeric == is_numeric_char(c),
{
    c.is_numeric()
}

/// `char::is_alphanumeric` of std. The result is claimed to depend on the
/// character alone.
#[verifier::external_body]
fn char_is_alphanumeric(c: char) -> (alphanumeric: bool)
    ensures
        alphanumeric == is_alphanumeric_char(c),
{
    c.is_alphanumeric()
}

/// `str::to_uppercase` of std. The result is claimed to depend on the text
/// alone.
#[verifier::external_body]
pub(crate) fn upper(text: &str) -> (raised: String)
    ensures
        raised@ == uppercase(text@),
{
    text.to_uppercase()
}

/// The characters that are skipped between tokens.
pub open spec fn is_space(c: char) -> bool {
    c == ' ' || c == '\t' || c == '\n'
}

/// The token that a character of punctuation is, if it is one.
pub open spec fn punctuation(c: char) -> Option<TokenKind> {
    if c == '*' {
        Some(TokenKind::Asterisk)
    } else if c == ',' {
        Some(TokenKind::Comma)
    } else if c == '=' {
        Some(TokenKind::Equals)
    } else if c == ';' {
        Some(TokenKind::Semicolon)
    } else if c == '(' {
        Some(TokenKind::LeftParen)
    } else if c == ')' {
        Some(TokenKind::RightParen)
    } else if c == '>' {
        Some(TokenKind::GreaterThan)
    } else if c == '<' {
        Some(TokenKind::LessThan)
    } else if c == '.' {
        Some(TokenKind::Dot)
    } else {
        None
    }
}

/// The keyword that a word in upper case is, if it is one.
pub open spec fn keyword(raised: Seq<char>) -> Option<TokenKind> {
    if raised == "SELECT"@ {
        Some(TokenKind::Select)
    } else if raised == "INSERT"@ {
        Some(TokenKind::Insert)
    } else if raised == "UPDATE"@ {
        Some(TokenKind::Update)
    } else if raised == "DELETE"@ {
        Some(TokenKind::Delete)
    } else if raised == "FROM"@ {
        Some(TokenKind::From)
    } else if raised == "INTO"@ {
        Some(TokenKind::Into)
    } else if raised == "VALUES"@ {
        Some(TokenKind::Values)
    } else if raised == "SET"@ {
        Some(TokenKind::SetWord)
    } else if raised == "WHERE"@ {
        Some(TokenKind::Where)
    } else if raised == "CREATE"@ {
        Some(TokenKind::Create)
    } else if raised == "TABLE"@ {
        Some(TokenKind::Table)
    } else if raised == "ALTER"@ {
        Some(TokenKind::Alter)
    } else if raised == "ADD"@ {
        Some(TokenKind::Add)
    } else if raised == "DROP"@ {
        Some(TokenKind::Drop)
    } else if raised == "MODIFY"@ {
        Some(TokenKind::Modify)
    } else if raised == "ORDER"@ {
        Some(TokenKind::Order)
    } else if raised == "BY"@ {
        Some(TokenKind::By)
    } else if raised == "GROUP"@ {
        Some(TokenKind::Group)
    } else if raised == "DESC"@ {
        Some(TokenKind::Desc)
    } else if raised == "ASC"@ {
        Some(TokenKind::Asc)
    } else if raised == "JOIN"@ {
        Some(TokenKind::Join)
    } else if raised == "LEFT"@ {
        Some(TokenKind::Left)
    } else if raised == "RIGHT"@ {
        Some(TokenKind::Right)
    } else if raised == "FULL"@ {
        Some(TokenKind::Full)
    } else if raised == "CROSS"@ {
        Some(TokenKind::Cross)
    } else if raised == "ON"@ {
        Some(TokenKind::On)
    } else {
        None
    }
}

/// The token that the word `word` is: a keyword, whatever the case of its
/// letters, or an identifier.
pub open spec fn word_token(word: Seq<char>) -> TokenModel {
    match keyword(uppercase(word)) {
        Some(kind) => plain(kind),
        None => TokenModel { kind: TokenKind::Identifier, text: word },
    }
}

/// Whether a number literal goes on with `c`.
pub open spec fn in_number(c: char) -> bool {
    is_numeric_char(c) || c == '.'
}

/// Whether a word goes on with `c`.
pub open spec fn in_word(c: char) -> bool {
    is_alphanumeric_char(c) || c == '_'
}

/// How many characters from place `i` on go on a number literal.
pub open spec fn number_run(chars: Seq<char>, i: nat) -> nat
    decreases chars.len() - i,
{
    if i < chars.len() && in_number(chars[i as int]) {
        number_run(chars, i + 1) + 1
    } else {
        0
    }
}

/// How many characters from place `i` on go on a word.
pub open spec fn word_run(chars: Seq<char>, i: nat) -> nat
    decreases chars.len() - i,
{
    if i < chars.len() && in_word(chars[i as int]) {
        word_run(chars, i + 1) + 1
    } else {
        0
    }
}

/// How many characters from place `i` on stand before the next quote or the
/// end of the input.
pub open spec fn literal_run(chars: Seq<char>, i: nat) -> nat
    decreases chars.len() - i,
{
    if i < chars.len() && chars[i as int] != '\'' {
        literal_run(chars, i + 1) + 1
    } else {
        0
    }
}

/// The number of dots among the first `n` characters of `text`.
pub open spec fn dots(text: Seq<char>, n: nat) -> nat
    recommends
        n <= text.len(),
    decreases n,
{
    if n == 0 {
        0
    } else if text[n - 1] == '.' {
        dots(text, (n - 1) as nat) + 1
    } else {
        dots(text, (n - 1) as nat)
    }
}

/// Whether the text of a number literal writes a number: decimal digits with
/// at most one dot among them.
pub open spec fn valid_number(text: Seq<char>) -> bool {
    &&& forall|i: int| 0 <= i < text.len() ==> '0' <= #[trigger] text[i] <= '9' || text[i] == '.'
    &&& dots(text, text.len()) <= 1
}

/// `token`, then the tokens `rest`; the error of `rest` where it has one.
pub open spec fn then(token: TokenModel, rest: Result<Seq<TokenModel>, Seq<char>>) -> Result<
    Seq<TokenModel>,
    Seq<char>,
> {
    match rest {
        Ok(tokens) => Ok(seq![token] + tokens),
        Err(error) => Err(error),
    }
}

/// Where the input goes on behind the string literal whose text ends at `end`.
pub open spec fn behind_literal(chars: Seq<char>, end: nat) -> nat {
    if end < chars.len() {
        end + 1
    } else {
        end
    }
}

/// The tokens of the input from place `i` on. Blanks, tabs and line breaks
/// separate tokens; a quote opens a string literal, which must not be empty;
/// a digit opens a number literal; a letter opens a word; any other
/// character is punctuation or an unknown token of its own.
pub open spec fn tokens_from(chars: Seq<char>, i: nat) -> Result<Seq<TokenModel>, Seq<char>>
    decreases chars.len() - i,
    via tokens_from_ends
{
    if i >= chars.len() {
        Ok(Seq::empty())
    } else {
        let c = chars[i as int];
        if is_space(c) {
            tokens_from(chars, i + 1)
        } else if punctuation(c) is Some {
            then(plain(punctuation(c)->Some_0), tokens_from(chars, i + 1))
        } else if c == '\'' {
            let end = i + 1 + literal_run(chars, i + 1);
            if end == i + 1 {
                Err("Unterminated string literal"@)
            } else {
                then(
                    TokenModel {
                        kind: TokenKind::StringLiteral,
                        text: chars.subrange(i as int + 1, end as int),
                    },
                    tokens_from(chars, behind_literal(chars, end)),
                )
            }
        } else if '0' <= c <= '9' {
            let end = i + 1 + number_run(chars, i + 1);
            let text = chars.subrange(i as int, end as int);
            if valid_number(text) {
                then(TokenModel { kind: TokenKind::NumberLiteral, text }, tokens_from(chars, end))
            } else {
                Err("Invalid number format: "@ + text)
            }
        } else if 'A' <= c <= 'Z' || 'a' <= c <= 'z' {
            let end = i + 1 + word_run(chars, i + 1);
            then(word_token(chars.subrange(i as int, end as int)), tokens_from(chars, end))
        } else {
            then(TokenModel { kind: TokenKind::Unknown, text: seq![c] }, tokens_from(chars, i + 1))
        }
    }
}

#[via_fn]
proof fn tokens_from_ends(chars: Seq<char>, i: nat) {
    if i < chars.len() {
        lemma_ends(chars, i + 1);
    }
}

/// The tokens of `text`.
pub open spec fn tokens_of(text: Seq<char>) -> Result<Seq<TokenModel>, Seq<char>> {
    tokens_from(text, 0)
}

proof fn lemma_ends(chars: Seq<char>, i: nat)
    requires
        i <= chars.len(),
    ensures
        i + number_run(chars, i) <= chars.len(),
        i + word_run(chars, i) <= chars.len(),
        i + literal_run(chars, i) <= chars.len(),
    decreases chars.len() - i,
{
    if i < chars.len() {
        lemma_ends(chars, i + 1);
    }
}

/// The characters of `text`.
fn chars_of(text: &str) -> (chars: Vec<char>)
    ensures
        chars@ == text@,
{
    let n: usize = text.unicode_len();
    let mut chars: Vec<char> = Vec::new();
    let mut i: usize = 0;
    while i < n
        invariant
            i <= n,
            n == text@.len(),
            chars@ == text@.subrange(0, i as int),
        decreases n - i,
    {
        chars.push(text.get_char(i));
        assert(chars@ =~= text@.subrange(0, i + 1));
        i = i + 1;
    }
    assert(text@.subrange(0, n as int) =~= text@);
    chars
}

/// The characters of `chars` from `from` up to `to`, as a string.
fn text_between(chars: &Vec<char>, from: usize, to: usize) -> (text: String)
    requires
        from <= to <= chars.len(),
    ensures
        text@ == chars@.subrange(from as int, to as int),
{
    let mut text = String::new();
    let mut i: usize = from;
    assert(chars@.subrange(from as int, from as int) =~= Seq::<char>::empty());
    while i < to
        invariant
            from <= i <= to,
            to <= chars.len(),
            text@ == chars@.subrange(from as int, i as int),
        decreases to - i,
    {
        crate::text::push_char(&mut text, chars[i]);
        assert(text@ =~= chars@.subrange(from as int, i + 1));
        i = i + 1;
    }
    text
}

fn punctuation_of(c: char) -> (kind: Option<TokenKind>)
    ensures
        kind == punctuation(c),
{
    if c == '*' {
        Some(TokenKind::Asterisk)
    } else if c == ',' {
        Some(TokenKind::Comma)
    } else if c == '=' {
        Some(TokenKind::Equals)
    } else if c == ';' {
        Some(TokenKind::Semicolon)
    } else if c == '(' {
        Some(TokenKind::LeftParen)
    } else if c == ')' {
        Some(TokenKind::RightParen)
    } else if c == '>' {
        Some(TokenKind::GreaterThan)
    } else if c == '<' {
        Some(TokenKind::LessThan)
    } else if c == '.' {
        Some(TokenKind::Dot)
    } else {
        None
    }
}

/// The keyword that `raised`, a word in upper case, is, if it is one.
pub fn keyword_of(raised: &str) -> (kind: Option<TokenKind>)
    ensures
        kind == keyword(raised@),
{
    if crate::text::str_same(raised, "SELECT") {
        Some(TokenKind::Select)
    } else if crate::text::str_same(raised, "INSERT") {
        Some(TokenKind::Insert)
    } else if crate::text::str_same(raised, "UPDATE") {
        Some(TokenKind::Update)
    } else if crate::text::str_same(raised, "DELETE") {
        Some(TokenKind::Delete)
    } else if crate::text::str_same(raised, "FROM") {
        Some(TokenKind::From)
    } else if crate::text::str_same(raised, "INTO") {
        Some(TokenKind::Into)
    } else if crate::text::str_same(raised, "VALUES") {
        Some(TokenKind::Values)
    } else if crate::text::str_same(raised, "SET") {
        Some(TokenKind::SetWord)
    } else if crate::text::str_same(raised, "WHERE") {
        Some(TokenKind::Where)
    } else if crate::text::str_same(raised, "CREATE") {
        Some(TokenKind::Create)
    } else if crate::text::str_same(raised, "TABLE") {
        Some(TokenKind::Table)
    } else if crate::text::str_same(raised, "ALTER") {
        Some(TokenKind::Alter)
    } else if crate::text::str_same(raised, "ADD") {
        Some(TokenKind::Add)
    } else if crate::text::str_same(raised, "DROP") {
        Some(TokenKind::Drop)
    } else if crate::text::str_same(raised, "MODIFY") {
        Some(TokenKind::Modify)
    } else if crate::text::str_same(raised, "ORDER") {
        Some(TokenKind::Order)
    } else if crate::text::str_same(raised, "BY") {
        Some(TokenKind::By)
    } else if crate::text::str_same(raised, "GROUP") {
        Some(TokenKind::Group)
    } else if crate::text::str_same(raised, "DESC") {
        Some(TokenKind::Desc)
    } else if crate::text::str_same(raised, "ASC") {
        Some(TokenKind::Asc)
    } else if crate::text::str_same(raised, "JOIN") {
        Some(TokenKind::Join)
    } else if crate::text::str_same(raised, "LEFT") {
        Some(TokenKind::Left)
    } else if crate::text::str_same(raised, "RIGHT") {
        Some(TokenKind::Right)
    } else if crate::text::str_same(raised, "FULL") {
        Some(TokenKind::Full)
    } else if crate::text::str_same(raised, "CROSS") {
        Some(TokenKind::Cross)
    } else if crate::text::str_same(raised, "ON") {
        Some(TokenKind::On)
    } else {
        None
    }
}

fn is_valid_number(chars: &Vec<char>, from: usize, to: usize) -> (valid: bool)
    requires
        from <= to <= chars.len(),
    ensures
        valid == valid_number(chars@.subrange(from as int, to as int)),
{
    let ghost text = chars@.subrange(from as int, to as int);
    let mut count: usize = 0;
    let mut i: usize = from;
    while i < to
        invariant
            from <= i <= to,
            to <= chars.len(),
            text == chars@.subrange(from as int, to as int),
            count == dots(text, (i - from) as nat),
            count <= i - from,
            forall|k: int| 0 <= k < i - from ==> '0' <= #[trigger] text[k] <= '9' || text[k] == '.',
        decreases to - i,
    {
        let c = chars[i];
        assert(text[i - from] == c);
        if c == '.' {
            count = count + 1;
        } else if !('0' <= c && c <= '9') {
            return false;
        }
        i = i + 1;
    }
    count <= 1
}

/// The tokens of `input`.
pub fn tokenize(input: &str) -> (tokens: Result<Vec<Token>, String>)
    ensures
        match tokens {
            Ok(found) => tokens_of(input@) == Ok::<Seq<TokenModel>, Seq<char>>(token_views(found@)),
            Err(message) => tokens_of(input@) == Err::<Seq<TokenModel>, Seq<char>>(message@),
        },
{
    let chars = chars_of(input);
    let ghost all = chars@;
    let mut tokens: Vec<Token> = Vec::new();
    let mut i: usize = 0;
    proof {
        assert(token_views(tokens@) =~= Seq::<TokenModel>::empty());
    }
    while i < chars.len()
        invariant
            i <= chars.len(),
            all == chars@,
            all == input@,
            match tokens_from(all, i as nat) {
                Ok(rest) => tokens_of(all) == Ok::<Seq<TokenModel>, Seq<char>>(
                    token_views(tokens@) + rest,
                ),
                Err(error) => tokens_of(all) == Err::<Seq<TokenModel>, Seq<char>>(error),
            },
        decreases chars.len() - i,
    {
        let c = chars[i];
        let ghost done = token_views(tokens@);
        proof {
            lemma_ends(all, (i + 1) as nat);
        }
        if c == ' ' || c == '\t' || c == '\n' {
            i = i + 1;
        } else {
            match punctuation_of(c) {
                Some(kind) => {
                    let token = Token::of(kind, String::new());
                    tokens.push(token);
                    proof {
                        assert(token@ == plain(kind));
                        assert(token_views(tokens@) =~= done.push(plain(kind)));
                        lemma_then(done, plain(kind), tokens_from(all, (i + 1) as nat));
                    }
                    i = i + 1;
                },
                None => {
                    if c == '\'' {
                        let mut end: usize = i + 1;
                        while end < chars.len() && chars[end] != '\''
                            invariant
                                i + 1 <= end <= chars.len(),
                                all == chars@,
                                i + 1 + literal_run(all, (i + 1) as nat) == end + literal_run(
                                    all,
                                    end as nat,
                                ),
                            decreases chars.len() - end,
                        {
                            end = end + 1;
                        }
                        if end == i + 1 {
                            return Err("Unterminated string literal".to_owned());
                        }
                        let token = Token::StringLiteral(text_between(&chars, i + 1, end));
                        tokens.push(token);
                        proof {
                            assert(token_views(tokens@) =~= done.push(token@));
                            lemma_then(done, token@, tokens_from(all, behind_literal(all, end as nat)));
                        }
                        i = if end < chars.len() {
                            end + 1
                        } else {
                            end
                        };
                    } else if '0' <= c && c <= '9' {
                        let mut end: usize = i + 1;
                        while end < chars.len() && (char_is_numeric(chars[end]) || chars[end] == '.')
                            invariant
                                i + 1 <= end <= chars.len(),
                                all == chars@,
                                i + 1 + number_run(all, (i + 1) as nat) == end + number_run(
                                    all,
                                    end as nat,
                                ),
                            decreases chars.len() - end,
                        {
                            end = end + 1;
                        }
                        let number = text_between(&chars, i, end);
                        if !is_valid_number(&chars, i, end) {
                            let mut message = "Invalid number format: ".to_owned();
                            message.append(number.as_str());
                            return Err(message);
                        }
                        let token = Token::NumberLiteral(number);
                        tokens.push(token);
                        proof {
                            assert(token_views(tokens@) =~= done.push(token@));
                            lemma_then(done, token@, tokens_from(all, end as nat));
                        }
                        i = end;
                    } else if ('A' <= c && c <= 'Z') || ('a' <= c && c <= 'z') {
                        let mut end: usize = i + 1;
                        while end < chars.len() && (char_is_alphanumeric(chars[end]) || chars[end] == '_')
                            invariant
                                i + 1 <= end <= chars.len(),
                                all == chars@,
                                i + 1 + word_run(all, (i + 1) as nat) == end + word_run(all, end as nat),
                            decreases chars.len() - end,
                        {
                            end = end + 1;
                        }
                        let word = text_between(&chars, i, end);
                        let raised = upper(word.as_str());
                        let token = match keyword_of(raised.as_str()) {
                            Some(kind) => {
                                let made = Token::of(kind, String::new());
                                proof {
                                    lemma_keyword_is_plain(raised@);
                                }
                                made
                            },
                            None => Token::Identifier(word),
                        };
                        assert(token@ == word_token(all.subrange(i as int, end as int)));
                        tokens.push(token);
                        proof {
                            assert(token_views(tokens@) =~= done.push(token@));
                            lemma_then(done, token@, tokens_from(all, end as nat));
                        }
                        i = end;
                    } else {
                        let mut text = String::new();
                        crate::text::push_char(&mut text, c);
                        assert(text@ =~= seq![c]);
                        let token = Token::Unknown(text);
                        tokens.push(token);
                        proof {
                            assert(token_views(tokens@) =~= done.push(token@));
                            lemma_then(done, token@, tokens_from(all, (i + 1) as nat));
                        }
                        i = i + 1;
                    }
                },
            }
        }
    }
    proof {
        assert(token_views(tokens@) + Seq::<TokenModel>::empty() =~= token_views(tokens@));
    }
    Ok(tokens)
}

/// A token of some kind with the text that a token of that kind carries is
/// that token.
proof fn lemma_token_of(given: TokenModel, made: TokenModel)
    requires
        made.kind == given.kind,
        made.text == carried(given.kind, given.text),
        !carries_text(given.kind) ==> given.text == Seq::<char>::empty(),
    ensures
        made == given,
{
}

/// A keyword is a token that carries no text.
proof fn lemma_keyword_is_plain(raised: Seq<char>)
    ensures
        keyword(raised) is Some ==> !carries_text(keyword(raised)->Some_0),
{
}

/// Tokens that were found, then one more and the rest, are the tokens found
/// with that one, then the rest.
proof fn lemma_then(done: Seq<TokenModel>, token: TokenModel, rest: Result<Seq<TokenModel>, Seq<char>>)
    ensures
        match then(token, rest) {
            Ok(tail) => rest is Ok && done + tail == done.push(token) + rest->Ok_0,
            Err(error) => rest == Err::<Seq<TokenModel>, Seq<char>>(error),
        },
{
    if rest is Ok {
        assert(done + (seq![token] + rest->Ok_0) =~= done.push(token) + rest->Ok_0);
    }
}

/// The word that writes a keyword; the empty text for any other token.
pub open spec fn keyword_text(kind: TokenKind) -> Seq<char> {
    match kind {
        TokenKind::Select => "SELECT"@,
        TokenKind::Insert => "INSERT"@,
        TokenKind::Update => "UPDATE"@,
        TokenKind::Delete => "DELETE"@,
        TokenKind::From => "FROM"@,
        TokenKind::Into => "INTO"@,
        TokenKind::Values => "VALUES"@,
        TokenKind::SetWord => "SET"@,
        TokenKind::Where => "WHERE"@,
        TokenKind::Create => "CREATE"@,
        TokenKind::Table => "TABLE"@,
        TokenKind::Alter => "ALTER"@,
        TokenKind::Add => "ADD"@,
        TokenKind::Drop => "DROP"@,
        TokenKind::Modify => "MODIFY"@,
        TokenKind::Order => "ORDER"@,
        TokenKind::By => "BY"@,
        TokenKind::Group => "GROUP"@,
        TokenKind::Join => "JOIN"@,
        TokenKind::Left => "LEFT"@,
        TokenKind::Right => "RIGHT"@,
        TokenKind::Full => "FULL"@,
        TokenKind::On => "ON"@,
        TokenKind::Desc => "DESC"@,
        TokenKind::Asc => "ASC"@,
        TokenKind::Cross => "CROSS"@,
        _ => Seq::empty(),
    }
}

/// The word that writes a keyword; the empty text for any other token.
pub fn keyword_str(token: &Token) -> (word: &'static str)
    ensures
        word@ == keyword_text(token@.kind),
{
    proof {
        reveal_strlit("");
    }
    match token {
        Token::Select => "SELECT",
        Token::Insert => "INSERT",
        Token::Update => "UPDATE",
        Token::Delete => "DELETE",
        Token::From => "FROM",
        Token::Into => "INTO",
        Token::Values => "VALUES",
        Token::SetWord => "SET",
        Token::Where => "WHERE",
        Token::Create => "CREATE",
        Token::Table => "TABLE",
        Token::Alter => "ALTER",
        Token::Add => "ADD",
        Token::Drop => "DROP",
        Token::Modify => "MODIFY",
        Token::Order => "ORDER",
        Token::By => "BY",
        Token::Group => "GROUP",
        Token::Join => "JOIN",
        Token::Left => "LEFT",
        Token::Right => "RIGHT",
        Token::Full => "FULL",
        Token::On => "ON",
        Token::Desc => "DESC",
        Token::Asc => "ASC",
        Token::Cross => "CROSS",
        _ => "",
    }
}

/// A length held at the largest number the machine counts to.
pub open spec fn capped(length: int) -> nat {
    if length <= usize::MAX {
        length as nat
    } else {
        usize::MAX as nat
    }
}

/// The bytes by which a tokenizer moves on behind a token: those of the text
/// of an identifier, a number or an unknown token; those of a string
/// literal's text and two more for its quotes; those of a keyword's word;
/// one for punctuation.
pub open spec fn token_span(token: TokenModel) -> nat {
    match token.kind {
        TokenKind::Identifier => crate::entry::utf8_len(token.text) as nat,
        TokenKind::NumberLiteral => crate::entry::utf8_len(token.text) as nat,
        TokenKind::Unknown => crate::entry::utf8_len(token.text) as nat,
        TokenKind::StringLiteral => capped(crate::entry::utf8_len(token.text) + 2),
        kind => if crate::entry::utf8_len(keyword_text(kind)) >= 1 {
            crate::entry::utf8_len(keyword_text(kind)) as nat
        } else {
            1
        },
    }
}

/// The bytes by which a tokenizer moves on behind `token`.
pub fn token_length(token: &Token) -> (length: usize)
    ensures
        length == token_span(token@),
{
    match token {
        Token::Identifier(text) => text.as_str().len(),
        Token::NumberLiteral(text) => text.as_str().len(),
        Token::Unknown(text) => text.as_str().len(),
        Token::StringLiteral(text) => {
            let bytes: usize = text.as_str().len();
            if bytes <= usize::MAX - 2 {
                bytes + 2
            } else {
                usize::MAX
            }
        },
        other => {
            let bytes: usize = keyword_str(other).len();
            if bytes >= 1 {
                bytes
            } else {
                1
            }
        },
    }
}

/// The text that the bytes of `text` from the byte `at` on write.
pub open spec fn text_from_byte(text: Seq<char>, at: int) -> Seq<char> {
    vstd::utf8::decode_utf8(
        vstd::utf8::encode_utf8(text).subrange(at, vstd::utf8::encode_utf8(text).len() as int),
    )
}

/// The first token of the input from the byte `at` on, if the input has one
/// there: none at or behind the end of the input, none where `at` lies
/// inside a character, none where the rest cannot be tokenized or holds no
/// token.
pub open spec fn token_at(text: Seq<char>, at: nat) -> Option<TokenModel> {
    if at >= crate::entry::utf8_len(text) || !vstd::utf8::is_char_boundary(
        vstd::utf8::encode_utf8(text),
        at as int,
    ) {
        None
    } else {
        match tokens_of(text_from_byte(text, at as int)) {
            Ok(tokens) => if tokens.len() > 0 {
                Some(tokens[0])
            } else {
                None
            },
            Err(_) => None,
        }
    }
}

/// A tokenizer over one input text, with the byte at which it stands.
pub struct Tokenizer {
    input: String,
    position: usize,
}

impl Tokenizer {
    /// The input text.
    pub closed spec fn input_view(&self) -> Seq<char> {
        self.input@
    }

    /// The byte at which the tokenizer stands.
    pub closed spec fn position_view(&self) -> nat {
        self.position as nat
    }

    /// A tokenizer at the start of `input`.
    pub fn new(input: &str) -> (tokenizer: Self)
        ensures
            tokenizer.input_view() == input@,
            tokenizer.position_view() == 0,
    {
        Tokenizer { input: input.to_owned(), position: 0 }
    }

    /// The token at which the tokenizer stands, if there is one; the
    /// tokenizer then moves on by the token's span.
    pub fn next_token(&mut self) -> (token: Option<Token>)
        ensures
            final(self).input_view() == old(self).input_view(),
            match token {
                Some(found) => token_at(old(self).input_view(), old(self).position_view()) == Some(
                    found@,
                ) && final(self).position_view() == capped(
                    (old(self).position_view() + token_span(found@)) as int,
                ),
                None => token_at(old(self).input_view(), old(self).position_view()) is None
                    && final(self).position_view() == old(self).position_view(),
            },
    {
        let whole = self.input.as_str();
        if self.position >= whole.len() {
            return None;
        }
        if !whole.is_char_boundary(self.position) {
            return None;
        }
        let (_, rest) = whole.split_at(self.position);
        proof {
            vstd::utf8::encode_utf8_decode_utf8(rest@);
            assert(rest@ == text_from_byte(self.input@, self.position as int));
        }
        match tokenize(rest) {
            Ok(tokens) => {
                if tokens.len() > 0 {
                    let token = Token::of(tokens[0].kind(), tokens[0].text());
                    proof {
                        lemma_token_of(tokens[0]@, token@);
                    }
                    let span = token_length(&token);
                    self.position = if span <= usize::MAX - self.position {
                        self.position + span
                    } else {
                        usize::MAX
                    };
                    Some(token)
                } else {
                    None
                }
            },
            Err(_) => None,
        }
    }

    /// The tokens of the whole input.
    pub fn tokenize(&mut self) -> (tokens: Result<Vec<Token>, String>)
        ensures
            final(self).input_view() == old(self).input_view(),
            final(self).position_view() == old(self).position_view(),
            match tokens {
                Ok(found) => tokens_of(old(self).input_view()) == Ok::<Seq<TokenModel>, Seq<char>>(
                    token_views(found@),
                ),
                Err(message) => tokens_of(old(self).input_view()) == Err::<
                    Seq<TokenModel>,
                    Seq<char>,
                >(message@),
            },
    {
        tokenize(self.input.as_str())
    }
}

} // verus!
