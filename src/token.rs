use vstd::prelude::*;
use lib_ruby_parser::{Parser, ParserOptions};
use vstd::string::StrSliceExecFns;

verus! {

/// The token kinds that the symbol indexer distinguishes.
#[derive(Debug, Clone, Copy, PartialEq, Eq, Structural)]
pub enum TokenKind {
    /// The `class` keyword.
    Class,
    /// The `module` keyword.
    Module,
    /// Any other keyword whose construct is closed by `end`.
    Opener,
    /// The `end` keyword.
    End,
    /// A constant identifier.
    Constant,
    /// The `=` assignment operator.
    Assign,
    /// Everything else.
    Other,
}

/// A lexed token: the lexer's name for its type, its text, and the byte
/// offsets where it starts and ends in the source.
pub struct Lexeme {
    pub name: String,
    pub text: String,
    pub offset: usize,
    pub end: usize,
}

/// A token placed at a zero-based line and byte column, with its width in
/// bytes.
pub struct Token {
    pub kind: TokenKind,
    pub text: String,
    pub line: usize,
    pub column: usize,
    pub width: usize,
}

/// A placed token as a mathematical value: kind, text, line, column and width.
pub type TokView = (TokenKind, Seq<char>, nat, nat, nat);

pub open spec fn token_views(s: Seq<Token>) -> Seq<TokView> {
    s.map_values(|t: Token| (t.kind, t.text@, t.line as nat, t.column as nat, t.width as nat))
}

/// A raw token: type name, text, start and end offsets.
pub type RawToken = (Seq<char>, Seq<char>, nat, nat);

/// What lib_ruby_parser produces for a source text parsed under a buffer
/// name: its tokens and the messages of its diagnostics.
pub uninterp spec fn ruby_parse(name: Seq<char>, src: Seq<u8>) -> (Seq<RawToken>, Seq<Seq<char>>);

/// The tokens that lib_ruby_parser's lexer produces for a source text.
pub open spec fn ruby_tokens(name: Seq<char>, src: Seq<u8>) -> Seq<RawToken> {
    ruby_parse(name, src).0
}

pub open spec fn texts(v: Seq<String>) -> Seq<Seq<char>> {
    v.map_values(|s: String| s@)
}

/// The raw result of parsing: lexemes and diagnostic messages.
pub struct Lexed {
    pub lexemes: Vec<Lexeme>,
    pub diagnostics: Vec<String>,
}

/// A parsed file: its placed tokens and the messages of its diagnostics,
/// errors and warnings alike.
pub struct ParsedFile {
    pub tokens: Vec<Token>,
    pub diagnostics: Vec<String>,
}

/// Relies on lib_ruby_parser's `Parser::do_parse`, which records every token of
/// the input (`record_tokens` is on by default) and recovers from syntax
/// errors, reporting them as diagnostics. For each token: `Token::token_name`
/// (such as `kCLASS` or `tCONSTANT`), its value decoded lossily and its start
/// and end offsets; for each diagnostic, `Diagnostic::render_message`. The
/// result depends on the buffer name and the bytes alone.
#[verifier::external_body]
fn lex_ruby(buffer_name: &String, src: Vec<u8>) -> (r: Lexed)
    ensures
        r.lexemes@.len() == ruby_tokens(buffer_name@, src@).len(),
        forall|i: int|
            0 <= i < r.lexemes@.len() ==> {
                let t = #[trigger] r.lexemes@[i];
                let u = ruby_tokens(buffer_name@, src@)[i];
                t.name@ == u.0 && t.text@ == u.1 && t.offset as nat == u.2 && t.end as nat == u.3
            },
        texts(r.diagnostics@) == ruby_parse(buffer_name@, src@).1,
{
    let options = ParserOptions { buffer_name: buffer_name.clone(), ..Default::default() };
    let result = Parser::new(src, options).do_parse();
    let lexemes = result.tokens.iter().map(|t| Lexeme {
        name: t.token_name().to_string(),
        text: t.to_string_lossy(),
        offset: t.loc.begin,
        end: t.loc.end,
    }).collect();
    Lexed { lexemes, diagnostics: result.diagnostics.iter().map(|d| d.render_message()).collect() }
}

/// The kind of a token, by the lexer's name for its type.
pub open spec fn kind_of(name: Seq<char>) -> TokenKind {
    if name == "kCLASS"@ {
        TokenKind::Class
    } else if name == "kMODULE"@ {
        TokenKind::Module
    } else if name == "kEND"@ {
        TokenKind::End
    } else if name == "tCONSTANT"@ {
        TokenKind::Constant
    } else if name == "tEQL"@ {
        TokenKind::Assign
    } else if name == "kDEF"@ || name == "kBEGIN"@ || name == "kIF"@ || name == "kUNLESS"@
        || name == "kWHILE"@ || name == "kUNTIL"@ || name == "kCASE"@ || name == "kFOR"@ || name
        == "kDO"@ || name == "kDO_BLOCK"@ || name == "kDO_LAMBDA"@ {
        TokenKind::Opener
    } else {
        TokenKind::Other
    }
}

/// Whether `a` holds exactly the characters of `b`.
fn same_text(a: &String, b: &str) -> (r: bool)
    ensures
        r == (a@ == b@),
{
    let x = a.as_str();
    let n = x.unicode_len();
    if n != b.unicode_len() {
        return false;
    }
    let mut i: usize = 0;
    while i < n
        invariant
            x@ == a@,
            n == a@.len(),
            n == b@.len(),
            i <= n,
            forall|j: int| 0 <= j < i ==> a@[j] == b@[j],
        decreases n - i,
    {
        if x.get_char(i) != b.get_char(i) {
            return false;
        }
        i = i + 1;
    }
    assert(a@ =~= b@);
    true
}

/// The kind of a token, by the lexer's name for its type.
pub fn classify(name: &String) -> (r: TokenKind)
    ensures
        r == kind_of(name@),
{
    if same_text(name, "kCLASS") {
        TokenKind::Class
    } else if same_text(name, "kMODULE") {
        TokenKind::Module
    } else if same_text(name, "kEND") {
        TokenKind::End
    } else if same_text(name, "tCONSTANT") {
        TokenKind::Constant
    } else if same_text(name, "tEQL") {
        TokenKind::Assign
    } else if same_text(name, "kDEF") || same_text(name, "kBEGIN") || same_text(name, "kIF")
        || same_text(name, "kUNLESS") || same_text(name, "kWHILE") || same_text(name, "kUNTIL")
        || same_text(name, "kCASE") || same_text(name, "kFOR") || same_text(name, "kDO")
        || same_text(name, "kDO_BLOCK") || same_text(name, "kDO_LAMBDA") {
        TokenKind::Opener
    } else {
        TokenKind::Other
    }
}

/// Number of line feeds in `s`.
pub open spec fn newlines(s: Seq<u8>) -> nat
    decreases s.len(),
{
    if s.len() == 0 {
        0
    } else {
        newlines(s.drop_last()) + if s.last() == 10u8 { 1nat } else { 0nat }
    }
}

/// Offset just past the last line feed of `s`, or 0 when it has none.
pub open spec fn line_start(s: Seq<u8>) -> nat
    decreases s.len(),
{
    if s.len() == 0 {
        0
    } else if s.last() == 10u8 {
        s.len()
    } else {
        line_start(s.drop_last())
    }
}

proof fn lemma_line_start_bound(s: Seq<u8>)
    ensures
        line_start(s) <= s.len(),
    decreases s.len(),
{
    if s.len() > 0 {
        lemma_line_start_bound(s.drop_last());
    }
}

/// The zero-based line and byte column of offset `pos` in `src`, an offset
/// past the end being taken as the end.
pub open spec fn position_of(src: Seq<u8>, pos: nat) -> (nat, nat) {
    let p = if pos <= src.len() { pos } else { src.len() };
    let pre = src.take(p as int);
    (newlines(pre), (p - line_start(pre)) as nat)
}

/// Line and column of a byte offset.
pub fn line_col(src: &Vec<u8>, pos: usize) -> (r: (usize, usize))
    ensures
        (r.0 as nat, r.1 as nat) == position_of(src@, pos as nat),
{
    let end: usize = if pos <= src.len() { pos } else { src.len() };
    let mut line: usize = 0;
    let mut start: usize = 0;
    let mut i: usize = 0;
    while i < end
        invariant
            end <= src@.len(),
            i <= end,
            line as nat == newlines(src@.take(i as int)),
            start as nat == line_start(src@.take(i as int)),
            start <= i,
            line <= i,
        decreases end - i,
    {
        assert(src@.take(i + 1).drop_last() =~= src@.take(i as int));
        if src[i] == 10u8 {
            line = line + 1;
            start = i + 1;
        }
        i = i + 1;
    }
    proof {
        lemma_line_start_bound(src@.take(end as int));
    }
    (line, i - start)
}

/// The tokens of a source text, each placed at its line and column.
pub open spec fn placed(src: Seq<u8>, lx: RawToken) -> TokView {
    (
        kind_of(lx.0),
        lx.1,
        position_of(src, lx.2).0,
        position_of(src, lx.2).1,
        if lx.2 <= lx.3 { (lx.3 - lx.2) as nat } else { 0 },
    )
}

/// The tokens of `src` parsed under the buffer name `name`, each placed at
/// its line and column.
pub open spec fn placed_tokens(name: Seq<char>, src: Seq<u8>) -> Seq<TokView> {
    ruby_tokens(name, src).map_values(|lx: RawToken| placed(src, lx))
}

/// Parses `src`, placing each token at its line and column and keeping the
/// diagnostics.
pub fn parse(buffer_name: &String, src: Vec<u8>) -> (r: ParsedFile)
    ensures
        token_views(r.tokens@) == placed_tokens(buffer_name@, src@),
        texts(r.diagnostics@) == ruby_parse(buffer_name@, src@).1,
{
    let ghost s = src@;
    let copy = src.clone();
    let lexed = lex_ruby(buffer_name, src);
    let lexemes = lexed.lexemes;
    let mut r: Vec<Token> = Vec::new();
    let mut i: usize = 0;
    while i < lexemes.len()
        invariant
            copy@ == s,
            i <= lexemes@.len(),
            r@.len() == i,
            lexemes@.len() == ruby_tokens(buffer_name@, s).len(),
            forall|j: int|
                0 <= j < lexemes@.len() ==> {
                    let t = #[trigger] lexemes@[j];
                    let u = ruby_tokens(buffer_name@, s)[j];
                    t.name@ == u.0 && t.text@ == u.1 && t.offset as nat == u.2 && t.end as nat == u.3
                },
            forall|j: int|
                0 <= j < i ==> ((#[trigger] r@[j]).kind, r@[j].text@, r@[j].line as nat,
                    r@[j].column as nat, r@[j].width as nat) == placed(
                    s,
                    ruby_tokens(buffer_name@, s)[j],
                ),
        decreases lexemes@.len() - i,
    {
        let lx = &lexemes[i];
        let (line, column) = line_col(&copy, lx.offset);
        let kind = classify(&lx.name);
        let width: usize = if lx.offset <= lx.end { lx.end - lx.offset } else { 0 };
        r.push(Token { kind, text: lx.text.clone(), line, column, width });
        i = i + 1;
    }
    assert(token_views(r@) =~= placed_tokens(buffer_name@, s));
    ParsedFile { tokens: r, diagnostics: lexed.diagnostics }
}

} // verus!
