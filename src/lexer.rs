use vstd::prelude::*;

use crate::error::PhronError;
use crate::text::chars_of;

verus! {

/// A lexeme with the place it was read from. `row` and `col` count from 1.
#[derive(Debug)]
pub struct Token {
    pub filepath: String,
    pub row: usize,
    pub col: usize,
    pub value: String,
}

/// A token as values.
pub struct TokenView {
    pub filepath: Seq<char>,
    pub row: nat,
    pub col: nat,
    pub value: Seq<char>,
}

impl View for Token {
    type V = TokenView;

    open spec fn view(&self) -> TokenView {
        TokenView {
            filepath: self.filepath@,
            row: self.row as nat,
            col: self.col as nat,
            value: self.value@,
        }
    }
}

pub open spec fn views(ts: Seq<Token>) -> Seq<TokenView> {
    ts.map_values(|t: Token| t@)
}

impl Token {
    pub fn new(filepath: &str, row: usize, col: usize, value: &str) -> (r: Token)
        ensures
            r@ == (TokenView { filepath: filepath@, row: row as nat, col: col as nat, value: value@ }),
    {
        Token { filepath: filepath.to_owned(), row, col, value: value.to_owned() }
    }

    /// A copy of the token.
    pub fn duplicate(&self) -> (r: Token)
        ensures
            r@ == self@,
    {
        Token {
            filepath: self.filepath.clone(),
            row: self.row,
            col: self.col,
            value: self.value.clone(),
        }
    }
}

/// Unicode white space (the `White_Space` property).
pub open spec fn is_white(c: char) -> bool {
    let u = c as u32;
    ||| 9 <= u <= 13
    ||| u == 32
    ||| u == 0x85
    ||| u == 0xA0
    ||| u == 0x1680
    ||| 0x2000 <= u <= 0x200A
    ||| u == 0x2028
    ||| u == 0x2029
    ||| u == 0x202F
    ||| u == 0x205F
    ||| u == 0x3000
}

pub fn is_white_char(c: char) -> (r: bool)
    ensures
        r == is_white(c),
{
    let u = c as u32;
    (9 <= u && u <= 13) || u == 32 || u == 0x85 || u == 0xA0 || u == 0x1680 || (0x2000 <= u && u
        <= 0x200A) || u == 0x2028 || u == 0x2029 || u == 0x202F || u == 0x205F || u == 0x3000
}

/// The first position from `i` on that is white space or the end.
pub open spec fn word_end(line: Seq<char>, i: nat) -> nat
    decreases line.len() - i,
{
    if i >= line.len() || is_white(line[i as int]) {
        i
    } else {
        word_end(line, i + 1)
    }
}

/// The first position from `i` on that holds a double quote, if any.
pub open spec fn quote_end(line: Seq<char>, i: nat) -> Option<nat>
    decreases line.len() - i,
{
    if i >= line.len() {
        None
    } else if line[i as int] == '"' {
        Some(i)
    } else {
        quote_end(line, i + 1)
    }
}

pub proof fn lemma_word_end(line: Seq<char>, i: nat)
    requires
        i <= line.len(),
    ensures
        i <= word_end(line, i) <= line.len(),
    decreases line.len() - i,
{
    if i < line.len() && !is_white(line[i as int]) {
        lemma_word_end(line, i + 1);
    }
}

pub proof fn lemma_quote_end(line: Seq<char>, i: nat)
    ensures
        quote_end(line, i) matches Some(j) ==> i <= j < line.len() && line[j as int] == '"',
    decreases line.len() - i,
{
    if i < line.len() && line[i as int] != '"' {
        lemma_quote_end(line, i + 1);
    }
}

pub open spec fn with_first<T, E>(t: T, r: Result<Seq<T>, E>) -> Result<Seq<T>, E> {
    match r {
        Ok(rest) => Ok(seq![t] + rest),
        Err(e) => Err(e),
    }
}

pub open spec fn with_prefix<T, E>(p: Seq<T>, r: Result<Seq<T>, E>) -> Result<Seq<T>, E> {
    match r {
        Ok(rest) => Ok(p + rest),
        Err(e) => Err(e),
    }
}

/// The lexemes of a line from position `i` on, each with its 0-based start;
/// or the start of a string literal that the line leaves open.
pub open spec fn scan_line(line: Seq<char>, i: nat) -> Result<Seq<(nat, Seq<char>)>, nat>
    decreases line.len() - i,
{
    if i >= line.len() {
        Ok(Seq::empty())
    } else if is_white(line[i as int]) {
        scan_line(line, i + 1)
    } else if line[i as int] == '/' && i + 1 < line.len() && line[(i + 1) as int] == '/' {
        Ok(Seq::empty())
    } else if line[i as int] == '"' {
        match quote_end(line, i + 1) {
            None => Err(i),
            Some(j) => {
                proof {
                    lemma_quote_end(line, i + 1);
                }
                with_first((i, line.subrange(i as int, (j + 1) as int)), scan_line(line, j + 1))
            },
        }
    } else {
        let j = word_end(line, i + 1);
        proof {
            lemma_word_end(line, i + 1);
        }
        with_first((i, line.subrange(i as int, j as int)), scan_line(line, j))
    }
}

/// The tokens of line `row`, or the column of an unterminated string.
pub open spec fn lex_line(filepath: Seq<char>, row: nat, line: Seq<char>) -> Result<Seq<TokenView>, nat> {
    match scan_line(line, 0) {
        Ok(lexemes) => Ok(
            lexemes.map_values(
                |l: (nat, Seq<char>)|
                    TokenView { filepath, row, col: l.0 + 1, value: l.1 },
            ),
        ),
        Err(start) => Err(start + 1),
    }
}

/// `e` reports an unterminated string at the given place.
pub open spec fn is_lex_error(e: PhronError, filepath: Seq<char>, row: nat, col: nat) -> bool {
    e matches PhronError::UnterminatedString { filepath: f, row: r, col: c } && f@ == filepath
        && r == row && c == col
}

fn find_word_end(line: &Vec<char>, i: usize) -> (j: usize)
    requires
        i <= line@.len(),
    ensures
        j == word_end(line@, i as nat),
{
    let mut j = i;
    while j < line.len() && !is_white_char(line[j])
        invariant
            i <= j <= line@.len(),
            word_end(line@, j as nat) == word_end(line@, i as nat),
        decreases line@.len() - j,
    {
        j = j + 1;
    }
    j
}

fn find_quote(line: &Vec<char>, i: usize) -> (r: Option<usize>)
    requires
        i <= line@.len(),
    ensures
        match r {
            Some(j) => quote_end(line@, i as nat) == Some(j as nat),
            None => quote_end(line@, i as nat) is None,
        },
{
    let mut j = i;
    while j < line.len()
        invariant
            i <= j <= line@.len(),
            quote_end(line@, j as nat) == quote_end(line@, i as nat),
        decreases line@.len() - j,
    {
        if line[j] == '"' {
            return Some(j);
        }
        j = j + 1;
    }
    None
}

/// Splits one line into tokens.
pub fn tokenize_line(filepath: &str, line_number: usize, source: &str) -> (r: Result<
    Vec<Token>,
    PhronError,
>)
    ensures
        match lex_line(filepath@, line_number as nat, source@) {
            Ok(ts) => r is Ok && views(r->Ok_0@) == ts,
            Err(col) => r is Err && is_lex_error(r->Err_0, filepath@, line_number as nat, col),
        },
{
    let line = chars_of(source);
    let n = line.len();
    let ghost l = line@;
    let ghost mut lexemes: Seq<(nat, Seq<char>)> = Seq::empty();
    let ghost row = line_number as nat;
    let ghost fp = filepath@;
    let mut tokens: Vec<Token> = Vec::new();
    let mut i: usize = 0;
    assert(with_prefix(lexemes, scan_line(l, 0)) == scan_line(l, 0)) by {
        if let Ok(s) = scan_line(l, 0) {
            assert(lexemes + s =~= s);
        }
    }
    while i < n
        invariant
            n == l.len(),
            l == source@,
            line@ == l,
            i <= n,
            scan_line(l, 0) == with_prefix(lexemes, scan_line(l, i as nat)),
            views(tokens@) == lexemes.map_values(
                |x: (nat, Seq<char>)| TokenView { filepath: fp, row, col: x.0 + 1, value: x.1 },
            ),
            fp == filepath@,
            row == line_number as nat,
        decreases n - i,
    {
        let c = line[i];
        if is_white_char(c) {
            i = i + 1;
        } else if c == '/' && i + 1 < n && line[i + 1] == '/' {
            assert(lexemes + Seq::<(nat, Seq<char>)>::empty() =~= lexemes);
            return Ok(tokens);
        } else {
            let ghost prev = lexemes;
            let end: usize;
            let next: usize;
            if c == '"' {
                match find_quote(&line, i + 1) {
                    None => {
                        return Err(
                            PhronError::UnterminatedString {
                                filepath: filepath.to_owned(),
                                row: line_number,
                                col: i + 1,
                            },
                        );
                    },
                    Some(j) => {
                        proof {
                            lemma_quote_end(l, (i + 1) as nat);
                        }
                        end = j + 1;
                        next = j + 1;
                    },
                }
            } else {
                let j = find_word_end(&line, i + 1);
                proof {
                    lemma_word_end(l, (i + 1) as nat);
                }
                end = j;
                next = j;
            }
            let value = source.substring_char(i, end);
            let t = Token::new(filepath, line_number, i + 1, value);
            let ghost old_tokens = tokens@;
            let ghost tv = t@;
            tokens.push(t);
            proof {
                let lex = (i as nat, l.subrange(i as int, end as int));
                let f = |x: (nat, Seq<char>)| TokenView { filepath: fp, row, col: x.0 + 1, value: x.1 };
                assert(views(tokens@) =~= views(old_tokens).push(tv));
                assert(prev.push(lex).map_values(f) =~= prev.map_values(f).push(f(lex)));
                lexemes = lexemes.push(lex);
                match scan_line(l, next as nat) {
                    Ok(rest) => {
                        assert(prev + (seq![lex] + rest) =~= lexemes + rest);
                    },
                    Err(_) => {},
                }
                assert(views(tokens@) =~= lexemes.map_values(
                    |x: (nat, Seq<char>)| TokenView { filepath: fp, row, col: x.0 + 1, value: x.1 },
                ));
            }
            i = next;
        }
    }
    proof {
        if let Ok(s) = scan_line(l, i as nat) {
            assert(s =~= Seq::<(nat, Seq<char>)>::empty());
            assert(lexemes + s =~= lexemes);
        }
    }
    Ok(tokens)
}

} // verus!

verus! {

/// The first position from `i` on that holds a line feed, or the end.
pub open spec fn line_end(s: Seq<char>, i: nat) -> nat
    decreases s.len() - i,
{
    if i >= s.len() || s[i as int] == '\n' {
        i
    } else {
        line_end(s, i + 1)
    }
}

pub proof fn lemma_line_end(s: Seq<char>, i: nat)
    ensures
        i <= line_end(s, i),
        i <= s.len() ==> line_end(s, i) <= s.len(),
    decreases s.len() - i,
{
    if i < s.len() && s[i as int] != '\n' {
        lemma_line_end(s, i + 1);
    }
}

/// The tokens of the text from `start` on, whose first line is number
/// `row`; or the row and column of the first unterminated string.
pub open spec fn lex_lines(filepath: Seq<char>, s: Seq<char>, start: nat, row: nat) -> Result<
    Seq<TokenView>,
    (nat, nat),
>
    decreases s.len() - start,
{
    let e = line_end(s, start);
    match lex_line(filepath, row, s.subrange(start as int, e as int)) {
        Err(col) => Err((row, col)),
        Ok(ts) => if e >= s.len() {
            Ok(ts)
        } else {
            proof {
                lemma_line_end(s, start);
            }
            with_prefix(ts, lex_lines(filepath, s, e + 1, row + 1))
        },
    }
}

/// The tokens of a whole source text, lines counted from 1.
pub open spec fn lex_source(filepath: Seq<char>, s: Seq<char>) -> Result<Seq<TokenView>, (nat, nat)> {
    lex_lines(filepath, s, 0, 1)
}

fn find_line_end(s: &Vec<char>, i: usize) -> (j: usize)
    requires
        i <= s@.len(),
    ensures
        j == line_end(s@, i as nat),
{
    let mut j = i;
    while j < s.len() && s[j] != '\n'
        invariant
            i <= j <= s@.len(),
            line_end(s@, j as nat) == line_end(s@, i as nat),
        decreases s@.len() - j,
    {
        j = j + 1;
    }
    j
}

/// Splits a whole source text into tokens, line by line.
pub fn tokenize_source_code(filepath: &str, source: &String) -> (r: Result<Vec<Token>, PhronError>)
    ensures
        match lex_source(filepath@, source@) {
            Ok(ts) => r is Ok && views(r->Ok_0@) == ts,
            Err((row, col)) => r is Err && is_lex_error(r->Err_0, filepath@, row, col),
        },
{
    let text = source.as_str();
    let chars = chars_of(text);
    let n = chars.len();
    let ghost s = source@;
    let ghost fp = filepath@;
    let mut tokens: Vec<Token> = Vec::new();
    let mut start: usize = 0;
    let mut idx: usize = 0;
    assert(with_prefix(views(tokens@), lex_lines(fp, s, 0, 1)) == lex_source(fp, s)) by {
        if let Ok(ts) = lex_lines(fp, s, 0, 1) {
            assert(views(tokens@) + ts =~= ts);
        }
    }
    loop
        invariant
            chars@ == s,
            s == source@,
            text@ == s,
            fp == filepath@,
            n == s.len(),
            start <= n,
            idx <= start,
            lex_source(fp, s) == with_prefix(
                views(tokens@),
                lex_lines(fp, s, start as nat, idx as nat + 1),
            ),
        decreases n - start,
    {
        let e = find_line_end(&chars, start);
        proof {
            lemma_line_end(s, start as nat);
        }
        let ghost row = idx as nat + 1;
        let ghost before = views(tokens@);
        let ghost line = s.subrange(start as int, e as int);
        if start < e {
            let piece = text.substring_char(start, e);
            let mut found = match tokenize_line(filepath, idx + 1, piece) {
                Ok(ts) => ts,
                Err(err) => {
                    return Err(err);
                },
            };
            let ghost added = views(found@);
            tokens.append(&mut found);
            assert(views(tokens@) =~= before + added);
        } else {
            assert(line =~= Seq::<char>::empty());
            assert(scan_line(line, 0) == Ok::<Seq<(nat, Seq<char>)>, nat>(Seq::empty()));
            assert(views(tokens@) =~= before + Seq::<TokenView>::empty());
        }
        if e >= n {
            proof {
                if let Ok(ts) = lex_line(fp, row, line) {
                    assert(views(tokens@) == before + ts);
                }
            }
            return Ok(tokens);
        }
        proof {
            if let Ok(ts) = lex_line(fp, row, line) {
                match lex_lines(fp, s, (e + 1) as nat, row + 1) {
                    Ok(rest) => {
                        assert(before + (ts + rest) =~= (before + ts) + rest);
                    },
                    Err(_) => {},
                }
            }
        }
        start = e + 1;
        idx = idx + 1;
    }
}

} // verus!

verus! {

/// A lexer over one source text that hands out its tokens one at a time.
pub struct Lexer {
    pub source_code: String,
    /// How many tokens were handed out.
    pub cursor: usize,
    pub tokens: Vec<Token>,
}

impl Lexer {
    /// The tokens not handed out yet.
    pub open spec fn pending(&self) -> Seq<TokenView> {
        if self.cursor <= self.tokens@.len() {
            views(self.tokens@).skip(self.cursor as int)
        } else {
            Seq::empty()
        }
    }

    pub fn new(source_code: String) -> (r: Lexer)
        ensures
            r.source_code == source_code,
            r.pending() == Seq::<TokenView>::empty(),
    {
        let r = Lexer { source_code, cursor: 0, tokens: Vec::new() };
        assert(views(r.tokens@).skip(0) =~= Seq::<TokenView>::empty());
        r
    }

    /// Splits the source text into tokens (with an empty file path) and
    /// makes them the pending ones.
    pub fn tokenize(&mut self) -> (r: Result<(), PhronError>)
        ensures
            final(self).source_code == old(self).source_code,
            match lex_source(""@, old(self).source_code@) {
                Ok(ts) => r is Ok && final(self).pending() == ts,
                Err((row, col)) => r is Err && is_lex_error(r->Err_0, ""@, row, col)
                    && final(self).pending() == old(self).pending(),
            },
    {
        match tokenize_source_code("", &self.source_code) {
            Ok(ts) => {
                self.tokens = ts;
                self.cursor = 0;
                assert(views(self.tokens@).skip(0) =~= views(self.tokens@));
                Ok(())
            },
            Err(e) => Err(e),
        }
    }

    /// The next pending token, if any.
    pub fn next_token(&mut self) -> (r: Option<Token>)
        ensures
            final(self).source_code == old(self).source_code,
            old(self).pending().len() > 0 ==> r is Some && r->Some_0@ == old(self).pending()[0]
                && final(self).pending() == old(self).pending().drop_first(),
            old(self).pending().len() == 0 ==> r is None && final(self).pending() == old(
                self,
            ).pending(),
    {
        if self.cursor < self.tokens.len() {
            let t = self.tokens[self.cursor].duplicate();
            let ghost before = views(self.tokens@).skip(self.cursor as int);
            self.cursor = self.cursor + 1;
            assert(views(self.tokens@).skip(self.cursor as int) =~= before.drop_first());
            Some(t)
        } else {
            None
        }
    }
}

} // verus!
