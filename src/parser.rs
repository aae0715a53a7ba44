use vstd::prelude::*;

use crate::error::PhronError;
use crate::instr::{ops, Function, Op};
use crate::lexer::{views, with_first, with_prefix, Token, TokenView};
use crate::text::{chars_of, same_chars};

verus! {

pub open spec fn is_digit(c: char) -> bool {
    '0' <= c <= '9'
}

/// The number that a string of decimal digits denotes.
pub open spec fn digits_value(d: Seq<char>) -> int
    decreases d.len(),
{
    if d.len() == 0 {
        0
    } else {
        10 * digits_value(d.drop_last()) + (d.last() as int - 48)
    }
}

pub open spec fn all_digits(d: Seq<char>) -> bool {
    forall|k: int| 0 <= k < d.len() ==> is_digit(#[trigger] d[k])
}

/// A token without its leading `+`, if it has one.
pub open spec fn unsigned_part(v: Seq<char>) -> Seq<char> {
    if v.len() > 0 && v[0] == '+' {
        v.drop_first()
    } else {
        v
    }
}

/// The byte that a token denotes, if it is one: an optional `+` and then
/// decimal digits whose value is at most 255.
pub open spec fn byte_literal(v: Seq<char>) -> Option<u8> {
    let d = unsigned_part(v);
    if d.len() > 0 && all_digits(d) && digits_value(d) <= 255 {
        Some(digits_value(d) as u8)
    } else {
        None
    }
}

/// The instruction a keyword stands for.
pub open spec fn keyword(v: Seq<char>) -> Option<Op> {
    if v == "pop"@ {
        Some(Op::Pop)
    } else if v == "+"@ {
        Some(Op::Plus)
    } else if v == "-"@ {
        Some(Op::Minus)
    } else if v == "*"@ {
        Some(Op::Mult)
    } else if v == "chout"@ {
        Some(Op::CharOut)
    } else if v == "numout"@ {
        Some(Op::NumOut)
    } else if v == "write"@ {
        Some(Op::Write)
    } else if v == "read"@ {
        Some(Op::Read)
    } else if v == "mem"@ {
        Some(Op::Mem)
    } else if v == "initmem"@ {
        Some(Op::InitMem)
    } else if v == "if"@ {
        Some(Op::If(None))
    } else if v == "end"@ {
        Some(Op::End(None))
    } else if v == "else"@ {
        Some(Op::Else(None))
    } else if v == "while"@ {
        Some(Op::While(None))
    } else if v == "<"@ {
        Some(Op::LessThan)
    } else if v == ">"@ {
        Some(Op::GreaterThan)
    } else if v == "="@ {
        Some(Op::Equals)
    } else if v == "swap"@ {
        Some(Op::Swap)
    } else if v == "dup"@ {
        Some(Op::Dup)
    } else if v == "?"@ {
        Some(Op::GetStackHeight)
    } else if v == "not"@ {
        Some(Op::Not)
    } else {
        None
    }
}

/// Why parsing stops, with the index of the offending token.
pub enum ParseFault {
    MissingOperand(nat),
    MalformedString(nat),
}

/// The instructions for the tokens from `i` on.
pub open spec fn parse_from(ts: Seq<TokenView>, i: nat) -> Result<Seq<Op>, ParseFault>
    decreases ts.len() - i,
{
    if i >= ts.len() {
        Ok(Seq::empty())
    } else {
        let v = ts[i as int].value;
        match byte_literal(v) {
            Some(b) => with_first(Op::Push(b), parse_from(ts, i + 1)),
            None => match keyword(v) {
                Some(op) => with_first(op, parse_from(ts, i + 1)),
                None => if v == "fn"@ || v == "import"@ {
                    if i + 1 < ts.len() {
                        let name = ts[(i + 1) as int].value;
                        let op = if v == "fn"@ {
                            Op::FunctionDeclaration(name)
                        } else {
                            Op::Import(name)
                        };
                        with_first(op, parse_from(ts, i + 2))
                    } else {
                        Err(ParseFault::MissingOperand(i))
                    }
                } else if v.len() > 0 && v[0] == '"' {
                    if v.len() >= 2 && v.last() == '"' {
                        with_first(
                            Op::StringLiteral(v.subrange(1, v.len() - 1)),
                            parse_from(ts, i + 1),
                        )
                    } else {
                        Err(ParseFault::MalformedString(i))
                    }
                } else {
                    with_first(Op::FunctionCall(v), parse_from(ts, i + 1))
                },
            },
        }
    }
}

/// `e` reports the parse fault `f` at its token.
pub open spec fn reports_parse(e: PhronError, ts: Seq<TokenView>, f: ParseFault) -> bool {
    match f {
        ParseFault::MissingOperand(i) => e matches PhronError::MissingOperand { filepath, row, col }
            && filepath@ == ts[i as int].filepath && row == ts[i as int].row && col
            == ts[i as int].col,
        ParseFault::MalformedString(i) => e matches PhronError::MalformedString {
            filepath,
            row,
            col,
        } && filepath@ == ts[i as int].filepath && row == ts[i as int].row && col
            == ts[i as int].col,
    }
}

fn is_text(v: &Vec<char>, w: &str) -> (r: bool)
    ensures
        r == (v@ == w@),
{
    same_chars(v, &chars_of(w))
}

proof fn lemma_digits_value_nonneg(d: Seq<char>)
    requires
        forall|k: int| 0 <= k < d.len() ==> is_digit(#[trigger] d[k]),
    ensures
        digits_value(d) >= 0,
    decreases d.len(),
{
    if d.len() > 0 {
        lemma_digits_value_nonneg(d.drop_last());
    }
}

proof fn lemma_digits_value_prefix(d: Seq<char>, k: int)
    requires
        0 <= k <= d.len(),
        forall|j: int| 0 <= j < d.len() ==> is_digit(#[trigger] d[j]),
    ensures
        digits_value(d.subrange(0, k)) <= digits_value(d),
    decreases d.len(),
{
    if k < d.len() {
        let e = d.drop_last();
        assert(e.subrange(0, k) =~= d.subrange(0, k));
        lemma_digits_value_prefix(e, k);
        lemma_digits_value_nonneg(e);
    } else {
        assert(d.subrange(0, k) =~= d);
    }
}

/// Reads a byte literal.
pub fn parse_byte(v: &Vec<char>) -> (r: Option<u8>)
    ensures
        r == byte_literal(v@),
{
    let n = v.len();
    let start: usize = if n > 0 && v[0] == '+' {
        1
    } else {
        0
    };
    let ghost d = unsigned_part(v@);
    assert(d =~= v@.subrange(start as int, n as int));
    if start == n {
        return None;
    }
    let mut value: u16 = 0;
    let mut k: usize = start;
    while k < n
        invariant
            start <= k <= n,
            n == v@.len(),
            d == v@.subrange(start as int, n as int),
            d == unsigned_part(v@),
            value as int == digits_value(d.subrange(0, k - start)),
            value <= 255,
            forall|j: int| 0 <= j < k - start ==> is_digit(#[trigger] d[j]),
        decreases n - k,
    {
        let c = v[k];
        assert(d[k - start] == c);
        if c < '0' || c > '9' {
            assert(!is_digit(d[k - start]));
            assert(!(forall|j: int| 0 <= j < d.len() ==> is_digit(#[trigger] d[j])));
            return None;
        }
        let ghost prefix = d.subrange(0, k - start);
        let ghost longer = d.subrange(0, k + 1 - start);
        assert(longer.drop_last() =~= prefix);
        assert(longer.last() == c);
        assert(digits_value(longer) == 10 * digits_value(prefix) + (c as int - 48));
        value = value * 10 + (c as u16 - 48);
        k = k + 1;
        assert(value as int == digits_value(d.subrange(0, k - start)));
        if value > 255 {
            proof {
                if forall|j: int| 0 <= j < d.len() ==> is_digit(#[trigger] d[j]) {
                    lemma_digits_value_prefix(d, k - start);
                }
            }
            return None;
        }
    }
    assert(d.subrange(0, n - start) =~= d);
    Some(value as u8)
}

/// The instruction for a keyword.
pub fn keyword_op(v: &Vec<char>) -> (r: Option<Function>)
    ensures
        match keyword(v@) {
            Some(op) => r is Some && r->Some_0@ == op,
            None => r is None,
        },
{
    if is_text(v, "pop") {
        Some(Function::Pop())
    } else if is_text(v, "+") {
        Some(Function::Plus())
    } else if is_text(v, "-") {
        Some(Function::Minus())
    } else if is_text(v, "*") {
        Some(Function::Mult())
    } else if is_text(v, "chout") {
        Some(Function::CharOut())
    } else if is_text(v, "numout") {
        Some(Function::NumOut())
    } else if is_text(v, "write") {
        Some(Function::Write())
    } else if is_text(v, "read") {
        Some(Function::Read())
    } else if is_text(v, "mem") {
        Some(Function::Mem())
    } else if is_text(v, "initmem") {
        Some(Function::InitMem())
    } else if is_text(v, "if") {
        Some(Function::If(None))
    } else if is_text(v, "end") {
        Some(Function::End(None))
    } else if is_text(v, "else") {
        Some(Function::Else(None))
    } else if is_text(v, "while") {
        Some(Function::While(None))
    } else if is_text(v, "<") {
        Some(Function::LessThan())
    } else if is_text(v, ">") {
        Some(Function::GreaterThan())
    } else if is_text(v, "=") {
        Some(Function::Equals())
    } else if is_text(v, "swap") {
        Some(Function::Swap())
    } else if is_text(v, "dup") {
        Some(Function::Dup())
    } else if is_text(v, "?") {
        Some(Function::GetStackHeight())
    } else if is_text(v, "not") {
        Some(Function::Not())
    } else {
        None
    }
}

/// Turns tokens into the flat instruction stream.
pub fn parse_tokens(tokens: Vec<Token>) -> (r: Result<Vec<Function>, PhronError>)
    ensures
        match parse_from(views(tokens@), 0) {
            Ok(os) => r is Ok && ops(r->Ok_0@) == os,
            Err(f) => r is Err && reports_parse(r->Err_0, views(tokens@), f),
        },
{
    let ghost ts = views(tokens@);
    let n = tokens.len();
    let mut parsed: Vec<Function> = Vec::new();
    let mut i: usize = 0;
    assert(with_prefix(ops(parsed@), parse_from(ts, 0)) == parse_from(ts, 0)) by {
        if let Ok(s) = parse_from(ts, 0) {
            assert(ops(parsed@) + s =~= s);
        }
    }
    while i < n
        invariant
            n == tokens@.len(),
            ts == views(tokens@),
            i <= n,
            parse_from(ts, 0) == with_prefix(ops(parsed@), parse_from(ts, i as nat)),
        decreases n - i,
    {
        let token = &tokens[i];
        assert(ts[i as int] == token@);
        let v = chars_of(token.value.as_str());
        let ghost before = ops(parsed@);
        let next: usize;
        let f = match parse_byte(&v) {
            Some(b) => {
                next = i + 1;
                Function::Push(b)
            },
            None => match keyword_op(&v) {
                Some(f) => {
                    next = i + 1;
                    f
                },
                None => {
                    if is_text(&v, "fn") || is_text(&v, "import") {
                        if i + 1 < n {
                            let name = tokens[i + 1].value.clone();
                            assert(ts[i + 1] == tokens@[i + 1]@);
                            next = i + 2;
                            if is_text(&v, "fn") {
                                Function::FunctionDeclaration(name)
                            } else {
                                Function::Import(name)
                            }
                        } else {
                            return Err(
                                PhronError::MissingOperand {
                                    filepath: token.filepath.clone(),
                                    row: token.row,
                                    col: token.col,
                                },
                            );
                        }
                    } else if v.len() > 0 && v[0] == '"' {
                        if v.len() >= 2 && v[v.len() - 1] == '"' {
                            let inner = token.value.as_str().substring_char(1, v.len() - 1);
                            next = i + 1;
                            Function::StringLiteral(inner.to_owned())
                        } else {
                            return Err(
                                PhronError::MalformedString {
                                    filepath: token.filepath.clone(),
                                    row: token.row,
                                    col: token.col,
                                },
                            );
                        }
                    } else {
                        next = i + 1;
                        Function::FunctionCall(token.value.clone())
                    }
                },
            },
        };
        let ghost fv = f@;
        parsed.push(f);
        proof {
            assert(ops(parsed@) =~= before.push(fv));
            match parse_from(ts, next as nat) {
                Ok(rest) => {
                    assert(before + (seq![fv] + rest) =~= before.push(fv) + rest);
                },
                Err(_) => {},
            }
        }
        i = next;
    }
    proof {
        assert(ops(parsed@) + Seq::<Op>::empty() =~= ops(parsed@));
    }
    Ok(parsed)
}

} // verus!
