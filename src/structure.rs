use vstd::prelude::*;

use std::collections::VecDeque;

use crate::blocks::{reports_unmatched, Block};
use crate::error::PhronError;
use crate::instr::{ops, Function, Op};
use crate::program::{entry_views, names, Program};

verus! {

/// The state of the structuring scan.
pub struct Layout {
    /// Open blocks, innermost last.
    pub open: Seq<Block>,
    /// The function being read.
    pub name: Seq<char>,
    /// Its instructions so far.
    pub body: Seq<Op>,
    /// Finished definitions, in order.
    pub functions: Seq<(Seq<char>, Seq<Op>)>,
    pub imports: Seq<Seq<char>>,
}

pub open spec fn empty_layout() -> Layout {
    Layout {
        open: Seq::empty(),
        name: Seq::empty(),
        body: Seq::empty(),
        functions: Seq::empty(),
        imports: Seq::empty(),
    }
}

/// `op` goes into the current body, and `kinds` replaces the open blocks.
pub open spec fn emit(st: Layout, op: Op, open: Seq<Block>) -> Layout {
    Layout { open, body: st.body.push(op), ..st }
}

/// Structuring from instruction `i` on: the finished layout, or the index
/// of a mismatched delimiter (the stream's length when something is left
/// open).
pub open spec fn layout_from(os: Seq<Op>, i: nat, st: Layout) -> Result<Layout, nat>
    decreases os.len() - i,
{
    if i >= os.len() {
        if st.open.len() == 0 {
            Ok(st)
        } else {
            Err(os.len())
        }
    } else {
        let op = os[i as int];
        match op {
            Op::Import(p) => layout_from(os, i + 1, Layout { imports: st.imports.push(p), ..st }),
            Op::FunctionDeclaration(n) => if st.open.len() == 0 {
                layout_from(os, i + 1, Layout { open: seq![Block::Function], name: n, ..st })
            } else {
                Err(i)
            },
            Op::If(_) => layout_from(os, i + 1, emit(st, op, st.open.push(Block::If))),
            Op::While(_) => layout_from(os, i + 1, emit(st, op, st.open.push(Block::While))),
            Op::Else(_) => if st.open.len() > 0 && st.open.last() == Block::If {
                layout_from(os, i + 1, emit(st, op, st.open.push(Block::Else)))
            } else {
                Err(i)
            },
            Op::End(_) => if st.open.len() == 0 {
                Err(i)
            } else {
                match st.open.last() {
                    Block::Function => layout_from(
                        os,
                        i + 1,
                        Layout {
                            open: st.open.drop_last(),
                            name: Seq::empty(),
                            body: Seq::empty(),
                            functions: st.functions.push((st.name, st.body)),
                            ..st
                        },
                    ),
                    Block::Else => if st.open.len() >= 2 {
                        layout_from(os, i + 1, emit(st, op, st.open.drop_last().drop_last()))
                    } else {
                        Err(i)
                    },
                    _ => layout_from(os, i + 1, emit(st, op, st.open.drop_last())),
                }
            },
            _ => layout_from(os, i + 1, emit(st, op, st.open)),
        }
    }
}

/// Groups a flat instruction stream into named functions and collects the
/// imports.
pub fn parse_program_structure(parsed_tokens: Vec<Function>) -> (r: Result<Program, PhronError>)
    ensures
        match layout_from(ops(parsed_tokens@), 0, empty_layout()) {
            Ok(st) => r is Ok && entry_views(r->Ok_0.functions@) == st.functions
                && r->Ok_0.imports_view() == st.imports,
            Err(i) => r is Err && reports_unmatched(r->Err_0, i),
        },
{
    let ghost os = ops(parsed_tokens@);
    let n = parsed_tokens.len();
    let mut open: Vec<Block> = Vec::new();
    let mut name = String::new();
    let mut body: Vec<Function> = Vec::new();
    let mut functions: Vec<(String, Vec<Function>)> = Vec::new();
    let mut imports: VecDeque<String> = VecDeque::new();
    let mut i: usize = 0;
    proof {
        assert(ops(body@) =~= Seq::<Op>::empty());
        assert(entry_views(functions@) =~= Seq::<(Seq<char>, Seq<Op>)>::empty());
        assert(names(imports@) =~= Seq::<Seq<char>>::empty());
        assert(open@ =~= Seq::<Block>::empty());
    }
    while i < n
        invariant
            n == parsed_tokens@.len(),
            os == ops(parsed_tokens@),
            i <= n,
            layout_from(os, 0, empty_layout()) == layout_from(
                os,
                i as nat,
                Layout {
                    open: open@,
                    name: name@,
                    body: ops(body@),
                    functions: entry_views(functions@),
                    imports: names(imports@),
                },
            ),
        decreases n - i,
    {
        let ghost st = Layout {
            open: open@,
            name: name@,
            body: ops(body@),
            functions: entry_views(functions@),
            imports: names(imports@),
        };
        let op = &parsed_tokens[i];
        assert(os[i as int] == op@);
        match op {
            Function::Import(p) => {
                imports.push_back(p.clone());
                assert(names(imports@) =~= st.imports.push(p@));
            },
            Function::FunctionDeclaration(f) => {
                if open.len() > 0 {
                    return Err(PhronError::UnmatchedBlock { index: i });
                }
                open.push(Block::Function);
                name = f.clone();
                assert(open@ =~= seq![Block::Function]);
            },
            Function::If(_) | Function::While(_) | Function::Else(_) => {
                let kind = match op {
                    Function::If(_) => Block::If,
                    Function::While(_) => Block::While,
                    _ => Block::Else,
                };
                if matches!(kind, Block::Else) {
                    let m = open.len();
                    if m == 0 {
                        return Err(PhronError::UnmatchedBlock { index: i });
                    }
                    match open[m - 1] {
                        Block::If => {},
                        _ => {
                            return Err(PhronError::UnmatchedBlock { index: i });
                        },
                    }
                }
                open.push(kind);
                body.push(op.duplicate());
                assert(ops(body@) =~= st.body.push(op@));
            },
            Function::End(_) => {
                let m = open.len();
                if m == 0 {
                    return Err(PhronError::UnmatchedBlock { index: i });
                }
                let kind = open[m - 1];
                match kind {
                    Block::Function => {
                        open.pop();
                        let done = (name, body);
                        functions.push(done);
                        name = String::new();
                        body = Vec::new();
                        assert(entry_views(functions@) =~= st.functions.push((st.name, st.body)));
                        assert(ops(body@) =~= Seq::<Op>::empty());
                    },
                    Block::Else => {
                        if m < 2 {
                            return Err(PhronError::UnmatchedBlock { index: i });
                        }
                        open.pop();
                        open.pop();
                        body.push(op.duplicate());
                        assert(ops(body@) =~= st.body.push(op@));
                    },
                    _ => {
                        open.pop();
                        body.push(op.duplicate());
                        assert(ops(body@) =~= st.body.push(op@));
                    },
                }
            },
            _ => {
                body.push(op.duplicate());
                assert(ops(body@) =~= st.body.push(op@));
            },
        }
        i = i + 1;
    }
    if open.len() > 0 {
        return Err(PhronError::UnmatchedBlock { index: n });
    }
    Ok(Program::new(imports, functions))
}

} // verus!
