use vstd::prelude::*;

use crate::error::PhronError;
use crate::instr::{ops, Function, Op};

verus! {

/// The kind of an open block.
#[derive(Debug, Clone, Copy, PartialEq, Eq)]
pub enum Block {
    If,
    Else,
    While,
    Function,
}

/// The body with instruction `k` replaced, when `k` is an index of it.
pub open spec fn patch(b: Seq<Op>, k: nat, op: Op) -> Seq<Op> {
    if k < b.len() {
        b.update(k as int, op)
    } else {
        b
    }
}

/// Block resolution from instruction `i` on, with `open` holding the open
/// blocks (index of the opener, kind); the result is the body with every
/// `if`, `else`, `while` and `end` given its jump target, or the index of a
/// mismatched delimiter (the body's length when a block is left open).
pub open spec fn resolve_from(b: Seq<Op>, i: nat, open: Seq<(nat, Block)>) -> Result<Seq<Op>, nat>
    decreases b.len() - i,
{
    if i >= b.len() {
        if open.len() == 0 {
            Ok(b)
        } else {
            Err(b.len())
        }
    } else {
        match b[i as int] {
            Op::If(_) => resolve_from(b, i + 1, open.push((i, Block::If))),
            Op::While(_) => resolve_from(b, i + 1, open.push((i, Block::While))),
            Op::Else(_) => if open.len() > 0 && open.last().1 == Block::If {
                let k = open.last().0;
                resolve_from(
                    patch(b, k, Op::If(Some((i + 1) as usize))),
                    i + 1,
                    open.push((i, Block::Else)),
                )
            } else {
                Err(i)
            },
            Op::End(_) => if open.len() == 0 {
                Err(i)
            } else {
                let k = open.last().0;
                match open.last().1 {
                    Block::If => resolve_from(
                        patch(patch(b, k, Op::If(Some(i as usize))), i, Op::End(Some((i + 1) as usize))),
                        i + 1,
                        open.drop_last(),
                    ),
                    Block::Else => resolve_from(
                        patch(patch(b, k, Op::Else(Some(i as usize))), i, Op::End(Some((i + 1) as usize))),
                        i + 1,
                        open.drop_last().drop_last(),
                    ),
                    Block::While => resolve_from(
                        patch(patch(b, k, Op::While(Some((i + 1) as usize))), i, Op::End(Some(k as usize))),
                        i + 1,
                        open.drop_last(),
                    ),
                    Block::Function => Err(i),
                }
            },
            _ => resolve_from(b, i + 1, open),
        }
    }
}

/// The body with its jump targets resolved.
pub open spec fn resolve(b: Seq<Op>) -> Result<Seq<Op>, nat> {
    resolve_from(b, 0, Seq::empty())
}

/// `e` reports a mismatched delimiter at instruction `i`.
pub open spec fn reports_unmatched(e: PhronError, i: nat) -> bool {
    e matches PhronError::UnmatchedBlock { index } && index == i
}

pub open spec fn open_view(open: Seq<(usize, Block)>) -> Seq<(nat, Block)> {
    open.map_values(|e: (usize, Block)| (e.0 as nat, e.1))
}

/// Fills in the jump targets of a function body's block instructions.
pub fn create_references_for_blocks(parsed_tokens: &mut Vec<Function>) -> (r: Result<(), PhronError>)
    ensures
        match resolve(ops(old(parsed_tokens)@)) {
            Ok(b) => r is Ok && ops(final(parsed_tokens)@) == b,
            Err(i) => r is Err && reports_unmatched(r->Err_0, i),
        },
        r is Ok ==> targets_resolved(ops(final(parsed_tokens)@)),
{
    let n = parsed_tokens.len();
    proof {
        lemma_inv_start(ops(parsed_tokens@));
    }
    let mut open: Vec<(usize, Block)> = Vec::new();
    let mut i: usize = 0;
    assert(open_view(open@) =~= Seq::<(nat, Block)>::empty());
    while i < n
        invariant
            n == parsed_tokens@.len(),
            i <= n,
            forall|j: int| 0 <= j < open@.len() ==> #[trigger] open@[j].0 < i,
            forall|j: int| 0 <= j < open@.len() && #[trigger] open@[j].1 == Block::Else ==> j > 0,
            resolve(ops(old(parsed_tokens)@)) == resolve_from(
                ops(parsed_tokens@),
                i as nat,
                open_view(open@),
            ),
            resolution_inv(ops(parsed_tokens@), open@, i as int),
        decreases n - i,
    {
        let ghost cur = ops(parsed_tokens@);
        let ghost ov = open_view(open@);
        let ghost os = open@;
        assert(cur[i as int] == parsed_tokens@[i as int]@);
        match parsed_tokens[i] {
            Function::If(_) => {
                open.push((i, Block::If));
                assert(open_view(open@) =~= ov.push((i as nat, Block::If)));
                proof {
                    lemma_inv_open(cur, os, i as int, Block::If);
                }
            },
            Function::While(_) => {
                open.push((i, Block::While));
                assert(open_view(open@) =~= ov.push((i as nat, Block::While)));
                proof {
                    lemma_inv_open(cur, os, i as int, Block::While);
                }
            },
            Function::Else(_) => {
                let m = open.len();
                if m == 0 {
                    return Err(PhronError::UnmatchedBlock { index: i });
                }
                let (k, kind) = open[m - 1];
                assert(ov.last() == (k as nat, kind));
                match kind {
                    Block::If => {},
                    _ => {
                        return Err(PhronError::UnmatchedBlock { index: i });
                    },
                }
                parsed_tokens.set(k, Function::If(Some(i + 1)));
                open.push((i, Block::Else));
                assert(open_view(open@) =~= ov.push((i as nat, Block::Else)));
                assert(ops(parsed_tokens@) =~= patch(cur, k as nat, Op::If(Some((i + 1) as usize))));
                proof {
                    assert(os.last() == (k, kind));
                    lemma_top_leaves(cur, os, i as int);
                    let op = Op::If(Some((i + 1) as usize));
                    lemma_inv_retarget(cur, os, i as int, op);
                    lemma_inv_open(cur.update(k as int, op), os, i as int, Block::Else);
                }
            },
            Function::End(_) => {
                let m = open.len();
                if m == 0 {
                    return Err(PhronError::UnmatchedBlock { index: i });
                }
                let (k, kind) = open[m - 1];
                assert(ov.last() == (k as nat, kind));
                match kind {
                    Block::If => {
                        parsed_tokens.set(k, Function::If(Some(i)));
                        parsed_tokens.set(i, Function::End(Some(i + 1)));
                        open.pop();
                        assert(open_view(open@) =~= ov.drop_last());
                        assert(ops(parsed_tokens@) =~= patch(patch(cur, k as nat, Op::If(Some(i))), i as nat, Op::End(Some((i + 1) as usize))));
                        proof {
                            assert(os.last() == (k, kind));
                            lemma_top_leaves(cur, os, i as int);
                            let op = Op::If(Some(i));
                            lemma_inv_retarget(cur, os, i as int, op);
                            let b1 = cur.update(k as int, op);
                            lemma_inv_drop(b1, os, i as int);
                            lemma_inv_settle(b1, os.drop_last(), i as int, Op::End(Some((i + 1) as usize)));
                        }
                    },
                    Block::Else => {
                        parsed_tokens.set(k, Function::Else(Some(i)));
                        parsed_tokens.set(i, Function::End(Some(i + 1)));
                        open.pop();
                        open.pop();
                        assert(open_view(open@) =~= ov.drop_last().drop_last());
                        assert(ops(parsed_tokens@) =~= patch(patch(cur, k as nat, Op::Else(Some(i))), i as nat, Op::End(Some((i + 1) as usize))));
                        proof {
                            assert(os.last() == (k, kind));
                            lemma_top_leaves(cur, os, i as int);
                            lemma_else_partner(cur, os, i as int);
                            let op = Op::Else(Some(i));
                            lemma_inv_retarget(cur, os, i as int, op);
                            let b1 = cur.update(k as int, op);
                            lemma_inv_drop(b1, os, i as int);
                            let o2 = os.drop_last();
                            assert(o2.last() == os[os.len() - 2]);
                            lemma_inv_drop(b1, o2, i as int);
                            assert(open@ =~= o2.drop_last());
                            lemma_inv_settle(b1, o2.drop_last(), i as int, Op::End(Some((i + 1) as usize)));
                        }
                    },
                    Block::While => {
                        parsed_tokens.set(k, Function::While(Some(i + 1)));
                        parsed_tokens.set(i, Function::End(Some(k)));
                        open.pop();
                        assert(open_view(open@) =~= ov.drop_last());
                        assert(ops(parsed_tokens@) =~= patch(patch(cur, k as nat, Op::While(Some((i + 1) as usize))), i as nat, Op::End(Some(k))));
                        proof {
                            assert(os.last() == (k, kind));
                            lemma_top_leaves(cur, os, i as int);
                            let op = Op::While(Some((i + 1) as usize));
                            lemma_inv_retarget(cur, os, i as int, op);
                            let b1 = cur.update(k as int, op);
                            lemma_inv_drop(b1, os, i as int);
                            lemma_inv_settle(b1, os.drop_last(), i as int, Op::End(Some(k)));
                        }
                    },
                    Block::Function => {
                        return Err(PhronError::UnmatchedBlock { index: i });
                    },
                }
            },
            _ => {
                proof {
                    lemma_inv_plain(cur, os, i as int);
                }
            },
        }
        i = i + 1;
    }
    if open.len() > 0 {
        return Err(PhronError::UnmatchedBlock { index: n });
    }
    proof {
        lemma_inv_done(ops(parsed_tokens@), open@);
    }
    assert(open_view(open@) =~= Seq::<(nat, Block)>::empty());
    Ok(())
}

} // verus!

verus! {

/// The jump target of a block instruction.
pub open spec fn target_of(op: Op) -> Option<usize> {
    match op {
        Op::If(t) | Op::Else(t) | Op::End(t) | Op::While(t) => t,
        _ => None,
    }
}

pub open spec fn is_block(op: Op) -> bool {
    op is If || op is Else || op is End || op is While
}

/// Every block instruction has a target within the body (at most its
/// length), and every `end` jumps either to the instruction right after it
/// or back to a `while` whose exit is right after this `end`.
pub open spec fn targets_resolved(b: Seq<Op>) -> bool {
    &&& forall|k: int|
        0 <= k < b.len() && is_block(#[trigger] b[k]) ==> (target_of(b[k]) matches Some(t) && t
            <= b.len())
    &&& forall|k: int|
        0 <= k < b.len() && #[trigger] b[k] is End ==> (b[k] matches Op::End(Some(t)) && (t == k
            + 1 || (t < k && b[t as int] == Op::While(Some((k + 1) as usize)))))
}

pub open spec fn on_open(open: Seq<(usize, Block)>, k: int) -> bool {
    exists|j: int| 0 <= j < open.len() && #[trigger] open[j].0 == k
}

/// Instruction `k` has its final target.
pub open spec fn settled(b: Seq<Op>, open: Seq<(usize, Block)>, k: int) -> bool {
    match b[k] {
        Op::If(Some(t)) | Op::Else(Some(t)) | Op::While(Some(t)) => t <= b.len(),
        Op::End(Some(t)) => t <= b.len() && (t == k + 1 || (t < k && b[t as int] == Op::While(
            Some((k + 1) as usize),
        ) && !on_open(open, t as int))),
        Op::If(None) | Op::Else(None) | Op::While(None) | Op::End(None) => false,
        _ => true,
    }
}

pub open spec fn kind_matches(b: Seq<Op>, e: (usize, Block)) -> bool {
    match e.1 {
        Block::If => b[e.0 as int] is If,
        Block::Else => b[e.0 as int] is Else,
        Block::While => b[e.0 as int] is While,
        Block::Function => false,
    }
}

/// What holds of the body and the open blocks before instruction `i`.
pub open spec fn resolution_inv(b: Seq<Op>, open: Seq<(usize, Block)>, i: int) -> bool {
    &&& 0 <= i <= b.len() <= usize::MAX
    &&& open_shape(b, open, i)
    &&& settled_before(b, open, i)
}

/// Every instruction before `i` is settled or an open block's opener.
#[verifier::opaque]
pub open spec fn settled_before(b: Seq<Op>, open: Seq<(usize, Block)>, i: int) -> bool {
    forall|k: int| 0 <= k < i ==> settled(b, open, k) || on_open(open, k)
}

proof fn lemma_on_open_push(open: Seq<(usize, Block)>, e: (usize, Block), x: int)
    ensures
        on_open(open.push(e), x) <==> on_open(open, x) || e.0 == x,
{
    let o2 = open.push(e);
    if on_open(open, x) {
        let j = choose|j: int| 0 <= j < open.len() && #[trigger] open[j].0 == x;
        assert(o2[j].0 == x);
    }
    if e.0 == x {
        assert(o2[open.len() as int].0 == x);
    }
    if on_open(o2, x) {
        let j = choose|j: int| 0 <= j < o2.len() && #[trigger] o2[j].0 == x;
        if j < open.len() {
            assert(open[j].0 == x);
        }
    }
}

proof fn lemma_on_open_drop(open: Seq<(usize, Block)>, x: int)
    requires
        open.len() > 0,
        increasing(open),
    ensures
        on_open(open.drop_last(), x) <==> on_open(open, x) && x != open.last().0,
{
    let o2 = open.drop_last();
    if on_open(o2, x) {
        let j = choose|j: int| 0 <= j < o2.len() && #[trigger] o2[j].0 == x;
        assert(open[j].0 == x);
        assert(open[j].0 < open[open.len() - 1].0);
    }
    if on_open(open, x) && x != open.last().0 {
        let j = choose|j: int| 0 <= j < open.len() && #[trigger] open[j].0 == x;
        assert(j != open.len() - 1);
        assert(o2[j].0 == x);
    }
}

proof fn lemma_open_keeps_settled(b: Seq<Op>, open: Seq<(usize, Block)>, i: int, kind: Block)
    requires
        settled_before(b, open, i),
        0 <= i < b.len() <= usize::MAX,
    ensures
        settled_before(b, open.push((i as usize, kind)), i + 1),
{
    reveal(settled_before);
    let o2 = open.push((i as usize, kind));
    assert forall|k: int| 0 <= k < i + 1 implies settled(b, o2, k) || on_open(o2, k) by {
        lemma_on_open_push(open, (i as usize, kind), k);
        if let Op::End(Some(t)) = b[k] {
            lemma_on_open_push(open, (i as usize, kind), t as int);
        }
    }
}

#[verifier::rlimit(100)]
proof fn lemma_open_keeps_shape(b: Seq<Op>, open: Seq<(usize, Block)>, i: int, kind: Block)
    requires
        open_shape(b, open, i),
        0 <= i < b.len() <= usize::MAX,
        kind == Block::If ==> b[i] is If,
        kind == Block::While ==> b[i] is While,
        kind == Block::Else ==> b[i] is Else && open.len() > 0 && open.last().1 == Block::If
            && b[open.last().0 as int] == Op::If(Some((i + 1) as usize)),
        kind != Block::Function,
    ensures
        open_shape(b, open.push((i as usize, kind)), i + 1),
{
    reveal(open_shape);
    let o2 = open.push((i as usize, kind));
    let n = open.len();
    assert forall|j: int| 0 <= j < o2.len() implies kind_matches(b, #[trigger] o2[j]) by {
        if j < n {
            assert(o2[j] == open[j]);
        }
    }
    assert forall|j: int|
        0 <= j < o2.len() && (#[trigger] o2[j]).1 == Block::Else implies j > 0 && o2[j - 1].1
        == Block::If && b[o2[j - 1].0 as int] == Op::If(Some((o2[j].0 + 1) as usize)) by {
        if j < n {
            assert(o2[j] == open[j]);
            assert(o2[j - 1] == open[j - 1]);
        } else {
            assert(o2[j - 1] == open[n - 1]);
        }
    }
    assert forall|j1: int, j2: int|
        0 <= j1 < j2 < o2.len() implies #[trigger] o2[j1].0 < #[trigger] o2[j2].0 by {
        assert(o2[j1] == open[j1]);
        if j2 < n {
            assert(o2[j2] == open[j2]);
        }
    }
    assert forall|j: int| 0 <= j < o2.len() implies #[trigger] o2[j].0 < i + 1 by {
        if j < n {
            assert(o2[j] == open[j]);
        }
    }
}

/// Opening a block at `i` keeps the invariant.
proof fn lemma_inv_open(b: Seq<Op>, open: Seq<(usize, Block)>, i: int, kind: Block)
    requires
        resolution_inv(b, open, i),
        i < b.len(),
        kind == Block::If ==> b[i] is If,
        kind == Block::While ==> b[i] is While,
        kind == Block::Else ==> b[i] is Else && open.len() > 0 && open.last().1 == Block::If
            && b[open.last().0 as int] == Op::If(Some((i + 1) as usize)),
        kind != Block::Function,
    ensures
        resolution_inv(b, open.push((i as usize, kind)), i + 1),
{
    lemma_open_keeps_settled(b, open, i, kind);
    lemma_open_keeps_shape(b, open, i, kind);
}

/// An instruction that is not a block keeps the invariant.
proof fn lemma_inv_plain(b: Seq<Op>, open: Seq<(usize, Block)>, i: int)
    requires
        resolution_inv(b, open, i),
        i < b.len(),
        !is_block(b[i]),
    ensures
        resolution_inv(b, open, i + 1),
{
    reveal(settled_before);
    reveal(open_shape);
}

pub open spec fn increasing(open: Seq<(usize, Block)>) -> bool {
    forall|j1: int, j2: int| 0 <= j1 < j2 < open.len() ==> #[trigger] open[j1].0 < #[trigger] open[j2].0
}

proof fn lemma_drop_keeps_settled(b: Seq<Op>, open: Seq<(usize, Block)>, i: int)
    requires
        open.len() > 0,
        increasing(open),
        settled_before(b, open, i),
        settled(b, open.drop_last(), open.last().0 as int),
    ensures
        settled_before(b, open.drop_last(), i),
{
    reveal(settled_before);
    let o2 = open.drop_last();
    let p = open.last().0 as int;
    assert forall|k: int| 0 <= k < i implies settled(b, o2, k) || on_open(o2, k) by {
        lemma_on_open_drop(open, k);
        if k != p && !on_open(open, k) {
            assert(settled(b, open, k));
            if let Op::End(Some(t)) = b[k] {
                lemma_on_open_drop(open, t as int);
            }
        }
    }
}

/// The shape of the open blocks: openers before `i`, in increasing order,
/// of the right kinds, and every `else` right above its `if`, which already
/// jumps past the `else`.
#[verifier::opaque]
pub open spec fn open_shape(b: Seq<Op>, open: Seq<(usize, Block)>, i: int) -> bool {
    &&& forall|j: int| 0 <= j < open.len() ==> #[trigger] open[j].0 < i
    &&& increasing(open)
    &&& forall|j: int| 0 <= j < open.len() ==> kind_matches(b, #[trigger] open[j])
    &&& forall|j: int|
        0 <= j < open.len() && (#[trigger] open[j]).1 == Block::Else ==> j > 0 && open[j - 1].1
            == Block::If && b[open[j - 1].0 as int] == Op::If(Some((open[j].0 + 1) as usize))
}

#[verifier::rlimit(100)]
proof fn lemma_drop_keeps_shape(b: Seq<Op>, open: Seq<(usize, Block)>, i: int)
    requires
        open.len() > 0,
        open_shape(b, open, i),
    ensures
        open_shape(b, open.drop_last(), i),
{
    reveal(open_shape);
    let o2 = open.drop_last();
    assert forall|j: int| 0 <= j < o2.len() implies #[trigger] o2[j] == open[j] by {}
}

/// Forgetting the innermost open block, once its opener is settled, keeps
/// the invariant.
proof fn lemma_inv_drop(b: Seq<Op>, open: Seq<(usize, Block)>, i: int)
    requires
        resolution_inv(b, open, i),
        open.len() > 0,
        settled(b, open.drop_last(), open.last().0 as int),
    ensures
        resolution_inv(b, open.drop_last(), i),
{
    assert(increasing(open)) by {
        reveal(open_shape);
    }
    lemma_drop_keeps_settled(b, open, i);
    lemma_drop_keeps_shape(b, open, i);
}

proof fn lemma_retarget_keeps_settled(b: Seq<Op>, open: Seq<(usize, Block)>, i: int, op: Op)
    requires
        open.len() > 0,
        0 <= open.last().0 < i <= b.len(),
        settled_before(b, open, i),
    ensures
        settled_before(b.update(open.last().0 as int, op), open, i),
{
    reveal(settled_before);
    let p = open.last().0 as int;
    let b2 = b.update(p, op);
    assert(on_open(open, p)) by {
        assert(open[open.len() - 1].0 == p);
    }
    assert forall|k: int| 0 <= k < i implies settled(b2, open, k) || on_open(open, k) by {
        if k != p && !on_open(open, k) {
            assert(settled(b, open, k));
            assert(b2[k] == b[k]);
            if let Op::End(Some(t)) = b[k] {
                if t < k && b[t as int] == Op::While(Some((k + 1) as usize)) {
                    assert(t != p);
                }
            }
        }
    }
}

#[verifier::rlimit(100)]
proof fn lemma_retarget_keeps_shape(b: Seq<Op>, open: Seq<(usize, Block)>, i: int, op: Op)
    requires
        open.len() > 0,
        i <= b.len(),
        open_shape(b, open, i),
        (b[open.last().0 as int] is If && op is If) || (b[open.last().0 as int] is Else && op is Else)
            || (b[open.last().0 as int] is While && op is While),
    ensures
        open_shape(b.update(open.last().0 as int, op), open, i),
{
    reveal(open_shape);
    let n = open.len();
    let p = open[n - 1].0 as int;
    let b2 = b.update(p, op);
    assert forall|j: int| 0 <= j < n implies kind_matches(b2, #[trigger] open[j]) by {
        assert(kind_matches(b, open[j]));
        if j < n - 1 {
            assert(open[j].0 < open[n - 1].0);
            assert(b2[open[j].0 as int] == b[open[j].0 as int]);
        }
    }
    assert forall|j: int|
        0 <= j < n && (#[trigger] open[j]).1 == Block::Else implies j > 0 && open[j - 1].1
        == Block::If && b2[open[j - 1].0 as int] == Op::If(Some((open[j].0 + 1) as usize)) by {
        assert(open[j - 1].0 < open[j].0);
        if j < n - 1 {
            assert(open[j].0 < open[n - 1].0);
        }
        assert(b2[open[j - 1].0 as int] == b[open[j - 1].0 as int]);
    }
}

/// Giving the innermost opener a new target of the same kind keeps the
/// invariant.
proof fn lemma_inv_retarget(b: Seq<Op>, open: Seq<(usize, Block)>, i: int, op: Op)
    requires
        resolution_inv(b, open, i),
        open.len() > 0,
        (b[open.last().0 as int] is If && op is If) || (b[open.last().0 as int] is Else && op is Else)
            || (b[open.last().0 as int] is While && op is While),
    ensures
        resolution_inv(b.update(open.last().0 as int, op), open, i),
{
    assert(open.last().0 < i) by {
        reveal(open_shape);
    }
    lemma_retarget_keeps_settled(b, open, i, op);
    lemma_retarget_keeps_shape(b, open, i, op);
}

proof fn lemma_settle_keeps_settled(b: Seq<Op>, open: Seq<(usize, Block)>, i: int, op: Op)
    requires
        0 <= i < b.len(),
        settled_before(b, open, i),
        settled(b.update(i, op), open, i),
    ensures
        settled_before(b.update(i, op), open, i + 1),
{
    reveal(settled_before);
    let b2 = b.update(i, op);
    assert forall|k: int| 0 <= k < i + 1 implies settled(b2, open, k) || on_open(open, k) by {
        if k < i && !on_open(open, k) {
            assert(settled(b, open, k));
            assert(b2[k] == b[k]);
            if let Op::End(Some(t)) = b[k] {
                if t < k && b[t as int] == Op::While(Some((k + 1) as usize)) {
                    assert(b2[t as int] == b[t as int]);
                }
            }
        }
    }
}

#[verifier::rlimit(100)]
proof fn lemma_settle_keeps_shape(b: Seq<Op>, open: Seq<(usize, Block)>, i: int, op: Op)
    requires
        0 <= i < b.len(),
        open_shape(b, open, i),
    ensures
        open_shape(b.update(i, op), open, i + 1),
{
    reveal(open_shape);
    let b2 = b.update(i, op);
    assert forall|j: int| 0 <= j < open.len() implies kind_matches(b2, #[trigger] open[j]) by {
        assert(kind_matches(b, open[j]));
        assert(b2[open[j].0 as int] == b[open[j].0 as int]);
    }
    assert forall|j: int|
        0 <= j < open.len() && (#[trigger] open[j]).1 == Block::Else implies j > 0 && open[j - 1].1
        == Block::If && b2[open[j - 1].0 as int] == Op::If(Some((open[j].0 + 1) as usize)) by {
        assert(b2[open[j - 1].0 as int] == b[open[j - 1].0 as int]);
    }
}

/// Below an open `else` sits its `if`, which jumps past the `else`.
#[verifier::rlimit(100)]
proof fn lemma_else_partner(b: Seq<Op>, open: Seq<(usize, Block)>, i: int)
    requires
        resolution_inv(b, open, i),
        open.len() > 0,
        open.last().1 == Block::Else,
    ensures
        open.len() >= 2,
        open[open.len() - 2].1 == Block::If,
        open[open.len() - 2].0 < open.last().0 < i,
        b[open[open.len() - 2].0 as int] == Op::If(Some((open.last().0 + 1) as usize)),
{
    reveal(open_shape);
    assert(open[open.len() - 1] == open.last());
}

/// The innermost opener is not among the blocks left open below it.
#[verifier::rlimit(100)]
proof fn lemma_top_leaves(b: Seq<Op>, open: Seq<(usize, Block)>, i: int)
    requires
        resolution_inv(b, open, i),
        open.len() > 0,
    ensures
        !on_open(open.drop_last(), open.last().0 as int),
        open.last().0 < i,
        kind_matches(b, open.last()),
{
    reveal(open_shape);
    lemma_on_open_drop(open, open.last().0 as int);
    assert(open[open.len() - 1] == open.last());
}

proof fn lemma_inv_start(b: Seq<Op>)
    requires
        b.len() <= usize::MAX,
    ensures
        resolution_inv(b, Seq::empty(), 0),
{
    reveal(settled_before);
    reveal(open_shape);
}

/// With no block left open, every target is resolved.
proof fn lemma_inv_done(b: Seq<Op>, open: Seq<(usize, Block)>)
    requires
        resolution_inv(b, open, b.len() as int),
        open.len() == 0,
    ensures
        targets_resolved(b),
{
    reveal(settled_before);
    assert forall|k: int| 0 <= k < b.len() implies settled(b, open, k) by {
        assert(!on_open(open, k));
    }
    assert forall|k: int| 0 <= k < b.len() && is_block(#[trigger] b[k]) implies (target_of(
        b[k],
    ) matches Some(t) && t <= b.len()) by {
        assert(settled(b, open, k));
    }
    assert forall|k: int| 0 <= k < b.len() && #[trigger] b[k] is End implies (b[k] matches Op::End(
        Some(t),
    ) && (t == k + 1 || (t < k && b[t as int] == Op::While(Some((k + 1) as usize))))) by {
        assert(settled(b, open, k));
    }
}

/// Settling the instruction at `i` itself moves the invariant past it.
proof fn lemma_inv_settle(b: Seq<Op>, open: Seq<(usize, Block)>, i: int, op: Op)
    requires
        resolution_inv(b, open, i),
        i < b.len(),
        settled(b.update(i, op), open, i),
    ensures
        resolution_inv(b.update(i, op), open, i + 1),
{
    lemma_settle_keeps_settled(b, open, i, op);
    lemma_settle_keeps_shape(b, open, i, op);
}

} // verus!
