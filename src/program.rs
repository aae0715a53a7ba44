use vstd::prelude::*;

use std::collections::VecDeque;

use crate::blocks::{create_references_for_blocks, reports_unmatched, resolve};
use crate::instr::{ops, Function, Op};
use crate::error::PhronError;
use crate::lexer::{with_first, with_prefix};

verus! {

/// The characters of each string of a queue or list.
pub open spec fn names(q: Seq<String>) -> Seq<Seq<char>> {
    q.map_values(|s: String| s@)
}

/// The function map described by a list of definitions: a later definition
/// of a name replaces an earlier one.
pub open spec fn entries_map(es: Seq<(String, Vec<Function>)>) -> Map<Seq<char>, Seq<Op>>
    decreases es.len(),
{
    if es.len() == 0 {
        Map::empty()
    } else {
        let last = es.last();
        entries_map(es.drop_last()).insert(last.0@, ops(last.1@))
    }
}

/// The definitions of a list of entries, as values.
pub open spec fn entry_views(es: Seq<(String, Vec<Function>)>) -> Seq<(Seq<char>, Seq<Op>)> {
    es.map_values(|e: (String, Vec<Function>)| (e.0@, ops(e.1@)))
}

/// The function map of a list of definitions; a later definition of a name
/// replaces an earlier one.
pub open spec fn defs_map(defs: Seq<(Seq<char>, Seq<Op>)>) -> Map<Seq<char>, Seq<Op>>
    decreases defs.len(),
{
    if defs.len() == 0 {
        Map::empty()
    } else {
        defs_map(defs.drop_last()).insert(defs.last().0, defs.last().1)
    }
}

/// Every body of a list of definitions with its blocks resolved, from
/// definition `k` on; or the instruction index of the first mismatch.
pub open spec fn resolve_defs(defs: Seq<(Seq<char>, Seq<Op>)>, k: nat) -> Result<
    Seq<(Seq<char>, Seq<Op>)>,
    nat,
>
    decreases defs.len() - k,
{
    if k >= defs.len() {
        Ok(Seq::empty())
    } else {
        match resolve(defs[k as int].1) {
            Err(i) => Err(i),
            Ok(b) => with_first((defs[k as int].0, b), resolve_defs(defs, k + 1)),
        }
    }
}

/// The function map after merging `module` into `base`: the module's
/// definitions win.
pub open spec fn linked(
    base: Map<Seq<char>, Seq<Op>>,
    module: Map<Seq<char>, Seq<Op>>,
) -> Map<Seq<char>, Seq<Op>> {
    base.union_prefer_right(module)
}

/// A module: named function bodies plus the queue of files still to import.
pub struct Program {
    pub imports: VecDeque<String>,
    /// Definitions in order; for a name defined more than once the last one
    /// counts.
    pub functions: Vec<(String, Vec<Function>)>,
}

impl Program {
    pub open spec fn functions_map(&self) -> Map<Seq<char>, Seq<Op>> {
        entries_map(self.functions@)
    }

    pub open spec fn imports_view(&self) -> Seq<Seq<char>> {
        names(self.imports@)
    }

    pub fn new(imports: VecDeque<String>, functions: Vec<(String, Vec<Function>)>) -> (r: Program)
        ensures
            r.imports == imports,
            r.functions == functions,
    {
        Program { imports, functions }
    }

    /// Merges an imported module: its pending imports join the end of the
    /// queue and its functions replace any of the same name.
    pub fn consume(&mut self, mut program: Program)
        ensures
            final(self).imports_view() == old(self).imports_view() + program.imports_view(),
            final(self).functions_map() == linked(
                old(self).functions_map(),
                program.functions_map(),
            ),
    {
        let ghost a = self.functions@;
        let ghost b = program.functions@;
        self.imports.append(&mut program.imports);
        self.functions.append(&mut program.functions);
        proof {
            lemma_entries_map_concat(a, b);
            assert(names(old(self).imports@ + program.imports@) =~= names(old(self).imports@)
                + names(program.imports@));
        }
    }

    /// The index of the definition that counts for `name`, if any.
    pub fn find(&self, name: &String) -> (r: Option<usize>)
        ensures
            match r {
                Some(i) => {
                    &&& i < self.functions@.len()
                    &&& self.functions@[i as int].0@ == name@
                    &&& self.functions_map().contains_key(name@)
                    &&& self.functions_map()[name@] == ops(self.functions@[i as int].1@)
                },
                None => !self.functions_map().contains_key(name@),
            },
    {
        let mut i: usize = self.functions.len();
        while i > 0
            invariant
                i <= self.functions@.len(),
                forall|j: int| i <= j < self.functions@.len() ==> self.functions@[j].0@ != name@,
            decreases i,
        {
            if self.functions[i - 1].0 == *name {
                proof {
                    lemma_entries_map_last(self.functions@, (i - 1) as int);
                }
                return Some(i - 1);
            }
            i = i - 1;
        }
        proof {
            lemma_entries_map_absent(self.functions@, name@);
        }
        None
    }

    /// Resolves the jump targets of every function body.
    pub fn resolve_blocks(&mut self) -> (r: Result<(), PhronError>)
        ensures
            final(self).imports == old(self).imports,
            match resolve_defs(entry_views(old(self).functions@), 0) {
                Ok(d) => r is Ok && entry_views(final(self).functions@) == d,
                Err(i) => r is Err && reports_unmatched(r->Err_0, i),
            },
    {
        let ghost d = entry_views(self.functions@);
        let n = self.functions.len();
        let mut done: Vec<(String, Vec<Function>)> = Vec::new();
        let mut k: usize = 0;
        assert(entry_views(done@) =~= Seq::<(Seq<char>, Seq<Op>)>::empty());
        while k < n
            invariant
                n == self.functions@.len(),
                d == entry_views(self.functions@),
                self.imports == old(self).imports,
                self.functions == old(self).functions,
                k <= n,
                resolve_defs(d, 0) == with_prefix(entry_views(done@), resolve_defs(d, k as nat)),
            decreases n - k,
        {
            let entry = &self.functions[k];
            let mut body = copy_body(&entry.1);
            assert(d[k as int] == (entry.0@, ops(entry.1@)));
            match create_references_for_blocks(&mut body) {
                Err(e) => {
                    return Err(e);
                },
                Ok(()) => {},
            }
            let ghost before = entry_views(done@);
            let ghost item = (entry.0@, ops(body@));
            done.push((entry.0.clone(), body));
            proof {
                assert(entry_views(done@) =~= before.push(item));
                match resolve_defs(d, (k + 1) as nat) {
                    Ok(rest) => {
                        assert(before + (seq![item] + rest) =~= before.push(item) + rest);
                    },
                    Err(_) => {},
                }
            }
            k = k + 1;
        }
        assert(entry_views(done@) + Seq::<(Seq<char>, Seq<Op>)>::empty() =~= entry_views(done@));
        self.functions = done;
        Ok(())
    }

    /// Whether the program defines a function called `name`.
    pub fn has_function(&self, name: &String) -> (r: bool)
        ensures
            r == self.functions_map().contains_key(name@),
    {
        self.find(name).is_some()
    }
}

fn copy_body(b: &Vec<Function>) -> (r: Vec<Function>)
    ensures
        r@ == b@,
{
    let mut r: Vec<Function> = Vec::new();
    let mut k: usize = 0;
    while k < b.len()
        invariant
            k <= b@.len(),
            r@ == b@.subrange(0, k as int),
        decreases b@.len() - k,
    {
        r.push(b[k].duplicate());
        k = k + 1;
        assert(r@ =~= b@.subrange(0, k as int));
    }
    assert(b@.subrange(0, b@.len() as int) =~= b@);
    r
}

/// The map of a list of entries is the map of their values.
pub proof fn lemma_entries_map_views(es: Seq<(String, Vec<Function>)>)
    ensures
        entries_map(es) == defs_map(entry_views(es)),
    decreases es.len(),
{
    if es.len() > 0 {
        lemma_entries_map_views(es.drop_last());
        assert(entry_views(es.drop_last()) =~= entry_views(es).drop_last());
    }
}

/// Merging two lists of definitions merges their maps.
pub proof fn lemma_entries_map_concat(a: Seq<(String, Vec<Function>)>, b: Seq<(String, Vec<Function>)>)
    ensures
        entries_map(a + b) == entries_map(a).union_prefer_right(entries_map(b)),
    decreases b.len(),
{
    if b.len() == 0 {
        assert(a + b =~= a);
        assert(entries_map(a).union_prefer_right(Map::empty()) =~= entries_map(a));
    } else {
        lemma_entries_map_concat(a, b.drop_last());
        assert((a + b).drop_last() =~= a + b.drop_last());
        assert((a + b).last() == b.last());
        assert(entries_map(a + b) =~= entries_map(a).union_prefer_right(entries_map(b)));
    }
}

/// The definition at `i` counts for its name when no later one has the same
/// name.
pub proof fn lemma_entries_map_last(es: Seq<(String, Vec<Function>)>, i: int)
    requires
        0 <= i < es.len(),
        forall|j: int| i < j < es.len() ==> es[j].0@ != es[i].0@,
    ensures
        entries_map(es).contains_key(es[i].0@),
        entries_map(es)[es[i].0@] == ops(es[i].1@),
    decreases es.len(),
{
    if i < es.len() - 1 {
        let d = es.drop_last();
        assert forall|j: int| i < j < d.len() implies d[j].0@ != d[i].0@ by {
            assert(d[j] == es[j]);
        }
        lemma_entries_map_last(d, i);
        assert(es.last() == es[es.len() - 1]);
    }
}

/// A name that no definition carries is not in the map.
pub proof fn lemma_entries_map_absent(es: Seq<(String, Vec<Function>)>, k: Seq<char>)
    requires
        forall|j: int| 0 <= j < es.len() ==> es[j].0@ != k,
    ensures
        !entries_map(es).contains_key(k),
    decreases es.len(),
{
    if es.len() > 0 {
        let d = es.drop_last();
        assert forall|j: int| 0 <= j < d.len() implies d[j].0@ != k by {
            assert(d[j] == es[j]);
        }
        lemma_entries_map_absent(d, k);
        assert(es.last() == es[es.len() - 1]);
    }
}

/// Importing the same module a second time leaves the function map as the
/// first import left it.
pub proof fn lemma_link_idempotent(base: Map<Seq<char>, Seq<Op>>, module: Map<Seq<char>, Seq<Op>>)
    ensures
        linked(linked(base, module), module) == linked(base, module),
{
    assert(linked(linked(base, module), module) =~= linked(base, module));
}

/// Importing a file twice: two modules read from the same text carry the
/// same definitions, and merging the second after the first changes
/// nothing.
pub proof fn lemma_import_twice(
    base: Map<Seq<char>, Seq<Op>>,
    first: Seq<(String, Vec<Function>)>,
    second: Seq<(String, Vec<Function>)>,
)
    requires
        entry_views(first) == entry_views(second),
    ensures
        linked(linked(base, entries_map(first)), entries_map(second)) == linked(
            base,
            entries_map(first),
        ),
{
    lemma_entries_map_views(first);
    lemma_entries_map_views(second);
    lemma_link_idempotent(base, entries_map(first));
}

} // verus!
