//! User command definitions (`def`): a name for a pipeline of blocks, expanded
//! in place wherever it is called, before the pipeline is resolved.
use crate::error::{Category, Error, ErrorTrace, Location};
use crate::plan::{compile_plan, compiled, first_index, lemma_first_index, lemma_first_index_put, failure_desc, failure_error, Block, Definitions, Stage};
use vstd::string::*;
use vstd::prelude::*;

verus! {

/// A user command: its name and the blocks of its body.
#[derive(Clone, Debug, PartialEq, Eq)]
pub struct UserDef {
    pub name: String,
    pub body: Vec<Block>,
}

/// The registry of user commands, each name defined once.
pub struct UserDefs {
    defs: Vec<UserDef>,
}

/// The names of `defs`, in order.
pub open spec fn user_names(defs: Seq<UserDef>) -> Seq<Seq<char>> {
    defs.map_values(|d: UserDef| d.name@)
}

/// Index of the user command `name` in `defs`, searching from the front.
pub open spec fn find_user(defs: Seq<UserDef>, name: Seq<char>) -> Option<int> {
    first_index(user_names(defs), name)
}

/// `blocks` with every call of a user command replaced by the expansion of
/// its body, nesting at most `depth` deep; `None` where that is exceeded.
pub open spec fn expanded(defs: Seq<UserDef>, blocks: Seq<Block>, depth: nat) -> Option<Seq<Block>>
    decreases depth, blocks.len(),
{
    if blocks.len() == 0 {
        Some(Seq::empty())
    } else {
        match expanded(defs, blocks.drop_last(), depth) {
            None => None,
            Some(pre) => match find_user(defs, blocks.last().cmd@) {
                None => Some(pre.push(blocks.last())),
                Some(u) => if depth == 0 {
                    None
                } else {
                    match expanded(defs, defs[u].body@, (depth - 1) as nat) {
                        None => None,
                        Some(b) => Some(pre + b),
                    }
                },
            },
        }
    }
}

proof fn lemma_find_user(defs: Seq<UserDef>, name: Seq<char>)
    ensures
        match find_user(defs, name) {
            Some(i) => 0 <= i < defs.len() && defs[i].name@ == name && forall|j: int|
                0 <= j < i ==> #[trigger] defs[j].name@ != name,
            None => forall|j: int| 0 <= j < defs.len() ==> #[trigger] defs[j].name@ != name,
        },
{
    lemma_first_index(user_names(defs), name);
    assert forall|j: int| 0 <= j < defs.len() implies #[trigger] defs[j].name@ == user_names(defs)[j] by {}
}

/// Expanding a concatenation expands each part.
proof fn lemma_expanded_concat(defs: Seq<UserDef>, x: Seq<Block>, y: Seq<Block>, depth: nat)
    ensures
        expanded(defs, x + y, depth) == match (expanded(defs, x, depth), expanded(defs, y, depth)) {
            (Some(a), Some(b)) => Some(a + b),
            _ => None,
        },
    decreases y.len(),
{
    if y.len() == 0 {
        assert(x + y =~= x);
        match expanded(defs, x, depth) {
            Some(a) => {
                assert(a + Seq::<Block>::empty() =~= a);
            },
            None => {},
        }
    } else {
        let xy = x + y;
        assert(xy.drop_last() =~= x + y.drop_last());
        assert(xy.last() == y.last());
        lemma_expanded_concat(defs, x, y.drop_last(), depth);
        match (expanded(defs, x, depth), expanded(defs, y.drop_last(), depth)) {
            (Some(a), Some(b)) => {
                assert((a + b).push(y.last()) =~= a + b.push(y.last()));
                match find_user(defs, y.last().cmd@) {
                    Some(u) => {
                        if depth > 0 {
                            match expanded(defs, defs[u].body@, (depth - 1) as nat) {
                                Some(c) => {
                                    assert((a + b) + c =~= a + (b + c));
                                },
                                None => {},
                            }
                        }
                    },
                    None => {},
                }
            },
            _ => {},
        }
    }
}

/// An expansion that fits in `depth` levels fits in any deeper budget, with
/// the same result.
proof fn lemma_expanded_deeper(defs: Seq<UserDef>, x: Seq<Block>, depth: nat, more: nat)
    requires
        expanded(defs, x, depth) is Some,
        depth <= more,
    ensures
        expanded(defs, x, more) == expanded(defs, x, depth),
    decreases depth, x.len(),
{
    if x.len() > 0 {
        lemma_expanded_deeper(defs, x.drop_last(), depth, more);
        match find_user(defs, x.last().cmd@) {
            Some(u) => {
                lemma_expanded_deeper(defs, defs[u].body@, (depth - 1) as nat, (more - 1) as nat);
            },
            None => {},
        }
    }
}

/// Calling a user command expands to the same blocks as writing its body in
/// place of the call, whenever the body itself expands within the budget
/// left below the call.
pub proof fn law_call_matches_inlined_body(
    defs: Seq<UserDef>,
    before: Seq<Block>,
    call: Block,
    after: Seq<Block>,
    depth: nat,
)
    requires
        find_user(defs, call.cmd@) is Some,
        depth > 0,
        expanded(defs, defs[find_user(defs, call.cmd@)->Some_0].body@, (depth - 1) as nat) is Some,
    ensures
        expanded(defs, before + seq![call] + after, depth) == expanded(
            defs,
            before + defs[find_user(defs, call.cmd@)->Some_0].body@ + after,
            depth,
        ),
{
    lemma_find_user(defs, call.cmd@);
    let body = defs[find_user(defs, call.cmd@)->Some_0].body@;
    lemma_expanded_concat(defs, before + seq![call], after, depth);
    lemma_expanded_concat(defs, before, seq![call], depth);
    lemma_expanded_concat(defs, before + body, after, depth);
    lemma_expanded_concat(defs, before, body, depth);
    lemma_expanded_deeper(defs, body, (depth - 1) as nat, depth);
    let one = seq![call];
    assert(one.drop_last() =~= Seq::<Block>::empty());
    assert(expanded(defs, one.drop_last(), depth) == Some(Seq::<Block>::empty()));
    assert(one.last() == call);
    let inner = expanded(defs, body, (depth - 1) as nat)->Some_0;
    assert(Seq::<Block>::empty() + inner =~= inner);
    assert(expanded(defs, one, depth) == Some(inner));
}

/// A call expands to the body that the registry holds for its name at the
/// time of expansion: after a redefinition, the new body.
pub proof fn law_call_uses_current_body(defs: Seq<UserDef>, call: Block, depth: nat)
    requires
        find_user(defs, call.cmd@) is Some,
        depth > 0,
    ensures
        expanded(defs, seq![call], depth) == expanded(
            defs,
            defs[find_user(defs, call.cmd@)->Some_0].body@,
            (depth - 1) as nat,
        ),
{
    let one = seq![call];
    assert(one.drop_last() =~= Seq::<Block>::empty());
    assert(expanded(defs, one.drop_last(), depth) == Some(Seq::<Block>::empty()));
    assert(one.last() == call);
    match expanded(defs, defs[find_user(defs, call.cmd@)->Some_0].body@, (depth - 1) as nat) {
        Some(b) => {
            assert(Seq::<Block>::empty() + b =~= b);
        },
        None => {},
    }
}

/// `body` calls the command `name` directly.
pub open spec fn calls_itself(name: Seq<char>, body: Seq<Block>) -> bool {
    exists|j: int| 0 <= j < body.len() && #[trigger] body[j].cmd@ == name
}

/// A copy of `b`.
fn copy_block(b: &Block) -> (r: Block)
    ensures
        r == *b,
{
    Block { cmd: b.cmd.clone(), start: b.start, len: b.len }
}

impl UserDefs {
    pub closed spec fn view(&self) -> Seq<UserDef> {
        self.defs@
    }

    /// A registry with no user commands.
    pub fn new() -> (r: UserDefs)
        ensures
            r.view().len() == 0,
    {
        UserDefs { defs: Vec::new() }
    }

    /// The index of the user command `name`, if there is one.
    pub fn lookup(&self, name: &String) -> (r: Option<usize>)
        ensures
            match r {
                Some(d) => find_user(self.view(), name@) == Some(d as int) && d < self.view().len(),
                None => find_user(self.view(), name@) is None,
            },
    {
        proof {
            lemma_find_user(self.defs@, name@);
        }
        let mut i: usize = 0;
        while i < self.defs.len()
            invariant
                i <= self.defs@.len(),
                forall|j: int| 0 <= j < i ==> #[trigger] self.defs@[j].name@ != name@,
                match find_user(self.defs@, name@) {
                    Some(k) => 0 <= k < self.defs@.len() && self.defs@[k].name@ == name@ && forall|j: int|
                        0 <= j < k ==> #[trigger] self.defs@[j].name@ != name@,
                    None => forall|j: int| 0 <= j < self.defs@.len() ==> #[trigger] self.defs@[j].name@ != name@,
                },
            decreases self.defs@.len() - i,
        {
            if self.defs[i].name == *name {
                return Some(i);
            }
            i = i + 1;
        }
        None
    }

    /// Adds `def`, replacing the user command of the same name if there is one.
    pub fn insert(&mut self, def: UserDef)
        ensures
            find_user(final(self).view(), def.name@) is Some,
            final(self).view()[find_user(final(self).view(), def.name@)->Some_0] == def,
            forall|n: Seq<char>|
                n != def.name@ ==> #[trigger] find_user(final(self).view(), n) == find_user(old(self).view(), n),
            forall|i: int|
                0 <= i < old(self).view().len() && old(self).view()[i].name@ != def.name@
                    ==> #[trigger] final(self).view()[i] == old(self).view()[i],
    {
        let found = self.lookup(&def.name);
        let ghost old_defs = self.defs@;
        let ghost p: int = match found {
            Some(i) => i as int,
            None => old_defs.len() as int,
        };
        match found {
            Some(i) => {
                self.defs.set(i, def);
            },
            None => {
                self.defs.push(def);
            },
        }
        proof {
            let new_defs = self.defs@;
            assert(new_defs[p] == def);
            lemma_first_index_put(user_names(old_defs), user_names(new_defs), p, def.name@);
            lemma_first_index(user_names(old_defs), def.name@);
            assert forall|i: int| 0 <= i < old_defs.len() && old_defs[i].name@ != def.name@ implies #[trigger] new_defs[i]
                == old_defs[i] by {
                assert(user_names(old_defs)[i] == old_defs[i].name@);
            }
        }
    }

    /// Registers `def` like `insert`, unless its body calls `def` itself: that
    /// is a `Resolve` error naming a cyclic definition, and the registry is
    /// left as it was.
    pub fn define(&mut self, def: UserDef) -> (r: Result<(), Error>)
        ensures
            r is Err <==> calls_itself(def.name@, def.body@),
            r is Err ==> final(self).view() == old(self).view() && r->Err_0.cat == Category::Resolve
                && r->Err_0.desc@ == "cyclic definition"@,
            r is Ok ==> find_user(final(self).view(), def.name@) is Some && final(self).view()[find_user(
                final(self).view(),
                def.name@,
            )->Some_0] == def && forall|n: Seq<char>|
                n != def.name@ ==> #[trigger] find_user(final(self).view(), n) == find_user(old(self).view(), n),
    {
        let mut j: usize = 0;
        while j < def.body.len()
            invariant
                j <= def.body@.len(),
                forall|t: int| 0 <= t < j ==> #[trigger] def.body@[t].cmd@ != def.name@,
            decreases def.body@.len() - j,
        {
            if def.body[j].cmd == def.name {
                let mut traces: Vec<ErrorTrace> = Vec::new();
                traces.push(trace_at(&def.body[j]));
                return Err(Error {
                    cat: Category::Resolve,
                    desc: String::from_str("cyclic definition"),
                    traces,
                    help_msg: None,
                });
            }
            j = j + 1;
        }
        self.insert(def);
        Ok(())
    }

    /// Appends the expansion of `blocks`, nesting at most `depth` deep, to
    /// `out`; false, with `out` in any state, where the nesting is deeper.
    fn expand_into(&self, blocks: &Vec<Block>, depth: usize, out: &mut Vec<Block>) -> (ok: bool)
        ensures
            ok == (expanded(self.view(), blocks@, depth as nat) is Some),
            ok ==> final(out)@ == old(out)@ + expanded(self.view(), blocks@, depth as nat)->Some_0,
        decreases depth,
    {
        let ghost start = out@;
        let mut i: usize = 0;
        while i < blocks.len()
            invariant
                i <= blocks@.len(),
                expanded(self.view(), blocks@.subrange(0, i as int), depth as nat) is Some,
                out@ == start + expanded(self.view(), blocks@.subrange(0, i as int), depth as nat)->Some_0,
            decreases blocks@.len() - i,
        {
            let ghost pre = blocks@.subrange(0, i as int);
            let ghost post = blocks@.subrange(0, i as int + 1);
            assert(post.drop_last() =~= pre);
            let ghost done = expanded(self.view(), pre, depth as nat)->Some_0;
            let b = &blocks[i];
            assert(post.last() == *b);
            match self.lookup(&b.cmd) {
                None => {
                    out.push(copy_block(b));
                    assert(out@ =~= start + done.push(*b));
                },
                Some(u) => {
                    if depth == 0 {
                        proof {
                            lemma_prefix_none(self.view(), blocks@, i as nat, depth as nat);
                        }
                        return false;
                    }
                    let ghost mid = out@;
                    let ok = self.expand_into(&self.defs[u].body, depth - 1, out);
                    if !ok {
                        proof {
                            lemma_prefix_none(self.view(), blocks@, i as nat, depth as nat);
                        }
                        return false;
                    }
                    assert(out@ =~= start + (done + expanded(self.view(), self.view()[u as int].body@, (depth - 1) as nat)->Some_0));
                },
            }
            i = i + 1;
        }
        assert(blocks@.subrange(0, blocks@.len() as int) =~= blocks@);
        true
    }

    /// `blocks` with every call of a user command replaced by its expanded
    /// body, or `None` where calls nest more than `depth` deep.
    pub fn expand(&self, blocks: &Vec<Block>, depth: usize) -> (r: Option<Vec<Block>>)
        ensures
            match expanded(self.view(), blocks@, depth as nat) {
                Some(x) => r is Some && r->Some_0@ == x,
                None => r is None,
            },
    {
        let mut out: Vec<Block> = Vec::new();
        if self.expand_into(blocks, depth, &mut out) {
            assert(out@ =~= expanded(self.view(), blocks@, depth as nat)->Some_0);
            Some(out)
        } else {
            None
        }
    }
}

/// Once a prefix of `blocks` fails to expand at its last block, the whole
/// pipeline fails to expand.
proof fn lemma_prefix_none(defs: Seq<UserDef>, blocks: Seq<Block>, i: nat, depth: nat)
    requires
        i < blocks.len(),
        expanded(defs, blocks.subrange(0, i as int + 1), depth) is None,
    ensures
        expanded(defs, blocks, depth) is None,
    decreases blocks.len() - i,
{
    if i + 1 < blocks.len() {
        let shorter = blocks.drop_last();
        assert(shorter.subrange(0, i as int + 1) =~= blocks.subrange(0, i as int + 1));
        lemma_prefix_none(defs, shorter, i, depth);
    } else {
        assert(blocks.subrange(0, i as int + 1) =~= blocks);
    }
}

/// Length of the expansion of the first `i` blocks.
pub open spec fn expansion_len(defs: Seq<UserDef>, blocks: Seq<Block>, depth: nat, i: int) -> int {
    expanded(defs, blocks.subrange(0, i), depth)->Some_0.len() as int
}

/// Expanded block `j` comes from top-level block `i`.
pub open spec fn comes_from(defs: Seq<UserDef>, blocks: Seq<Block>, depth: nat, i: int, j: int) -> bool {
    0 <= i < blocks.len() && expansion_len(defs, blocks, depth, i) <= j < expansion_len(defs, blocks, depth, i + 1)
}

/// Stage `j` of `out` is stage `j` of `plan` tagged with the top-level block
/// that it comes from.
pub open spec fn tagged(
    defs: Seq<UserDef>,
    blocks: Seq<Block>,
    depth: nat,
    plan: Seq<Stage>,
    out: Seq<Stage>,
    j: int,
) -> bool {
    exists|i: int| #[trigger] comes_from(defs, blocks, depth, i, j) && out[j] == (Stage { block: i as usize, ..plan[j] })
}

/// The trace that underlines `b` in the shell input.
pub open spec fn points_at(t: ErrorTrace, b: Block) -> bool {
    t.loc == Location::Shell && t.start == b.start && t.len == b.len
}

/// The trace that underlines `b`.
fn trace_at(b: &Block) -> (t: ErrorTrace)
    ensures
        points_at(t, *b),
        t.source@ == b.cmd@,
{
    ErrorTrace { loc: Location::Shell, source: b.cmd.clone(), desc: None, start: b.start, len: b.len }
}

/// Index of the first of `ends` above `j`.
fn owner(ends: &Vec<usize>, j: usize) -> (k: usize)
    requires
        ends@.len() > 0,
        ends@.last() > j,
    ensures
        k < ends@.len(),
        ends@[k as int] > j,
        k == 0 || ends@[k - 1] <= j,
{
    let n = ends.len();
    let mut k: usize = 0;
    while ends[k] <= j
        invariant
            n == ends@.len(),
            k < ends@.len(),
            ends@.last() > j,
            k == 0 || ends@[k - 1] <= j,
        decreases ends@.len() - k,
    {
        assert(k as int != ends@.len() - 1);
        k = k + 1;
    }
    k
}

/// How deep calls of user commands may nest.
pub const MAX_DEPTH: usize = 32;

/// Expands the calls of user commands in `blocks` and resolves the result
/// against `cmds`, starting at `seed`. Each stage is tagged with the
/// top-level block it comes from. A failure is reported first at the
/// top-level block it arises in, then, when that block calls a user command,
/// at the block inside the expansion that failed. Calls nested more than
/// `depth` deep are an error at the top-level call that went too deep.
pub fn compile_expression(
    cmds: &Definitions,
    user: &UserDefs,
    seed: crate::plan::Type,
    blocks: &Vec<Block>,
    depth: usize,
) -> (r: Result<Vec<Stage>, Error>)
    ensures
        match expanded(user.view(), blocks@, depth as nat) {
            None => r is Err && r->Err_0.cat == Category::Resolve && r->Err_0.desc@
                == "definition too deeply nested"@ && r->Err_0.traces@.len() == 1 && exists|i: int|
                0 <= i < blocks@.len() && expanded(user.view(), blocks@.subrange(0, i), depth as nat) is Some
                    && expanded(user.view(), blocks@.subrange(0, i + 1), depth as nat) is None
                    && points_at(r->Err_0.traces@[0], blocks@[i]),
            Some(x) => match compiled(cmds.view(), seed, x) {
                Ok(plan) => r is Ok && r->Ok_0@.len() == plan.len() && forall|j: int|
                    0 <= j < plan.len() ==> #[trigger] tagged(user.view(), blocks@, depth as nat, plan, r->Ok_0@, j),
                Err((n, why)) => r is Err && r->Err_0.cat == Category::Resolve && r->Err_0.desc@ == failure_desc(
                    why,
                ) && exists|i: int|
                    #[trigger] comes_from(user.view(), blocks@, depth as nat, i, n as int) && points_at(
                        r->Err_0.traces@[0],
                        blocks@[i],
                    ) && if find_user(user.view(), blocks@[i].cmd@) is Some {
                        r->Err_0.traces@.len() == 2 && points_at(r->Err_0.traces@[1], x[n as int])
                    } else {
                        r->Err_0.traces@.len() == 1
                    },
            },
        },
{
    let ghost u = user.view();
    let ghost dn = depth as nat;
    let mut x: Vec<Block> = Vec::new();
    let mut ends: Vec<usize> = Vec::new();
    let mut i: usize = 0;
    assert(blocks@.subrange(0, 0) =~= Seq::<Block>::empty());
    while i < blocks.len()
        invariant
            i <= blocks@.len(),
            u == user.view(),
            dn == depth as nat,
            expanded(u, blocks@.subrange(0, i as int), dn) == Some(x@),
            ends@.len() == i,
            forall|k: int| 0 <= k < i ==> #[trigger] ends@[k] == expansion_len(u, blocks@, dn, k + 1),
            forall|k: int| 0 <= k <= i ==> expanded(u, #[trigger] blocks@.subrange(0, k), dn) is Some,
        decreases blocks@.len() - i,
    {
        let one = vec![copy_block(&blocks[i])];
        let ghost pre = blocks@.subrange(0, i as int);
        let ghost post = blocks@.subrange(0, i as int + 1);
        assert(post =~= pre + one@);
        proof {
            lemma_expanded_concat(u, pre, one@, dn);
        }
        let ok = user.expand_into(&one, depth, &mut x);
        if !ok {
            let e = Error {
                cat: Category::Resolve,
                desc: String::from_str("definition too deeply nested"),
                traces: vec![trace_at(&blocks[i])],
                help_msg: None,
            };
            proof {
                lemma_prefix_none(u, blocks@, i as nat, dn);
                assert(expanded(u, blocks@.subrange(0, i as int), dn) is Some);
            }
            return Err(e);
        }
        ends.push(x.len());
        i = i + 1;
    }
    assert(blocks@.subrange(0, blocks@.len() as int) =~= blocks@);
    let ghost xs = x@;
    proof {
        if blocks@.len() > 0 {
            assert(ends@.last() == expansion_len(u, blocks@, dn, blocks@.len() as int));
        }
        lemma_expanded_concat(u, Seq::<Block>::empty(), Seq::<Block>::empty(), dn);
        assert(expansion_len(u, blocks@, dn, 0) == 0);
    }
    match compile_plan(cmds, seed, &x) {
        Ok(plan) => {
            proof {
                crate::plan::law_compiled_plans_are_well_typed(cmds.view(), seed, xs);
            }
            let ghost want = plan@;
            let mut out: Vec<Stage> = Vec::new();
            let mut j: usize = 0;
            while j < plan.len()
                invariant
                    j <= plan@.len(),
                    plan@ == want,
                    want.len() == xs.len(),
                    ends@.len() == blocks@.len(),
                    blocks@.len() > 0 ==> ends@.last() == xs.len(),
                    blocks@.len() == 0 ==> xs.len() == 0,
                    forall|k: int| 0 <= k < ends@.len() ==> #[trigger] ends@[k] == expansion_len(u, blocks@, dn, k + 1),
                    expansion_len(u, blocks@, dn, 0) == 0,
                    out@.len() == j,
                    forall|t: int| 0 <= t < j ==> #[trigger] tagged(u, blocks@, dn, want, out@, t),
                decreases plan@.len() - j,
            {
                let k = owner(&ends, j);
                let ghost prev = out@;
                let s = plan[j];
                out.push(Stage { block: k, input: s.input, output: s.output });
                proof {
                    assert(comes_from(u, blocks@, dn, k as int, j as int));
                    assert forall|t: int| 0 <= t < j + 1 implies #[trigger] tagged(u, blocks@, dn, want, out@, t) by {
                        if t == j {
                            assert(comes_from(u, blocks@, dn, k as int, t));
                        } else {
                            assert(tagged(u, blocks@, dn, want, prev, t));
                            let i = choose|i: int|
                                #[trigger] comes_from(u, blocks@, dn, i, t) && prev[t] == (Stage { block: i as usize, ..want[t] });
                            assert(out@[t] == prev[t]);
                            assert(comes_from(u, blocks@, dn, i, t));
                        }
                    }
                }
                j = j + 1;
            }
            Ok(out)
        },
        Err((n, why)) => {
            let k = owner(&ends, n);
            let inner = failure_error(&x[n], why);
            let mut traces: Vec<ErrorTrace> = vec![trace_at(&blocks[k])];
            if user.lookup(&blocks[k].cmd).is_some() {
                traces.push(trace_at(&x[n]));
            }
            proof {
                assert(comes_from(u, blocks@, dn, k as int, n as int));
            }
            Err(Error { cat: Category::Resolve, desc: inner.desc, traces, help_msg: None })
        },
    }
}

} // verus!
