//! Resolving a pipeline of blocks against the command registry into a chain
//! of typed stages, checking at each step that the stages compose.
use crate::error::{Category, Error, ErrorTrace, Location};
use vstd::prelude::*;
use vstd::string::*;

verus! {

/// The static type of a value.
#[derive(Clone, Copy, Debug, PartialEq, Eq, Structural)]
pub enum Type {
    Nil,
    Num,
    Bool,
    Str,
    Table,
    TableRow,
    /// A user record type, by its index in the type table.
    Record(u32),
}

/// A command's signature: its name and the types it takes and gives.
#[derive(Clone, Debug, PartialEq, Eq)]
pub struct CommandDef {
    pub name: String,
    pub input: Type,
    pub output: Type,
}

/// One compiled step of a plan.
#[derive(Clone, Copy, Debug, PartialEq, Eq)]
pub struct Stage {
    /// Index of the block it was compiled from.
    pub block: usize,
    pub input: Type,
    pub output: Type,
}

/// One command invocation in a pipeline, with its span in the source.
#[derive(Clone, Debug, PartialEq, Eq)]
pub struct Block {
    pub cmd: String,
    pub start: usize,
    pub len: usize,
}

/// Why a block did not compile.
#[derive(Clone, Copy, Debug, PartialEq, Eq)]
pub enum Failure {
    /// No command of that name is defined.
    UnknownCommand,
    /// The command does not take the type that the pipeline has there.
    TypeMismatch,
}

/// The registry of commands, each name defined once.
pub struct Definitions {
    cmds: Vec<CommandDef>,
}

/// Index of the first of `names` equal to `name`.
pub open spec fn first_index(names: Seq<Seq<char>>, name: Seq<char>) -> Option<int>
    decreases names.len(),
{
    if names.len() == 0 {
        None
    } else if names[0] == name {
        Some(0)
    } else {
        match first_index(names.drop_first(), name) {
            Some(i) => Some(i + 1),
            None => None,
        }
    }
}

/// The names of `defs`, in order.
pub open spec fn def_names(defs: Seq<CommandDef>) -> Seq<Seq<char>> {
    defs.map_values(|d: CommandDef| d.name@)
}

/// Index of the definition of `name` in `defs`, searching from the front.
pub open spec fn find_def(defs: Seq<CommandDef>, name: Seq<char>) -> Option<int> {
    first_index(def_names(defs), name)
}

pub(crate) proof fn lemma_first_index(names: Seq<Seq<char>>, name: Seq<char>)
    ensures
        match first_index(names, name) {
            Some(i) => 0 <= i < names.len() && names[i] == name && forall|j: int|
                0 <= j < i ==> #[trigger] names[j] != name,
            None => forall|j: int| 0 <= j < names.len() ==> #[trigger] names[j] != name,
        },
    decreases names.len(),
{
    if names.len() > 0 {
        let rest = names.drop_first();
        lemma_first_index(rest, name);
        assert forall|j: int| 0 < j < names.len() implies names[j] == rest[j - 1] by {}
    }
}

/// Writing `name` at its first place in `old`, or appending it where it is
/// absent, makes that place its first, and moves no other name's first place.
pub(crate) proof fn lemma_first_index_put(old: Seq<Seq<char>>, new: Seq<Seq<char>>, p: int, name: Seq<char>)
    requires
        p == (match first_index(old, name) {
            Some(i) => i,
            None => old.len() as int,
        }),
        new.len() == (if p < old.len() { old.len() as int } else { old.len() as int + 1 }),
        new[p] == name,
        forall|j: int| 0 <= j < old.len() && j != p ==> new[j] == old[j],
    ensures
        first_index(new, name) == Some(p),
        forall|n: Seq<char>| n != name ==> #[trigger] first_index(new, n) == first_index(old, n),
{
    lemma_first_index(old, name);
    lemma_first_index(new, name);
    let k = first_index(new, name)->Some_0;
    if k < p {
        assert(new[k] == old[k]);
    }
    assert forall|n: Seq<char>| n != name implies #[trigger] first_index(new, n) == first_index(old, n) by {
        lemma_first_index(new, n);
        lemma_first_index(old, n);
        match first_index(new, n) {
            Some(x) => {
                assert(new[x] == old[x]);
                let y = first_index(old, n)->Some_0;
                if y < x {
                    assert(new[y] == old[y]);
                }
            },
            None => {
                match first_index(old, n) {
                    Some(y) => {
                        assert(new[y] == old[y]);
                    },
                    None => {},
                }
            },
        }
    }
}

/// The type flowing out of `plan`, which starts from `seed`.
pub open spec fn plan_output(seed: Type, plan: Seq<Stage>) -> Type {
    if plan.len() == 0 {
        seed
    } else {
        plan.last().output
    }
}

/// The result of compiling `blocks` from left to right starting at `seed`:
/// the stages, or the index of the first block that fails and why.
pub open spec fn compiled(defs: Seq<CommandDef>, seed: Type, blocks: Seq<Block>) -> Result<
    Seq<Stage>,
    (nat, Failure),
>
    decreases blocks.len(),
{
    if blocks.len() == 0 {
        Ok(Seq::empty())
    } else {
        let n = (blocks.len() - 1) as nat;
        match compiled(defs, seed, blocks.drop_last()) {
            Err(e) => Err(e),
            Ok(plan) => match find_def(defs, blocks.last().cmd@) {
                None => Err((n, Failure::UnknownCommand)),
                Some(d) => if defs[d].input == plan_output(seed, plan) {
                    Ok(plan.push(Stage { block: n as usize, input: defs[d].input, output: defs[d].output }))
                } else {
                    Err((n, Failure::TypeMismatch))
                },
            },
        }
    }
}

/// Every stage of `plan` takes what the one before it gives, the first takes
/// `seed`, and stage `i` comes from block `i`.
pub open spec fn well_typed(seed: Type, plan: Seq<Stage>) -> bool {
    &&& plan.len() > 0 ==> plan[0].input == seed
    &&& forall|i: int| 0 <= i < plan.len() - 1 ==> #[trigger] plan[i].output == plan[i + 1].input
    &&& forall|i: int| 0 <= i < plan.len() ==> #[trigger] plan[i].block == i
}

proof fn lemma_find_def(defs: Seq<CommandDef>, name: Seq<char>)
    ensures
        match find_def(defs, name) {
            Some(i) => 0 <= i < defs.len() && defs[i].name@ == name && forall|j: int|
                0 <= j < i ==> #[trigger] defs[j].name@ != name,
            None => forall|j: int| 0 <= j < defs.len() ==> #[trigger] defs[j].name@ != name,
        },
{
    lemma_first_index(def_names(defs), name);
    assert forall|j: int| 0 <= j < defs.len() implies #[trigger] defs[j].name@ == def_names(defs)[j] by {}
}

impl Definitions {
    pub closed spec fn view(&self) -> Seq<CommandDef> {
        self.cmds@
    }

    /// A registry with no commands.
    pub fn new() -> (r: Definitions)
        ensures
            r.view().len() == 0,
    {
        Definitions { cmds: Vec::new() }
    }

    /// The definition of `name`, if there is one.
    pub fn lookup(&self, name: &String) -> (r: Option<usize>)
        ensures
            match r {
                Some(d) => find_def(self.view(), name@) == Some(d as int) && d < self.view().len(),
                None => find_def(self.view(), name@) is None,
            },
    {
        proof {
            lemma_find_def(self.cmds@, name@);
        }
        let mut i: usize = 0;
        while i < self.cmds.len()
            invariant
                i <= self.cmds@.len(),
                forall|j: int| 0 <= j < i ==> #[trigger] self.cmds@[j].name@ != name@,
                match find_def(self.cmds@, name@) {
                    Some(k) => 0 <= k < self.cmds@.len() && self.cmds@[k].name@ == name@ && forall|j: int|
                        0 <= j < k ==> #[trigger] self.cmds@[j].name@ != name@,
                    None => forall|j: int| 0 <= j < self.cmds@.len() ==> #[trigger] self.cmds@[j].name@ != name@,
                },
            decreases self.cmds@.len() - i,
        {
            if self.cmds[i].name == *name {
                return Some(i);
            }
            i = i + 1;
        }
        None
    }

    /// The signature of the definition at `i`.
    pub fn get(&self, i: usize) -> (r: &CommandDef)
        requires
            i < self.view().len(),
        ensures
            *r == self.view()[i as int],
    {
        &self.cmds[i]
    }

    /// Adds `def`, replacing the definition of the same name if there is one.
    pub fn insert(&mut self, def: CommandDef)
        ensures
            find_def(final(self).view(), def.name@) is Some,
            final(self).view()[find_def(final(self).view(), def.name@)->Some_0] == def,
            forall|n: Seq<char>|
                n != def.name@ ==> #[trigger] find_def(final(self).view(), n) == find_def(old(self).view(), n),
            forall|i: int|
                0 <= i < old(self).view().len() && old(self).view()[i].name@ != def.name@
                    ==> #[trigger] final(self).view()[i] == old(self).view()[i],
    {
        let found = self.lookup(&def.name);
        let ghost old_cmds = self.cmds@;
        let ghost p: int = match found {
            Some(i) => i as int,
            None => old_cmds.len() as int,
        };
        match found {
            Some(i) => {
                self.cmds.set(i, def);
            },
            None => {
                self.cmds.push(def);
            },
        }
        proof {
            let new_cmds = self.cmds@;
            assert(new_cmds[p] == def);
            lemma_first_index_put(def_names(old_cmds), def_names(new_cmds), p, def.name@);
            lemma_first_index(def_names(old_cmds), def.name@);
            assert forall|i: int| 0 <= i < old_cmds.len() && old_cmds[i].name@ != def.name@ implies #[trigger] new_cmds[i]
                == old_cmds[i] by {
                assert(def_names(old_cmds)[i] == old_cmds[i].name@);
            }
        }
    }
}

/// A plan that compiles is well typed: the first stage takes the seed type,
/// each stage takes what the one before it gives, and there is one stage per
/// block, in order.
pub proof fn law_compiled_plans_are_well_typed(defs: Seq<CommandDef>, seed: Type, blocks: Seq<Block>)
    requires
        blocks.len() <= usize::MAX,
    ensures
        compiled(defs, seed, blocks) is Ok ==> {
            let plan = compiled(defs, seed, blocks)->Ok_0;
            &&& plan.len() == blocks.len()
            &&& well_typed(seed, plan)
        },
    decreases blocks.len(),
{
    if blocks.len() > 0 {
        law_compiled_plans_are_well_typed(defs, seed, blocks.drop_last());
        if compiled(defs, seed, blocks) is Ok {
            let prev = compiled(defs, seed, blocks.drop_last())->Ok_0;
            let plan = compiled(defs, seed, blocks)->Ok_0;
            assert(plan.drop_last() =~= prev);
            assert forall|i: int| 0 <= i < plan.len() - 1 implies #[trigger] plan[i].output == plan[i + 1].input by {
                if i + 1 < prev.len() {
                    assert(plan[i] == prev[i] && plan[i + 1] == prev[i + 1]);
                } else {
                    assert(plan[i] == prev.last());
                }
            }
            assert forall|i: int| 0 <= i < plan.len() implies #[trigger] plan[i].block == i by {
                if i < prev.len() {
                    assert(plan[i] == prev[i]);
                }
            }
            if prev.len() > 0 {
                assert(plan[0] == prev[0]);
            }
        }
    }
}

/// A failure is reported at the first block that fails: every block before it
/// compiles, and that block fails for the reason given, whatever follows it.
pub proof fn law_failure_points_at_its_block(defs: Seq<CommandDef>, seed: Type, blocks: Seq<Block>)
    ensures
        compiled(defs, seed, blocks) is Err ==> {
            let (n, why) = compiled(defs, seed, blocks)->Err_0;
            &&& n < blocks.len()
            &&& compiled(defs, seed, blocks.subrange(0, n as int)) is Ok
            &&& compiled(defs, seed, blocks.subrange(0, n as int + 1)) == Err::<Seq<Stage>, (nat, Failure)>((n, why))
        },
    decreases blocks.len(),
{
    if blocks.len() > 0 {
        let pre = blocks.drop_last();
        law_failure_points_at_its_block(defs, seed, pre);
        if compiled(defs, seed, pre) is Err {
            let n = compiled(defs, seed, pre)->Err_0.0;
            assert(blocks.subrange(0, n as int) =~= pre.subrange(0, n as int));
            assert(blocks.subrange(0, n as int + 1) =~= pre.subrange(0, n as int + 1));
        } else {
            assert(blocks.subrange(0, blocks.len() - 1) =~= pre);
            assert(blocks.subrange(0, blocks.len() as int) =~= blocks);
        }
    }
}

/// The description of an error for each kind of failure.
pub open spec fn failure_desc(why: Failure) -> Seq<char> {
    match why {
        Failure::UnknownCommand => "unknown command"@,
        Failure::TypeMismatch => "command does not take the input type"@,
    }
}

/// The error for a failure at `block`: category `Resolve`, one trace that
/// underlines the block's span in the shell input.
pub(crate) fn failure_error(block: &Block, why: Failure) -> (r: Error)
    ensures
        r.cat == Category::Resolve,
        r.desc@ == failure_desc(why),
        r.traces@.len() == 1,
        r.traces@[0].start == block.start,
        r.traces@[0].len == block.len,
        r.traces@[0].source@ == block.cmd@,
        r.traces@[0].loc == Location::Shell,
{
    let desc = match why {
        Failure::UnknownCommand => String::from_str("unknown command"),
        Failure::TypeMismatch => String::from_str("command does not take the input type"),
    };
    let trace = ErrorTrace {
        loc: Location::Shell,
        source: block.cmd.clone(),
        desc: Some(String::from_str("here")),
        start: block.start,
        len: block.len,
    };
    Error { cat: Category::Resolve, desc, traces: vec![trace], help_msg: None }
}

/// Compiles `blocks` from left to right starting at `seed`, stopping at the
/// first block whose command is unknown or does not take the type that
/// reaches it; that block's index is returned with the reason.
pub fn compile_plan(defs: &Definitions, seed: Type, blocks: &Vec<Block>) -> (r: Result<Vec<Stage>, (usize, Failure)>)
    ensures
        match compiled(defs.view(), seed, blocks@) {
            Ok(plan) => r is Ok && r->Ok_0@ == plan,
            Err((n, why)) => r is Err && r->Err_0.0 == n && r->Err_0.1 == why && n < blocks@.len(),
        },
{
    proof {
        law_failure_points_at_its_block(defs.view(), seed, blocks@);
    }
    let mut plan: Vec<Stage> = Vec::new();
    let mut cur = seed;
    let mut i: usize = 0;
    while i < blocks.len()
        invariant
            i <= blocks@.len(),
            compiled(defs.view(), seed, blocks@.subrange(0, i as int)) == Ok::<Seq<Stage>, (nat, Failure)>(
                plan@,
            ),
            cur == plan_output(seed, plan@),
            compiled(defs.view(), seed, blocks@) is Err ==> {
                let n = compiled(defs.view(), seed, blocks@)->Err_0.0;
                &&& n < blocks@.len()
                &&& compiled(defs.view(), seed, blocks@.subrange(0, n as int + 1)) == Err::<Seq<Stage>, (nat, Failure)>(
                    compiled(defs.view(), seed, blocks@)->Err_0,
                )
            },
        decreases blocks@.len() - i,
    {
        let ghost pre = blocks@.subrange(0, i as int);
        let ghost post = blocks@.subrange(0, i as int + 1);
        assert(post.drop_last() =~= pre);
        let b = &blocks[i];
        proof {
            lemma_find_def(defs.view(), b.cmd@);
            assert(post.last() == *b);
        }
        match defs.lookup(&b.cmd) {
            None => {
                proof {
                    assert(compiled(defs.view(), seed, post) is Err);
                    lemma_prefix_failure(defs.view(), seed, blocks@, i as nat);
                }
                return Err((i, Failure::UnknownCommand));
            },
            Some(d) => {
                let def = defs.get(d);
                if def.input != cur {
                    proof {
                        assert(compiled(defs.view(), seed, post) is Err);
                        lemma_prefix_failure(defs.view(), seed, blocks@, i as nat);
                    }
                    return Err((i, Failure::TypeMismatch));
                }
                cur = def.output;
                plan.push(Stage { block: i, input: def.input, output: def.output });
                assert(compiled(defs.view(), seed, post) == Ok::<Seq<Stage>, (nat, Failure)>(plan@));
            },
        }
        i = i + 1;
    }
    assert(blocks@.subrange(0, blocks@.len() as int) =~= blocks@);
    Ok(plan)
}

/// Compiles `blocks` from left to right starting at `seed`, stopping at the
/// first block whose command is unknown or does not take the type that
/// reaches it; that block's span is underlined in the error.
pub fn compile(defs: &Definitions, seed: Type, blocks: &Vec<Block>) -> (r: Result<Vec<Stage>, Error>)
    ensures
        match compiled(defs.view(), seed, blocks@) {
            Ok(plan) => r is Ok && r->Ok_0@ == plan,
            Err((n, why)) => r is Err && r->Err_0.cat == Category::Resolve && r->Err_0.desc@ == failure_desc(why)
                && r->Err_0.traces@.len() == 1 && r->Err_0.traces@[0].loc == Location::Shell
                && r->Err_0.traces@[0].start == blocks@[n as int].start && r->Err_0.traces@[0].len
                == blocks@[n as int].len,
        },
{
    match compile_plan(defs, seed, blocks) {
        Ok(plan) => Ok(plan),
        Err((n, why)) => Err(failure_error(&blocks[n], why)),
    }
}

/// Once a prefix of `blocks` fails at its last block, compiling the whole
/// pipeline fails there too.
proof fn lemma_prefix_failure(defs: Seq<CommandDef>, seed: Type, blocks: Seq<Block>, i: nat)
    requires
        i < blocks.len(),
        compiled(defs, seed, blocks.subrange(0, i as int)) is Ok,
        compiled(defs, seed, blocks.subrange(0, i as int + 1)) is Err,
    ensures
        compiled(defs, seed, blocks) == compiled(defs, seed, blocks.subrange(0, i as int + 1)),
    decreases blocks.len() - i,
{
    if i + 1 < blocks.len() {
        let shorter = blocks.drop_last();
        assert(shorter.subrange(0, i as int) =~= blocks.subrange(0, i as int));
        assert(shorter.subrange(0, i as int + 1) =~= blocks.subrange(0, i as int + 1));
        lemma_prefix_failure(defs, seed, shorter, i);
    } else {
        assert(blocks.subrange(0, i as int + 1) =~= blocks);
    }
}

} // verus!
