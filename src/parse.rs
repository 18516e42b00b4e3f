//! Telling definitions from expressions by their leading keyword.
use vstd::prelude::*;
use vstd::string::*;

verus! {

/// `s` begins with `prefix`.
pub open spec fn begins_with(s: Seq<char>, prefix: Seq<char>) -> bool {
    prefix.len() <= s.len() && s.subrange(0, prefix.len() as int) == prefix
}

/// What an input line is, with its text for the matching reader.
#[derive(Clone, Debug, PartialEq, Eq)]
pub enum ParseSuccess {
    /// A command definition (`def `).
    Impl(String),
    /// A type definition (`def-ty `).
    Ty(String),
    /// A plain expression.
    Expr(String),
}

/// Whether `s` begins with `prefix`.
pub fn starts_with(s: &str, prefix: &str) -> (r: bool)
    ensures
        r == begins_with(s@, prefix@),
{
    let n = prefix.unicode_len();
    if n > s.unicode_len() {
        return false;
    }
    let mut i: usize = 0;
    while i < n
        invariant
            n == prefix@.len(),
            n <= s@.len(),
            i <= n,
            forall|t: int| 0 <= t < i ==> s@[t] == prefix@[t],
        decreases n - i,
    {
        if s.get_char(i) != prefix.get_char(i) {
            assert(s@.subrange(0, n as int)[i as int] != prefix@[i as int]);
            return false;
        }
        i = i + 1;
    }
    assert(s@.subrange(0, n as int) =~= prefix@);
    true
}

/// Classifies `input` by its leading keyword: `def ` starts a command
/// definition, `def-ty ` a type definition, anything else is an expression.
pub fn parse(input: &str) -> (r: ParseSuccess)
    ensures
        begins_with(input@, "def "@) ==> r == ParseSuccess::Impl(r->Impl_0) && r->Impl_0@ == input@,
        !begins_with(input@, "def "@) && begins_with(input@, "def-ty "@) ==> r == ParseSuccess::Ty(r->Ty_0)
            && r->Ty_0@ == input@,
        !begins_with(input@, "def "@) && !begins_with(input@, "def-ty "@) ==> r == ParseSuccess::Expr(
            r->Expr_0,
        ) && r->Expr_0@ == input@,
{
    if starts_with(input, "def ") {
        ParseSuccess::Impl(String::from_str(input))
    } else if starts_with(input, "def-ty ") {
        ParseSuccess::Ty(String::from_str(input))
    } else {
        ParseSuccess::Expr(String::from_str(input))
    }
}

} // verus!
