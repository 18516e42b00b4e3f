//! Structured diagnostics, and help messages rendered through the same shape.
use vstd::prelude::*;
use vstd::string::*;

verus! {

/// Where a piece of source came from.
#[derive(Clone, Debug, PartialEq, Eq)]
pub enum Location {
    /// Typed at the interactive shell.
    Shell,
    /// Read from a file, at a line.
    File(String, usize),
}

/// The kind of a failure.
#[derive(Clone, Copy, Debug, PartialEq, Eq)]
pub enum Category {
    /// A requested help message, routed through the error channel.
    Help,
    /// Malformed grammar or an unknown token.
    Parse,
    /// Unknown command, type or variable, or a type mismatch between stages.
    Resolve,
    /// A failure while a plan runs.
    Evaluate,
    /// A path that escapes the root directory.
    Containment,
}

/// One step of the chain of places that an error passed through.
#[derive(Clone, Debug, PartialEq, Eq)]
pub struct ErrorTrace {
    pub loc: Location,
    pub source: String,
    pub desc: Option<String>,
    /// Start of the underlined span, in bytes.
    pub start: usize,
    /// Length of the underlined span, in bytes.
    pub len: usize,
}

/// A processing error: category, one-line description, the ordered traces
/// (call site first), and optional help text.
#[derive(Clone, Debug, PartialEq, Eq)]
pub struct Error {
    pub cat: Category,
    pub desc: String,
    pub traces: Vec<ErrorTrace>,
    pub help_msg: Option<String>,
}

/// A parameter in the usage line of a help message.
#[derive(Clone, Debug, PartialEq, Eq)]
pub enum HelpParameter {
    Required(String),
    Optional(String),
    Custom(String),
    /// Starts a new usage line.
    Break,
}

/// An example of a command's use.
#[derive(Clone, Debug, PartialEq, Eq)]
pub struct HelpExample {
    pub desc: String,
    pub code: String,
}

/// The description of a command, shown when help is asked for.
#[derive(Clone, Debug, PartialEq, Eq)]
pub struct HelpMessage {
    pub cmd: String,
    pub desc: String,
    pub params: Vec<HelpParameter>,
    /// Parameters follow each other with no space between them.
    pub no_space: bool,
    /// (flag name, description)
    pub flags: Vec<(String, String)>,
    pub examples: Vec<HelpExample>,
}

/// How a parameter reads in a usage line.
pub open spec fn param_word(p: HelpParameter) -> Seq<char> {
    match p {
        HelpParameter::Required(s) => s@,
        HelpParameter::Custom(s) => s@,
        HelpParameter::Optional(s) => "["@ + s@ + "]"@,
        HelpParameter::Break => Seq::empty(),
    }
}

/// The text that one parameter adds to the usage lines.
pub open spec fn param_text(cmd: Seq<char>, no_space: bool, p: HelpParameter) -> Seq<char> {
    (if p is Break {
        "\n => "@ + cmd
    } else {
        Seq::empty()
    }) + (if no_space {
        Seq::empty()
    } else {
        " "@
    }) + param_word(p)
}

pub open spec fn params_text(cmd: Seq<char>, no_space: bool, ps: Seq<HelpParameter>) -> Seq<char>
    decreases ps.len(),
{
    if ps.len() == 0 {
        Seq::empty()
    } else {
        params_text(cmd, no_space, ps.drop_last()) + param_text(cmd, no_space, ps.last())
    }
}

pub open spec fn flags_text(fs: Seq<(String, String)>) -> Seq<char>
    decreases fs.len(),
{
    if fs.len() == 0 {
        Seq::empty()
    } else {
        flags_text(fs.drop_last()) + "\n --"@ + fs.last().0@ + ": "@ + fs.last().1@
    }
}

pub open spec fn examples_text(es: Seq<HelpExample>) -> Seq<char>
    decreases es.len(),
{
    if es.len() == 0 {
        Seq::empty()
    } else {
        examples_text(es.drop_last()) + "\n "@ + es.last().desc@ + "\n => "@ + es.last().code@ + "\n"@
    }
}

/// The body of a help message: description, usage lines, then the flags and
/// the examples where there are any.
pub open spec fn help_text(m: HelpMessage) -> Seq<char> {
    m.desc@ + "\n\nUsage:\n => "@ + m.cmd@ + params_text(m.cmd@, m.no_space, m.params@) + (if m.flags@.len()
        == 0 {
        Seq::empty()
    } else {
        "\n\nFlags:"@ + flags_text(m.flags@)
    }) + (if m.examples@.len() == 0 {
        Seq::empty()
    } else {
        "\n\nExamples:"@ + examples_text(m.examples@)
    })
}

impl HelpMessage {
    /// A help message for `cmd` with nothing else in it.
    pub fn new(cmd: &str) -> (r: HelpMessage)
        ensures
            r.cmd@ == cmd@,
            r.desc@ == Seq::<char>::empty(),
            r.params@.len() == 0,
            !r.no_space,
            r.flags@.len() == 0,
            r.examples@.len() == 0,
    {
        HelpMessage {
            cmd: String::from_str(cmd),
            desc: String::new(),
            params: Vec::new(),
            no_space: false,
            flags: Vec::new(),
            examples: Vec::new(),
        }
    }
}

impl HelpParameter {
    /// Appends how the parameter reads in a usage line to `out`.
    pub fn write(&self, out: &mut String)
        ensures
            final(out)@ == old(out)@ + param_word(*self),
    {
        match self {
            HelpParameter::Required(p) => out.append(p.as_str()),
            HelpParameter::Custom(p) => out.append(p.as_str()),
            HelpParameter::Optional(p) => {
                out.append("[");
                out.append(p.as_str());
                out.append("]");
                assert(final(out)@ =~= old(out)@ + param_word(*self));
            },
            HelpParameter::Break => {
                assert(final(out)@ =~= old(out)@ + param_word(*self));
            },
        }
    }
}

/// The help message as an error of category `Help`: the command in backticks
/// as description, and one trace that holds the message's text.
pub fn help_as_error(msg: &HelpMessage) -> (r: Error)
    ensures
        r.cat == Category::Help,
        r.desc@ == "`"@ + msg.cmd@ + "`"@,
        r.help_msg is None,
        r.traces@.len() == 1,
        r.traces@[0].source@ == help_text(*msg),
        r.traces@[0].loc == Location::Shell,
        r.traces@[0].desc is None,
        r.traces@[0].start == 0,
        r.traces@[0].len == 0,
{
    let cmd = msg.cmd.as_str();
    let mut source = msg.desc.clone();
    source.append("\n\nUsage:\n => ");
    source.append(cmd);
    let ghost head = source@;
    let mut i: usize = 0;
    while i < msg.params.len()
        invariant
            i <= msg.params@.len(),
            cmd@ == msg.cmd@,
            source@ == head + params_text(msg.cmd@, msg.no_space, msg.params@.subrange(0, i as int)),
        decreases msg.params@.len() - i,
    {
        let param = &msg.params[i];
        let ghost before = source@;
        let brk = matches!(param, HelpParameter::Break);
        if brk {
            source.append("\n => ");
            source.append(cmd);
        }
        if !msg.no_space {
            source.append(" ");
        }
        param.write(&mut source);
        proof {
            let ps = msg.params@.subrange(0, i + 1);
            assert(ps.drop_last() =~= msg.params@.subrange(0, i as int));
            assert(ps.last() == *param);
            assert(source@ =~= before + param_text(msg.cmd@, msg.no_space, *param));
        }
        i = i + 1;
    }
    assert(msg.params@.subrange(0, msg.params@.len() as int) =~= msg.params@);
    let ghost with_params = source@;
    if msg.flags.len() > 0 {
        source.append("\n\nFlags:");
        let ghost head = source@;
        let mut i: usize = 0;
        while i < msg.flags.len()
            invariant
                i <= msg.flags@.len(),
                source@ == head + flags_text(msg.flags@.subrange(0, i as int)),
            decreases msg.flags@.len() - i,
        {
            let (name, desc) = &msg.flags[i];
            let ghost before = source@;
            source.append("\n --");
            source.append(name.as_str());
            source.append(": ");
            source.append(desc.as_str());
            proof {
                let fs = msg.flags@.subrange(0, i + 1);
                assert(fs.drop_last() =~= msg.flags@.subrange(0, i as int));
                assert(source@ =~= before + "\n --"@ + fs.last().0@ + ": "@ + fs.last().1@);
            }
            i = i + 1;
        }
        assert(msg.flags@.subrange(0, msg.flags@.len() as int) =~= msg.flags@);
        assert(source@ =~= with_params + ("\n\nFlags:"@ + flags_text(msg.flags@)));
    }
    let ghost with_flags = source@;
    if msg.examples.len() > 0 {
        source.append("\n\nExamples:");
        let ghost head = source@;
        let mut i: usize = 0;
        while i < msg.examples.len()
            invariant
                i <= msg.examples@.len(),
                source@ == head + examples_text(msg.examples@.subrange(0, i as int)),
            decreases msg.examples@.len() - i,
        {
            let example = &msg.examples[i];
            let ghost before = source@;
            source.append("\n ");
            source.append(example.desc.as_str());
            source.append("\n => ");
            source.append(example.code.as_str());
            source.append("\n");
            proof {
                let es = msg.examples@.subrange(0, i + 1);
                assert(es.drop_last() =~= msg.examples@.subrange(0, i as int));
                assert(source@ =~= before + "\n "@ + es.last().desc@ + "\n => "@ + es.last().code@ + "\n"@);
            }
            i = i + 1;
        }
        assert(msg.examples@.subrange(0, msg.examples@.len() as int) =~= msg.examples@);
        assert(source@ =~= with_flags + ("\n\nExamples:"@ + examples_text(msg.examples@)));
    }
    assert(source@ =~= help_text(*msg));
    let mut desc = String::from_str("`");
    desc.append(cmd);
    desc.append("`");
    let trace = ErrorTrace { loc: Location::Shell, source, desc: None, start: 0, len: 0 };
    Error { cat: Category::Help, desc, traces: vec![trace], help_msg: None }
}

} // verus!
