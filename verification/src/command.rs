//! Commands: what an invocation targets, the arguments it carries, and the registry of named
//! commands.
use vstd::prelude::*;
use vstd::string::StringSliceAdditionalSpecFns;
use vstd::utf8::encode_utf8;

use crate::ids::{ViewId, WindowId};
use crate::settings::{find_key, lemma_find_key};
use crate::text::str_eq;

verus! {

/// What a command acts on.
#[derive(Debug, Clone, Copy, PartialEq, Eq, Structural)]
pub enum CommandTarget {
    Application,
    Window(WindowId),
    View(ViewId),
}

/// An argument value, as commands read it: a string, a non-negative integer, or anything else.
#[derive(Debug, Clone)]
pub enum ArgValue {
    Text(String),
    Unsigned(u64),
    Other,
}

pub ghost enum ArgModel {
    Text(Seq<char>),
    Unsigned(u64),
    Other,
}

impl View for ArgValue {
    type V = ArgModel;

    open spec fn view(&self) -> ArgModel {
        match self {
            ArgValue::Text(s) => ArgModel::Text(s@),
            ArgValue::Unsigned(n) => ArgModel::Unsigned(*n),
            ArgValue::Other => ArgModel::Other,
        }
    }
}

/// The named arguments of an invocation; a name set again replaces its earlier value.
#[derive(Debug, Clone)]
pub struct CommandArgs {
    entries: Vec<(String, ArgValue)>,
}

impl View for CommandArgs {
    type V = Seq<(Seq<char>, ArgModel)>;

    closed spec fn view(&self) -> Seq<(Seq<char>, ArgModel)> {
        self.entries@.map_values(|e: (String, ArgValue)| (e.0@, e.1@))
    }
}

/// The value stored under `key`, if any.
pub open spec fn arg_of(args: Seq<(Seq<char>, ArgModel)>, key: Seq<char>) -> Option<ArgModel> {
    if find_key(args, key) >= 0 {
        Some(args[find_key(args, key)].1)
    } else {
        None
    }
}

/// The string stored under `key`, if what is stored there is a string.
pub open spec fn text_arg(args: Seq<(Seq<char>, ArgModel)>, key: Seq<char>) -> Option<Seq<char>> {
    match arg_of(args, key) {
        Some(ArgModel::Text(s)) => Some(s),
        _ => None,
    }
}

/// The number stored under `key`, if what is stored there is a non-negative integer.
pub open spec fn unsigned_arg(args: Seq<(Seq<char>, ArgModel)>, key: Seq<char>) -> Option<u64> {
    match arg_of(args, key) {
        Some(ArgModel::Unsigned(n)) => Some(n),
        _ => None,
    }
}

impl CommandArgs {
    pub fn new() -> (r: Self)
        ensures
            r@ == Seq::<(Seq<char>, ArgModel)>::empty(),
    {
        CommandArgs { entries: Vec::new() }
    }

    fn position(&self, key: &str) -> (r: Option<usize>)
        ensures
            r is None <==> find_key(self@, key@) < 0,
            r matches Some(i) ==> i == find_key(self@, key@) && i < self.entries@.len(),
            self@.len() == self.entries@.len(),
    {
        proof {
            lemma_find_key(self@, key@);
            assert(self@.take(self.entries.len() as int) == self@);
        }
        let mut i: usize = self.entries.len();
        while i > 0
            invariant
                i <= self.entries.len(),
                self@.len() == self.entries@.len(),
                forall|k: int| 0 <= k < self.entries@.len() ==> (#[trigger] self@[k]) == (self.entries@[k].0@, self.entries@[k].1@),
                find_key(self@, key@) == find_key(self@.take(i as int), key@),
            decreases i,
        {
            proof {
                assert(self@.take(i as int).drop_last() == self@.take(i - 1));
                assert(self@.take(i as int).last() == self@[i - 1]);
            }
            if str_eq(self.entries[i - 1].0.as_str(), key) {
                proof {
                    assert(self@[i - 1] == (self.entries@[i - 1].0@, self.entries@[i - 1].1@));
                }
                return Some(i - 1);
            }
            i = i - 1;
        }
        None
    }

    /// Stores `value` under `key`, in place of any earlier value.
    pub fn insert(&mut self, key: String, value: ArgValue)
        ensures
            find_key(old(self)@, key@) >= 0 ==> final(self)@ == old(self)@.update(
                find_key(old(self)@, key@),
                (key@, value@),
            ),
            find_key(old(self)@, key@) < 0 ==> final(self)@ == old(self)@.push((key@, value@)),
    {
        match self.position(key.as_str()) {
            Some(i) => {
                self.entries.set(i, (key, value));
                proof {
                    assert(self@ == old(self)@.update(i as int, (key@, value@)));
                }
            },
            None => {
                self.entries.push((key, value));
                proof {
                    assert(self@ == old(self)@.push((key@, value@)));
                }
            },
        }
    }

    /// The value stored under `key`.
    pub fn get(&self, key: &str) -> (r: Option<&ArgValue>)
        ensures
            r matches Some(v) ==> arg_of(self@, key@) == Some(v@),
            r is None ==> arg_of(self@, key@) is None,
    {
        match self.position(key) {
            Some(i) => {
                proof {
                    assert(self@[i as int] == (self.entries@[i as int].0@, self.entries@[i as int].1@));
                }
                Some(&self.entries[i].1)
            },
            None => None,
        }
    }

    /// The string stored under `key`, if what is stored there is a string.
    pub fn text(&self, key: &str) -> (r: Option<&str>)
        ensures
            r matches Some(s) ==> text_arg(self@, key@) == Some(s@),
            r is None ==> text_arg(self@, key@) is None,
    {
        match self.get(key) {
            Some(ArgValue::Text(s)) => Some(s.as_str()),
            _ => None,
        }
    }

    /// The number stored under `key`, if what is stored there is a non-negative integer.
    pub fn unsigned(&self, key: &str) -> (r: Option<u64>)
        ensures
            r == unsigned_arg(self@, key@),
    {
        match self.get(key) {
            Some(ArgValue::Unsigned(n)) => Some(*n),
            _ => None,
        }
    }
}

/// A command to run: its target and its arguments.
#[derive(Debug, Clone)]
pub struct CommandInvocation {
    pub target: CommandTarget,
    pub args: CommandArgs,
}

impl CommandInvocation {
    pub fn new(target: CommandTarget) -> (r: Self)
        ensures
            r.target == target,
            r.args@ == Seq::<(Seq<char>, ArgModel)>::empty(),
    {
        CommandInvocation { target, args: CommandArgs::new() }
    }

    pub fn with_args(self, args: CommandArgs) -> (r: Self)
        ensures
            r.target == self.target,
            r.args@ == args@,
    {
        CommandInvocation { target: self.target, args }
    }
}

/// What a command reports when it succeeds.
#[derive(Debug, Clone)]
pub struct CommandOutput {
    pub message: Option<String>,
}

impl CommandOutput {
    pub fn ok(message: String) -> (r: Self)
        ensures
            r.message matches Some(m) && m@ == message@,
    {
        CommandOutput { message: Some(message) }
    }

    pub fn empty() -> (r: Self)
        ensures
            r.message is None,
    {
        CommandOutput { message: None }
    }
}

/// The name of a command and what it does.
#[derive(Debug)]
pub struct CommandSpec {
    pub name: String,
    pub description: String,
}

impl Clone for CommandSpec {
    fn clone(&self) -> (r: Self)
        ensures
            r == *self,
    {
        CommandSpec { name: self.name.clone(), description: self.description.clone() }
    }
}

impl CommandSpec {
    pub fn new(name: &str, description: &str) -> (r: Self)
        ensures
            r.name@ == name@,
            r.description@ == description@,
    {
        CommandSpec { name: name.to_owned(), description: description.to_owned() }
    }
}

/// Why a command failed.
#[derive(Debug, Clone)]
pub enum CommandError {
    NotFound(String),
    MissingArgument(String),
    InvalidArgument(String),
    NoActiveView,
    Buffer(String),
}

pub ghost enum CommandErrorModel {
    NotFound(Seq<char>),
    MissingArgument(Seq<char>),
    InvalidArgument(Seq<char>),
    NoActiveView,
    Buffer(Seq<char>),
}

impl View for CommandError {
    type V = CommandErrorModel;

    open spec fn view(&self) -> CommandErrorModel {
        match self {
            CommandError::NotFound(s) => CommandErrorModel::NotFound(s@),
            CommandError::MissingArgument(s) => CommandErrorModel::MissingArgument(s@),
            CommandError::InvalidArgument(s) => CommandErrorModel::InvalidArgument(s@),
            CommandError::NoActiveView => CommandErrorModel::NoActiveView,
            CommandError::Buffer(s) => CommandErrorModel::Buffer(s@),
        }
    }
}

/// The message that describes a failure.
pub open spec fn command_error_text(e: CommandErrorModel) -> Seq<char> {
    match e {
        CommandErrorModel::NotFound(s) => "command not found: "@ + s,
        CommandErrorModel::MissingArgument(s) => "missing argument: "@ + s,
        CommandErrorModel::InvalidArgument(s) => "invalid argument: "@ + s,
        CommandErrorModel::NoActiveView => "no active view"@,
        CommandErrorModel::Buffer(s) => "buffer operation failed: "@ + s,
    }
}

impl CommandError {
    /// The message that describes the failure.
    pub fn message(&self) -> (r: String)
        ensures
            r@ == command_error_text(self@),
    {
        let (head, detail) = match self {
            CommandError::NotFound(s) => ("command not found: ", s.as_str()),
            CommandError::MissingArgument(s) => ("missing argument: ", s.as_str()),
            CommandError::InvalidArgument(s) => ("invalid argument: ", s.as_str()),
            CommandError::NoActiveView => {
                return "no active view".to_owned();
            },
            CommandError::Buffer(s) => ("buffer operation failed: ", s.as_str()),
        };
        let mut out = head.to_owned();
        out.append(detail);
        out
    }
}

/// The built-in behaviour a registered command runs.
#[derive(Debug, Clone, Copy, PartialEq, Eq, Structural)]
pub enum CommandHandler {
    NewFile,
    InsertText,
    DeleteBackward,
    DeleteForward,
    MoveLeft,
    MoveRight,
    MoveToBeginningOfLine,
    MoveToEndOfLine,
    MoveUp,
    MoveDown,
    SelectLine,
    DuplicateLine,
    DeleteToBeginningOfLine,
    DeleteToEndOfLine,
    InsertLineAfter,
    InsertLineBefore,
    MoveLinesUp,
    MoveLinesDown,
    SplitSelectionIntoLines,
    GotoLine,
    SelectAll,
    Undo,
    Redo,
    BufferInfo,
}

#[derive(Clone)]
struct RegisteredCommand {
    spec: CommandSpec,
    handler: CommandHandler,
}

/// A registered command as the registry holds it: its name, its description and its handler.
pub type CommandEntry = (Seq<char>, (Seq<char>, CommandHandler));

/// The registry of named commands; registering a name again replaces the earlier command.
pub struct CommandBus {
    commands: Vec<RegisteredCommand>,
}

impl View for CommandBus {
    type V = Seq<CommandEntry>;

    closed spec fn view(&self) -> Seq<CommandEntry> {
        self.commands@.map_values(|c: RegisteredCommand| (c.spec.name@, (c.spec.description@, c.handler)))
    }
}

/// `a` comes before `b` when their UTF-8 bytes are compared in lexicographic order.
pub open spec fn bytes_lt(a: Seq<u8>, b: Seq<u8>) -> bool
    decreases a.len(),
{
    if a.len() == 0 {
        b.len() > 0
    } else if b.len() == 0 {
        false
    } else if a[0] != b[0] {
        a[0] < b[0]
    } else {
        bytes_lt(a.drop_first(), b.drop_first())
    }
}

/// Strings in the order `String` sorts them: by their UTF-8 bytes.
pub open spec fn name_lt(a: Seq<char>, b: Seq<char>) -> bool {
    bytes_lt(encode_utf8(a), encode_utf8(b))
}

/// A command's name and description.
pub type SpecModel = (Seq<char>, Seq<char>);

/// Stable insertion of `x` after every entry whose name does not come after `x`'s.
pub open spec fn insert_by_name(s: Seq<SpecModel>, x: SpecModel) -> Seq<SpecModel>
    decreases s.len(),
{
    if s.len() == 0 || !name_lt(x.0, s.last().0) {
        s.push(x)
    } else {
        insert_by_name(s.drop_last(), x).push(s.last())
    }
}

/// The stable sort of `s` by name.
pub open spec fn sort_by_name(s: Seq<SpecModel>) -> Seq<SpecModel>
    decreases s.len(),
{
    if s.len() == 0 {
        s
    } else {
        insert_by_name(sort_by_name(s.drop_last()), s.last())
    }
}

pub open spec fn spec_model(c: CommandSpec) -> SpecModel {
    (c.name@, c.description@)
}

/// Whether `a` comes before `b` in byte order.
pub(crate) fn str_lt(a: &str, b: &str) -> (r: bool)
    ensures
        r == bytes_lt(a.spec_bytes(), b.spec_bytes()),
{
    let x = a.as_bytes();
    let y = b.as_bytes();
    let mut i: usize = 0;
    proof {
        assert(x@.skip(0) == x@);
        assert(y@.skip(0) == y@);
    }
    while i < x.len() && i < y.len()
        invariant
            x@ == a.spec_bytes(),
            y@ == b.spec_bytes(),
            i <= x@.len(),
            i <= y@.len(),
            bytes_lt(x@, y@) == bytes_lt(x@.skip(i as int), y@.skip(i as int)),
        decreases x@.len() - i,
    {
        if x[i] != y[i] {
            return x[i] < y[i];
        }
        proof {
            assert(x@.skip(i as int).drop_first() == x@.skip(i + 1));
            assert(y@.skip(i as int).drop_first() == y@.skip(i + 1));
        }
        i = i + 1;
    }
    i < y.len()
}

impl CommandBus {
    pub fn new() -> (r: Self)
        ensures
            r@ == Seq::<CommandEntry>::empty(),
    {
        CommandBus { commands: Vec::new() }
    }

    fn position(&self, name: &str) -> (r: Option<usize>)
        ensures
            r is None <==> find_key(self@, name@) < 0,
            r matches Some(i) ==> i == find_key(self@, name@) && i < self.commands@.len(),
            self@.len() == self.commands@.len(),
    {
        proof {
            lemma_find_key(self@, name@);
            assert(self@.take(self.commands.len() as int) == self@);
        }
        let mut i: usize = self.commands.len();
        while i > 0
            invariant
                i <= self.commands.len(),
                self@.len() == self.commands@.len(),
                forall|k: int| 0 <= k < self.commands@.len() ==> (#[trigger] self@[k]).0 == self.commands@[k].spec.name@,
                find_key(self@, name@) == find_key(self@.take(i as int), name@),
            decreases i,
        {
            proof {
                assert(self@.take(i as int).drop_last() == self@.take(i - 1));
                assert(self@.take(i as int).last() == self@[i - 1]);
            }
            if str_eq(self.commands[i - 1].spec.name.as_str(), name) {
                return Some(i - 1);
            }
            i = i - 1;
        }
        None
    }

    /// Registers `handler` under the name of `spec`, in place of any command of that name.
    pub fn register(&mut self, spec: CommandSpec, handler: CommandHandler)
        ensures
            find_key(old(self)@, spec.name@) >= 0 ==> final(self)@ == old(self)@.update(
                find_key(old(self)@, spec.name@),
                (spec.name@, (spec.description@, handler)),
            ),
            find_key(old(self)@, spec.name@) < 0 ==> final(self)@ == old(self)@.push(
                (spec.name@, (spec.description@, handler)),
            ),
    {
        let ghost entry = (spec.name@, (spec.description@, handler));
        match self.position(spec.name.as_str()) {
            Some(i) => {
                self.commands.set(i, RegisteredCommand { spec, handler });
                proof {
                    assert(self@ == old(self)@.update(i as int, entry));
                }
            },
            None => {
                self.commands.push(RegisteredCommand { spec, handler });
                proof {
                    assert(self@ == old(self)@.push(entry));
                }
            },
        }
    }

    /// The handler registered under `name`.
    pub fn handler(&self, name: &str) -> (r: Option<CommandHandler>)
        ensures
            r == (if find_key(self@, name@) >= 0 {
                Some(self@[find_key(self@, name@)].1.1)
            } else {
                None
            }),
    {
        match self.position(name) {
            Some(i) => Some(self.commands[i].handler),
            None => None,
        }
    }

    /// The names and descriptions of all commands, sorted by name.
    pub fn specs(&self) -> (r: Vec<CommandSpec>)
        ensures
            r@.map_values(|c: CommandSpec| spec_model(c)) == sort_by_name(
                self@.map_values(|e: CommandEntry| (e.0, e.1.0)),
            ),
    {
        let ghost src = self@.map_values(|e: CommandEntry| (e.0, e.1.0));
        let mut out: Vec<CommandSpec> = Vec::new();
        let mut i: usize = 0;
        while i < self.commands.len()
            invariant
                i <= self.commands@.len(),
                src.len() == self.commands@.len(),
                forall|k: int| 0 <= k < src.len() ==> #[trigger] src[k] == spec_model(self.commands@[k].spec),
                out@.map_values(|c: CommandSpec| spec_model(c)) == sort_by_name(src.take(i as int)),
            decreases self.commands@.len() - i,
        {
            let x = self.commands[i].spec.clone();
            let ghost xm = spec_model(x);
            proof {
                assert(xm == src[i as int]);
            }
            let ghost before = out@.map_values(|c: CommandSpec| spec_model(c));
            let mut j: usize = out.len();
            proof {
                assert(before.take(j as int) == before);
                assert(before.skip(j as int) == Seq::<SpecModel>::empty());
                assert(insert_by_name(before, xm) + Seq::<SpecModel>::empty() == insert_by_name(before, xm));
            }
            while j > 0 && str_lt(x.name.as_str(), out[j - 1].name.as_str())
                invariant
                    j <= out@.len(),
                    before == out@.map_values(|c: CommandSpec| spec_model(c)),
                    xm == spec_model(x),
                    insert_by_name(before, xm) == insert_by_name(before.take(j as int), xm) + before.skip(j as int),
                decreases j,
            {
                proof {
                    let tj = before.take(j as int);
                    assert(tj.drop_last() == before.take(j - 1));
                    assert(tj.last() == before[j - 1]);
                    assert(before[j - 1] == spec_model(out@[j - 1]));
                    vstd::utf8::encode_utf8_decode_utf8(x.name@);
                    vstd::utf8::encode_utf8_decode_utf8(out@[j - 1].name@);
                    assert(insert_by_name(before.take(j - 1), xm).push(before[j - 1]) + before.skip(j as int)
                        == insert_by_name(before.take(j - 1), xm) + before.skip(j - 1));
                }
                j = j - 1;
            }
            proof {
                let tj = before.take(j as int);
                if j > 0 {
                    assert(tj.last() == before[j - 1]);
                    assert(before[j - 1] == spec_model(out@[j - 1]));
                    vstd::utf8::encode_utf8_decode_utf8(x.name@);
                    vstd::utf8::encode_utf8_decode_utf8(out@[j - 1].name@);
                }
                assert(insert_by_name(tj, xm) == tj.push(xm));
            }
            out.insert(j, x);
            proof {
                assert(out@.map_values(|c: CommandSpec| spec_model(c)) == before.take(j as int).push(xm) + before.skip(j as int));
                assert(src.take(i + 1).drop_last() == src.take(i as int));
                assert(src.take(i + 1).last() == xm);
            }
            i = i + 1;
        }
        proof {
            assert(src.take(self.commands@.len() as int) == src);
        }
        out
    }

    pub fn contains(&self, name: &str) -> (r: bool)
        ensures
            r == (find_key(self@, name@) >= 0),
    {
        self.position(name).is_some()
    }
}

impl Default for CommandBus {
    fn default() -> (r: Self)
        ensures
            r@ == Seq::<CommandEntry>::empty(),
    {
        CommandBus::new()
    }
}

} // verus!
