//! The command layer: the command that a decoded request asks for, and the
//! reply that running it gives.
use crate::resp::composite::{key_of, views_of};
use crate::resp::order::str_eq;
use crate::resp::{BulkString, Key, KeyView, Null, Resp, RespView, SimpleString};
use vstd::prelude::*;

verus! {

/// Why a request asks for no command.
#[derive(Debug, PartialEq)]
pub enum CommandError {
    /// The name is that of no command. Holds the name in upper case.
    UnsupportedCommand(String),
    /// The command takes another number of arguments. Holds the number it
    /// takes, then the number given.
    WrongNumberOfArguments(usize, usize),
    /// The request is no array, or does not start with a bulk string.
    WrongFormat,
    /// The value given as a key cannot be one.
    UnsupportedKey,
}

/// Mathematical model of a [`CommandError`].
pub enum CommandErrorView {
    UnsupportedCommand(Seq<char>),
    WrongNumberOfArguments(nat, nat),
    WrongFormat,
    UnsupportedKey,
}

impl View for CommandError {
    type V = CommandErrorView;

    open spec fn view(&self) -> CommandErrorView {
        match self {
            CommandError::UnsupportedCommand(name) => CommandErrorView::UnsupportedCommand(name@),
            CommandError::WrongNumberOfArguments(expected, actual) => {
                CommandErrorView::WrongNumberOfArguments(*expected as nat, *actual as nat)
            },
            CommandError::WrongFormat => CommandErrorView::WrongFormat,
            CommandError::UnsupportedKey => CommandErrorView::UnsupportedKey,
        }
    }
}

/// Looks a key up.
#[derive(Debug)]
pub struct Get {
    pub key: Key,
}

/// Binds a key to a value.
#[derive(Debug)]
pub struct SetCmd {
    pub key: Key,
    pub value: Resp,
}

/// Sends a message back.
#[derive(Debug)]
pub struct Echo {
    pub msg: Resp,
}

/// A command.
#[derive(Debug)]
pub enum Command {
    Get(Get),
    SetCmd(SetCmd),
    Echo(Echo),
    /// Asks about the commands themselves; answered and otherwise ignored.
    Cmd,
}

/// Mathematical model of a [`Command`].
pub enum CommandView {
    Get(KeyView),
    SetCmd(KeyView, RespView),
    Echo(RespView),
    Cmd,
}

impl View for Command {
    type V = CommandView;

    open spec fn view(&self) -> CommandView {
        match self {
            Command::Get(c) => CommandView::Get(c.key@),
            Command::SetCmd(c) => CommandView::SetCmd(c.key@, c.value@),
            Command::Echo(c) => CommandView::Echo(c.msg@),
            Command::Cmd => CommandView::Cmd,
        }
    }
}

impl Clone for Get {
    fn clone(&self) -> (r: Self)
        ensures
            r.key@ == self.key@,
    {
        Get { key: self.key.clone() }
    }
}

impl Clone for SetCmd {
    fn clone(&self) -> (r: Self)
        ensures
            r.key@ == self.key@,
            r.value@ == self.value@,
    {
        SetCmd { key: self.key.clone(), value: self.value.clone() }
    }
}

impl Clone for Echo {
    fn clone(&self) -> (r: Self)
        ensures
            r.msg@ == self.msg@,
    {
        Echo { msg: self.msg.clone() }
    }
}

impl Clone for Command {
    fn clone(&self) -> (r: Self)
        ensures
            r@ == self@,
    {
        match self {
            Command::Get(c) => Command::Get(c.clone()),
            Command::SetCmd(c) => Command::SetCmd(c.clone()),
            Command::Echo(c) => Command::Echo(c.clone()),
            Command::Cmd => Command::Cmd,
        }
    }
}

/// The model of what a lookup found.
pub open spec fn found_view(found: Option<Resp>) -> Option<RespView> {
    match found {
        Some(v) => Some(v@),
        None => None,
    }
}

/// What runs a command against a store. For a lookup it gives what it
/// found; for anything else its answer is not looked at.
pub trait CommandExecutor {
    /// Whether running `cmd` may give `answer`. Unless an executor says
    /// otherwise, it may give any.
    open spec fn answers(&self, cmd: CommandView, answer: Option<RespView>) -> bool {
        true
    }

    fn execute(&self, cmd: Command) -> (r: Option<Resp>)
        ensures
            self.answers(cmd@, found_view(r)),
    ;
}

/// The upper-case form of a text, as `str::to_uppercase` gives it.
pub uninterp spec fn uppercase_of(s: Seq<char>) -> Seq<char>;

/// `str::to_uppercase`: the upper-case form of `s`.
#[verifier::external_body]
fn upper_case(s: &str) -> (r: String)
    ensures
        r@ == uppercase_of(s@),
{
    s.to_uppercase()
}

/// The command with the upper-case name `name` and the arguments `args`.
/// The number of arguments is checked before any of them is looked at.
pub open spec fn command_named(name: Seq<char>, args: Seq<RespView>) -> Result<
    CommandView,
    CommandErrorView,
> {
    if name == "GET"@ {
        if args.len() != 1 {
            Err(CommandErrorView::WrongNumberOfArguments(1, args.len()))
        } else {
            match key_of(args[0]) {
                Some(k) => Ok(CommandView::Get(k)),
                None => Err(CommandErrorView::UnsupportedKey),
            }
        }
    } else if name == "SET"@ {
        if args.len() != 2 {
            Err(CommandErrorView::WrongNumberOfArguments(2, args.len()))
        } else {
            match key_of(args[0]) {
                Some(k) => Ok(CommandView::SetCmd(k, args[1])),
                None => Err(CommandErrorView::UnsupportedKey),
            }
        }
    } else if name == "COMMAND"@ {
        if args.len() != 0 {
            Err(CommandErrorView::WrongNumberOfArguments(0, args.len()))
        } else {
            Ok(CommandView::Cmd)
        }
    } else if name == "ECHO"@ {
        if args.len() != 1 {
            Err(CommandErrorView::WrongNumberOfArguments(1, args.len()))
        } else {
            Ok(CommandView::Echo(args[0]))
        }
    } else {
        Err(CommandErrorView::UnsupportedCommand(name))
    }
}

/// The command that the request `v` asks for: `v` is an array that starts
/// with a bulk string, the name of the command in any letter case; the
/// rest of the array are the arguments.
pub open spec fn command_of(v: RespView) -> Result<CommandView, CommandErrorView> {
    match v {
        RespView::Array(items, _) => if items.len() == 0 {
            Err(CommandErrorView::WrongFormat)
        } else {
            match items[0] {
                RespView::BulkString(name, _) => command_named(uppercase_of(name), items.skip(1)),
                _ => Err(CommandErrorView::WrongFormat),
            }
        },
        _ => Err(CommandErrorView::WrongFormat),
    }
}

/// The number of arguments that the command with the upper-case name
/// `name` takes; nothing where `name` is that of no command.
pub open spec fn arity_of(name: Seq<char>) -> Option<nat> {
    if name == "GET"@ {
        Some(1)
    } else if name == "SET"@ {
        Some(2)
    } else if name == "COMMAND"@ {
        Some(0)
    } else if name == "ECHO"@ {
        Some(1)
    } else {
        None
    }
}

/// Arity enforcement: a command that is given another number of arguments
/// than it takes is refused, with the number it takes and the number
/// given, whatever the arguments are.
pub proof fn lemma_arity_enforced(name: Seq<char>, args: Seq<RespView>)
    requires
        arity_of(name) matches Some(n) && n != args.len(),
    ensures
        command_named(name, args) == Err::<CommandView, CommandErrorView>(
            CommandErrorView::WrongNumberOfArguments(arity_of(name).unwrap(), args.len()),
        ),
{
}

/// Key restriction: a lookup or a binding whose key is an array, a map, a
/// set or a double is refused as an unsupported key.
pub proof fn lemma_key_restriction(name: Seq<char>, args: Seq<RespView>)
    requires
        name == "GET"@ || name == "SET"@,
        arity_of(name) == Some(args.len()),
        args[0] is Array || args[0] is RespMap || args[0] is RespSet || args[0] is Double,
    ensures
        command_named(name, args) == Err::<CommandView, CommandErrorView>(
            CommandErrorView::UnsupportedKey,
        ),
{
}

/// The model of the outcome of reading a command.
pub open spec fn outcome(r: Result<Command, CommandError>) -> Result<
    CommandView,
    CommandErrorView,
> {
    match r {
        Ok(c) => Ok(c@),
        Err(e) => Err(e@),
    }
}

/// The reply that says that a command was done.
pub open spec fn ok_reply() -> RespView {
    RespView::SimpleString("OK"@)
}

/// The reply to a lookup that found `found`.
pub open spec fn lookup_reply(found: Option<RespView>) -> RespView {
    match found {
        Some(v) => v,
        None => RespView::Null,
    }
}

/// The reply to a lookup that found `found`: the value, or the null value
/// where it found none.
pub fn reply_of_lookup(found: Option<Resp>) -> (r: Resp)
    ensures
        r@ == lookup_reply(found_view(found)),
{
    match found {
        Some(v) => v,
        None => Resp::Null(Null),
    }
}

impl Command {
    /// The command with the upper-case name `name` and the arguments
    /// `args`.
    pub fn with_name(name: &str, args: Vec<Resp>) -> (r: Result<Command, CommandError>)
        ensures
            outcome(r) == command_named(name@, views_of(args@)),
    {
        let mut args = args;
        let n = args.len();
        if str_eq(name, "GET") {
            if n != 1 {
                return Err(CommandError::WrongNumberOfArguments(1, n));
            }
            let key = args.pop().unwrap();
            match Key::try_from(key) {
                Ok(k) => Ok(Command::Get(Get { key: k })),
                Err(_) => Err(CommandError::UnsupportedKey),
            }
        } else if str_eq(name, "SET") {
            if n != 2 {
                return Err(CommandError::WrongNumberOfArguments(2, n));
            }
            let value = args.pop().unwrap();
            let key = args.pop().unwrap();
            match Key::try_from(key) {
                Ok(k) => Ok(Command::SetCmd(SetCmd { key: k, value })),
                Err(_) => Err(CommandError::UnsupportedKey),
            }
        } else if str_eq(name, "COMMAND") {
            if n != 0 {
                return Err(CommandError::WrongNumberOfArguments(0, n));
            }
            Ok(Command::Cmd)
        } else if str_eq(name, "ECHO") {
            if n != 1 {
                return Err(CommandError::WrongNumberOfArguments(1, n));
            }
            let msg = args.pop().unwrap();
            Ok(Command::Echo(Echo { msg }))
        } else {
            Err(CommandError::UnsupportedCommand(name.to_owned()))
        }
    }

    /// Runs the command and gives the reply. A lookup replies with what
    /// `executor` found for this very command, or with the null value; an
    /// echo replies with its message; anything else replies `OK`.
    pub fn execute<E: CommandExecutor>(&self, executor: &E) -> (r: Resp)
        ensures
            self@ is Get ==> exists|found: Option<RespView>|
                executor.answers(self@, found) && r@ == lookup_reply(found),
            self@ matches CommandView::Echo(m) ==> r@ == m,
            self@ is SetCmd || self@ is Cmd ==> r@ == ok_reply(),
    {
        match self {
            Command::Get(c) => c.execute(executor),
            Command::SetCmd(c) => c.execute(executor),
            Command::Echo(c) => c.execute(executor),
            Command::Cmd => Resp::SimpleString(SimpleString::new("OK")),
        }
    }
}

/// The conversion reads the name through `uppercase_of`, so its contract
/// stands on `try_from` itself, over the models.
impl vstd::std_specs::convert::TryFromSpecImpl<Resp> for Command {
    open spec fn obeys_try_from_spec() -> bool {
        false
    }

    open spec fn try_from_spec(value: Resp) -> Result<Self, CommandError> {
        Err(CommandError::WrongFormat)
    }
}

impl TryFrom<Resp> for Command {
    type Error = CommandError;

    /// The command that the request `value` asks for.
    fn try_from(value: Resp) -> (r: Result<Self, CommandError>)
        ensures
            outcome(r) == command_of(value@),
    {
        match value {
            Resp::Array(v) => {
                let mut items = v.into_items();
                if items.len() == 0 {
                    return Err(CommandError::WrongFormat);
                }
                let ghost all = views_of(items@);
                let first = items.remove(0);
                assert(views_of(items@) =~= all.skip(1));
                assert(first@ == all[0]);
                match first {
                    Resp::BulkString(s) => {
                        let name = upper_case(s.value.as_str());
                        Command::with_name(name.as_str(), items)
                    },
                    _ => Err(CommandError::WrongFormat),
                }
            },
            _ => Err(CommandError::WrongFormat),
        }
    }
}

impl Get {
    fn execute<E: CommandExecutor>(&self, executor: &E) -> (r: Resp)
        ensures
            exists|found: Option<RespView>|
                executor.answers(CommandView::Get(self.key@), found) && r@ == lookup_reply(found),
    {
        let found = executor.execute(Command::Get(self.clone()));
        assert(executor.answers(CommandView::Get(self.key@), found_view(found)));
        reply_of_lookup(found)
    }
}

impl SetCmd {
    fn execute<E: CommandExecutor>(&self, executor: &E) -> (r: Resp)
        ensures
            r@ == ok_reply(),
    {
        executor.execute(Command::SetCmd(self.clone()));
        Resp::SimpleString(SimpleString::new("OK"))
    }
}

impl Echo {
    fn execute<E: CommandExecutor>(&self, _executor: &E) -> (r: Resp)
        ensures
            r@ == self.msg@,
    {
        self.msg.clone()
    }
}

} // verus!
