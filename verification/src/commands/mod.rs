//! Command dispatch: a registry of named handlers executed against the
//! shared keyspace and configuration, each returning a RESP reply value.

pub mod base_commands;
pub mod config_commands;
pub mod storage_commands;
pub mod x_commands;

use vstd::prelude::*;

use crate::config::{ConfigModel, Configuration};
use crate::parser::{lit_bytes, lower_bytes, lower_bytes_spec, values_view, SpecValue, Value};
use crate::storage::{CellModel, Storage};

verus! {

/// Mathematical model of the shared state a command acts on.
pub struct CtxModel {
    pub storage: Map<Seq<u8>, CellModel>,
    pub config: ConfigModel,
}

/// The shared state handed to every handler: the keyspace and the
/// configuration, guarded by one lock at the connection layer.
pub struct CommandContext {
    pub storage: Storage,
    pub config: Configuration,
}

impl View for CommandContext {
    type V = CtxModel;

    open spec fn view(&self) -> CtxModel {
        CtxModel { storage: self.storage@, config: self.config@ }
    }
}

impl CommandContext {
    /// Bundles a keyspace and a configuration into a command context.
    pub fn new(storage: Storage, config: Configuration) -> (r: CommandContext)
        ensures
            r.storage == storage,
            r.config == config,
    {
        CommandContext { storage, config }
    }
}

/// The handlers a registry entry can name.
#[derive(PartialEq, Eq, Structural, Clone, Copy, Debug)]
pub enum CommandKind {
    Ping,
    Echo,
    Store,
    Get,
    Keys,
    ValueType,
    XAdd,
    XRange,
    XRead,
    Config,
}

/// The first handler registered under `name`, if any.
pub open spec fn reg_lookup(s: Seq<(Seq<u8>, CommandKind)>, name: Seq<u8>) -> Option<CommandKind>
    decreases s.len(),
{
    if s.len() == 0 {
        None
    } else if s[0].0 == name {
        Some(s[0].1)
    } else {
        reg_lookup(s.drop_first(), name)
    }
}

/// The registry that `CommandExecutor::new` builds: every command of the
/// server under its lower-case name.
pub open spec fn std_registry() -> Seq<(Seq<u8>, CommandKind)> {
    seq![
        (lit_bytes("ping"@), CommandKind::Ping),
        (lit_bytes("echo"@), CommandKind::Echo),
        (lit_bytes("set"@), CommandKind::Store),
        (lit_bytes("xadd"@), CommandKind::XAdd),
        (lit_bytes("xrange"@), CommandKind::XRange),
        (lit_bytes("xread"@), CommandKind::XRead),
        (lit_bytes("get"@), CommandKind::Get),
        (lit_bytes("keys"@), CommandKind::Keys),
        (lit_bytes("type"@), CommandKind::ValueType),
        (lit_bytes("config"@), CommandKind::Config),
    ]
}

/// What the handler named `kind` does: the per-command postconditions,
/// gathered for the dispatcher's contract.
pub open spec fn command_post(
    kind: CommandKind,
    args: Seq<SpecValue>,
    pre: CtxModel,
    post: CtxModel,
    now: u64,
    reply: SpecValue,
) -> bool {
    match kind {
        CommandKind::Ping => base_commands::ping_post(args, pre, post, reply),
        CommandKind::Echo => base_commands::echo_post(args, pre, post, reply),
        CommandKind::Store => storage_commands::set_post(args, pre, post, now, reply),
        CommandKind::Get => storage_commands::get_post(args, pre, post, now, reply),
        CommandKind::Keys => storage_commands::keys_post(args, pre, post, reply),
        CommandKind::ValueType => storage_commands::type_post(args, pre, post, now, reply),
        CommandKind::XAdd => x_commands::xadd_post(args, pre, post, now, reply),
        CommandKind::XRange => x_commands::xrange_post(args, pre, post, now, reply),
        CommandKind::XRead => x_commands::xread_post(args, pre, post, now, reply),
        CommandKind::Config => config_commands::config_post(args, pre, post, reply),
    }
}

/// One dispatch step against the registry `reg`: the handler registered
/// under `name` ran at instant `now` with the given arguments, or, for an
/// unregistered name, the reply is the unknown-command error and the
/// context is untouched.
pub open spec fn dispatch_outcome(
    reg: Seq<(Seq<u8>, CommandKind)>,
    name: Seq<u8>,
    args: Seq<SpecValue>,
    pre: CtxModel,
    post: CtxModel,
    now: u64,
    reply: SpecValue,
) -> bool {
    match reg_lookup(reg, name) {
        Some(kind) => command_post(kind, args, pre, post, now, reply),
        None => reply == SpecValue::SimpleError(lit_bytes("unknown command"@)) && post == pre,
    }
}

/// The name-to-handler registry. Dispatch compares the lower-cased command
/// name against the registered names.
pub struct CommandExecutor {
    commands: Vec<(Vec<u8>, CommandKind)>,
}

impl View for CommandExecutor {
    type V = Seq<(Seq<u8>, CommandKind)>;

    closed spec fn view(&self) -> Seq<(Seq<u8>, CommandKind)> {
        Seq::new(
            self.commands@.len(),
            |i: int|
                if 0 <= i < self.commands@.len() {
                    (self.commands@[i].0@, self.commands@[i].1)
                } else {
                    (Seq::empty(), CommandKind::Ping)
                },
        )
    }
}

impl CommandExecutor {
    /// An executor with every command of the server registered.
    pub fn new() -> (r: CommandExecutor)
        ensures
            r@ == std_registry(),
    {
        let mut executor = CommandExecutor { commands: Vec::new() };
        executor.init_def();
        proof {
            assert(executor@ =~= std_registry());
        }
        executor
    }

    /// Registers `kind` under `name`.
    fn register(&mut self, name: Vec<u8>, kind: CommandKind)
        ensures
            final(self)@ == old(self)@.push((name@, kind)),
    {
        self.commands.push((name, kind));
        proof {
            assert(self@ =~= old(self)@.push((self.commands@.last().0@, self.commands@.last().1)));
        }
    }

    /// Registers the standard commands.
    fn init_def(&mut self)
        ensures
            final(self)@ == old(self)@ + std_registry(),
    {
        proof {
            reveal_strlit("ping");
            reveal_strlit("echo");
            reveal_strlit("set");
            reveal_strlit("xadd");
            reveal_strlit("xrange");
            reveal_strlit("xread");
            reveal_strlit("get");
            reveal_strlit("keys");
            reveal_strlit("type");
            reveal_strlit("config");
            assert("ping".is_ascii() && "echo".is_ascii() && "set".is_ascii() && "xadd".is_ascii()
                && "xrange".is_ascii() && "xread".is_ascii() && "get".is_ascii()
                && "keys".is_ascii() && "type".is_ascii() && "config".is_ascii());
        }
        self.register(crate::parser::ascii_bytes("ping"), CommandKind::Ping);
        self.register(crate::parser::ascii_bytes("echo"), CommandKind::Echo);
        self.register(crate::parser::ascii_bytes("set"), CommandKind::Store);
        self.register(crate::parser::ascii_bytes("xadd"), CommandKind::XAdd);
        self.register(crate::parser::ascii_bytes("xrange"), CommandKind::XRange);
        self.register(crate::parser::ascii_bytes("xread"), CommandKind::XRead);
        self.register(crate::parser::ascii_bytes("get"), CommandKind::Get);
        self.register(crate::parser::ascii_bytes("keys"), CommandKind::Keys);
        self.register(crate::parser::ascii_bytes("type"), CommandKind::ValueType);
        self.register(crate::parser::ascii_bytes("config"), CommandKind::Config);
        proof {
            assert(final(self)@ =~= old(self)@ + std_registry());
        }
    }

    /// The handler registered under `name`, if any.
    fn lookup(&self, name: &Vec<u8>) -> (r: Option<CommandKind>)
        ensures
            r == reg_lookup(self@, name@),
    {
        let ghost s = self@;
        proof {
            assert(s.skip(0) =~= s);
        }
        let mut i: usize = 0;
        while i < self.commands.len()
            invariant
                i <= self.commands@.len(),
                s == self@,
                s.len() == self.commands@.len(),
                reg_lookup(s, name@) == reg_lookup(s.skip(i as int), name@),
            decreases self.commands@.len() - i,
        {
            proof {
                assert(s.skip(i as int)[0] == s[i as int]);
                assert(s[i as int].0 == self.commands@[i as int].0@);
            }
            if crate::parser::bytes_eq(&self.commands[i].0, name) {
                return Some(self.commands[i].1);
            }
            proof {
                assert(s.skip(i as int).drop_first() =~= s.skip(i + 1));
            }
            i += 1;
        }
        proof {
            assert(s.skip(i as int).len() == 0);
        }
        None
    }

    /// Looks the lower-cased command name up and runs its handler at instant
    /// `now_ms`; an unregistered name replies the unknown-command error and
    /// leaves the context untouched.
    pub fn try_exec_at(
        &self,
        command_name: Vec<u8>,
        args: Vec<Value>,
        context: &mut CommandContext,
        now_ms: u64,
    ) -> (r: Value)
        requires
            old(context).storage.wf(),
        ensures
            final(context).storage.wf(),
            dispatch_outcome(
                self@,
                lower_bytes_spec(command_name@),
                values_view(args@),
                old(context)@,
                final(context)@,
                now_ms,
                r@,
            ),
    {
        let lname = lower_bytes(command_name.as_slice());
        match self.lookup(&lname) {
            Some(kind) => match kind {
                CommandKind::Ping => base_commands::PingCommand.exec(args, context, now_ms),
                CommandKind::Echo => base_commands::EchoCommand.exec(args, context, now_ms),
                CommandKind::Store => storage_commands::StorageSetCommand.exec(
                    args,
                    context,
                    now_ms,
                ),
                CommandKind::Get => storage_commands::StorageGetCommand.exec(
                    args,
                    context,
                    now_ms,
                ),
                CommandKind::Keys => storage_commands::StorageKeysCommand.exec(
                    args,
                    context,
                    now_ms,
                ),
                CommandKind::ValueType => storage_commands::StorageValueTypeCommand.exec(
                    args,
                    context,
                    now_ms,
                ),
                CommandKind::XAdd => x_commands::StorageXAddCommand.exec(args, context, now_ms),
                CommandKind::XRange => x_commands::StorageXRangeCommand.exec(
                    args,
                    context,
                    now_ms,
                ),
                CommandKind::XRead => x_commands::StorageXReadCommand.exec(args, context, now_ms),
                CommandKind::Config => config_commands::ConfigCommand.exec(args, context, now_ms),
            },
            None => {
                proof {
                    reveal_strlit("unknown command");
                    assert("unknown command".is_ascii());
                }
                Value::SimpleError(crate::parser::ascii_bytes("unknown command"))
            },
        }
    }

    /// Runs the named command at the instant the system clock reports:
    /// whatever the clock returned, the outcome is a dispatch at some
    /// instant.
    pub fn try_exec(
        &self,
        command_name: Vec<u8>,
        args: Vec<Value>,
        context: &mut CommandContext,
    ) -> (r: Value)
        requires
            old(context).storage.wf(),
        ensures
            final(context).storage.wf(),
            exists|now: u64|
                #[trigger] dispatch_outcome(
                    self@,
                    lower_bytes_spec(command_name@),
                    values_view(args@),
                    old(context)@,
                    final(context)@,
                    now,
                    r@,
                ),
    {
        let now = crate::storage::now_millis();
        let r = self.try_exec_at(command_name, args, context, now);
        r
    }
}

/// Splits a decoded request into the lower-cased command name and its
/// arguments: the request must be an array whose first element carries a
/// text.
pub fn extract_command(value: Value) -> (r: Option<(Vec<u8>, Vec<Value>)>)
    ensures
        match r {
            Some(p) => (match value@ {
                SpecValue::Array(items) => items.len() >= 1 && (match crate::parser::unpack_spec(
                    items[0],
                ) {
                    Some(t) => p.0@ == lower_bytes_spec(t) && values_view(p.1@) == items.skip(1),
                    None => false,
                }),
                _ => false,
            }),
            None => (match value@ {
                SpecValue::Array(items) => items.len() == 0 || crate::parser::unpack_spec(
                    items[0],
                ) is None,
                _ => true,
            }),
        },
{
    match value {
        Value::Array(arr) => {
            let ghost items = match value@ {
                SpecValue::Array(x) => x,
                _ => Seq::empty(),
            };
            proof {
                assert(items.len() == arr@.len());
                assert(forall|x: int| 0 <= x < arr@.len() ==> items[x] == (#[trigger] arr@[x])@);
            }
            let mut arr = arr;
            if arr.len() == 0 {
                return None;
            }
            let first = arr.remove(0);
            proof {
                assert(first@ == items[0]);
            }
            match first.unpack_as_string() {
                Some(t) => {
                    let lname = lower_bytes(t.as_slice());
                    proof {
                        assert forall|x: int| 0 <= x < arr@.len() implies values_view(arr@)[x]
                            == items.skip(1)[x] by {
                            assert(arr@[x]@ == items[x + 1]);
                        }
                        assert(values_view(arr@) =~= items.skip(1));
                    }
                    Some((lname, arr))
                },
                None => None,
            }
        },
        _ => None,
    }
}

} // verus!
