//! The connection-level commands: PING and ECHO.

use vstd::prelude::*;

use crate::commands::{CommandContext, CtxModel};
use crate::parser::{ascii_bytes, lit_bytes, values_view, SpecValue, Value};

verus! {

/// Replies `PONG` to every request.
pub struct PingCommand;

/// What PING replies: the fixed pong, with the context untouched.
pub open spec fn ping_post(
    args: Seq<SpecValue>,
    pre: CtxModel,
    post: CtxModel,
    reply: SpecValue,
) -> bool {
    &&& reply == SpecValue::SimpleString(lit_bytes("PONG"@))
    &&& post == pre
}

impl PingCommand {
    /// The registry name of the command.
    pub fn name(&self) -> (r: &'static str)
        ensures
            r@ == "ping"@,
    {
        "ping"
    }

    /// Ignores its arguments and replies `PONG`.
    pub fn exec(&self, args: Vec<Value>, context: &mut CommandContext, now_ms: u64) -> (r: Value)
        ensures
            *final(context) == *old(context),
            ping_post(values_view(args@), old(context)@, final(context)@, r@),
    {
        proof {
            reveal_strlit("PONG");
            assert("PONG".is_ascii());
        }
        Value::SimpleString(ascii_bytes("PONG"))
    }
}

/// Replies with its single argument unchanged.
pub struct EchoCommand;

/// What ECHO replies: its first argument as given, or the usage error when
/// no argument came; the context is untouched.
pub open spec fn echo_post(
    args: Seq<SpecValue>,
    pre: CtxModel,
    post: CtxModel,
    reply: SpecValue,
) -> bool {
    &&& reply == (if args.len() < 1 {
        SpecValue::SimpleError(lit_bytes("Missing arguments! Correct usage ECHO <message>"@))
    } else {
        args[0]
    })
    &&& post == pre
}

impl EchoCommand {
    /// The registry name of the command.
    pub fn name(&self) -> (r: &'static str)
        ensures
            r@ == "echo"@,
    {
        "echo"
    }

    /// Hands the first argument back.
    pub fn exec(&self, args: Vec<Value>, context: &mut CommandContext, now_ms: u64) -> (r: Value)
        ensures
            *final(context) == *old(context),
            echo_post(values_view(args@), old(context)@, final(context)@, r@),
    {
        if args.len() < 1 {
            proof {
                reveal_strlit("Missing arguments! Correct usage ECHO <message>");
                assert("Missing arguments! Correct usage ECHO <message>".is_ascii());
            }
            return Value::SimpleError(
                ascii_bytes("Missing arguments! Correct usage ECHO <message>"),
            );
        }
        let mut args = args;
        let first = args.remove(0);
        first
    }
}

} // verus!
