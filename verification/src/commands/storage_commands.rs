//! The scalar keyspace commands: SET, GET, KEYS and TYPE.

use vstd::prelude::*;

use crate::commands::{CommandContext, CtxModel};
use crate::parser::{
    ascii_bytes, bytes_eq_str, lit_bytes, lower_bytes, lower_bytes_spec, parse_int, parse_num,
    type_of, unpack_spec, values_view, SpecValue, Type, Value,
};
use crate::storage::{cell_expired, CellModel};

verus! {

/// `now + delta` milliseconds, clamped to the largest representable instant.
pub open spec fn deadline_after(now: u64, delta: int) -> u64 {
    if now + delta > u64::MAX {
        u64::MAX
    } else {
        (now + delta) as u64
    }
}

/// The context with `key` bound to `value` in the keyspace, everything else
/// untouched.
pub open spec fn ctx_stored(
    pre: CtxModel,
    key: Seq<u8>,
    value: SpecValue,
    expire: Option<u64>,
) -> CtxModel {
    CtxModel { storage: pre.storage.insert(key, CellModel { value, expire }), config: pre.config }
}

/// The fixed `OK` status reply.
pub open spec fn ok_reply() -> SpecValue {
    SpecValue::SimpleString(lit_bytes("OK"@))
}

/// Stores a value under a key, optionally with a deadline.
pub struct StorageSetCommand;

/// What SET does: `SET key value` stores the value with no deadline; the
/// form `SET key value PX n` stores it with deadline `now + n` milliseconds
/// (any other option token stores with no deadline); anything else is the
/// usage error and leaves the context untouched. The reply to a store is
/// `OK`.
pub open spec fn set_post(
    args: Seq<SpecValue>,
    pre: CtxModel,
    post: CtxModel,
    now: u64,
    reply: SpecValue,
) -> bool {
    let usage = SpecValue::SimpleError(
        lit_bytes("Missing arguments! Correct usage SET <key> <value> [<expiration-in-millis>]"@),
    );
    if args.len() < 2 {
        reply == usage && post == pre
    } else {
        match unpack_spec(args[0]) {
            None => reply == usage && post == pre,
            Some(key) => if args.len() == 2 {
                post == ctx_stored(pre, key, args[1], None) && reply == ok_reply()
            } else {
                match unpack_spec(args[2]) {
                    None => reply == usage && post == pre,
                    Some(opt) => if lower_bytes_spec(opt) == lit_bytes("px"@) {
                        if args.len() < 4 {
                            reply == usage && post == pre
                        } else {
                            match unpack_spec(args[3]) {
                                None => reply == usage && post == pre,
                                Some(ptext) => match parse_num(ptext) {
                                    Some(n) => if 0 <= n <= usize::MAX as int {
                                        post == ctx_stored(
                                            pre,
                                            key,
                                            args[1],
                                            Some(deadline_after(now, n)),
                                        ) && reply == ok_reply()
                                    } else {
                                        reply == usage && post == pre
                                    },
                                    None => reply == usage && post == pre,
                                },
                            }
                        }
                    } else {
                        post == ctx_stored(pre, key, args[1], None) && reply == ok_reply()
                    },
                }
            },
        }
    }
}

impl StorageSetCommand {
    /// The registry name of the command.
    pub fn name(&self) -> (r: &'static str)
        ensures
            r@ == "set"@,
    {
        "set"
    }

    /// Stores `args[1]` under `args[0]`, with a `PX` deadline if given.
    pub fn exec(&self, args: Vec<Value>, context: &mut CommandContext, now_ms: u64) -> (r: Value)
        requires
            old(context).storage.wf(),
        ensures
            final(context).storage.wf(),
            set_post(values_view(args@), old(context)@, final(context)@, now_ms, r@),
    {
        proof {
            reveal_strlit("Missing arguments! Correct usage SET <key> <value> [<expiration-in-millis>]");
            assert("Missing arguments! Correct usage SET <key> <value> [<expiration-in-millis>]".is_ascii());
        }
        if args.len() < 2 {
            return Value::SimpleError(
                ascii_bytes(
                    "Missing arguments! Correct usage SET <key> <value> [<expiration-in-millis>]",
                ),
            );
        }
        let key = match args[0].unpack_as_string() {
            Some(k) => k,
            None => {
                return Value::SimpleError(
                    ascii_bytes(
                        "Missing arguments! Correct usage SET <key> <value> [<expiration-in-millis>]",
                    ),
                );
            },
        };
        let mut expiration: Option<u64> = None;
        if args.len() > 2 {
            let opt = match args[2].unpack_as_string() {
                Some(o) => o,
                None => {
                    return Value::SimpleError(
                        ascii_bytes(
                            "Missing arguments! Correct usage SET <key> <value> [<expiration-in-millis>]",
                        ),
                    );
                },
            };
            let lopt = lower_bytes(opt.as_slice());
            proof {
                reveal_strlit("px");
                assert("px".is_ascii());
            }
            if bytes_eq_str(&lopt, "px") {
                if args.len() < 4 {
                    return Value::SimpleError(
                        ascii_bytes(
                            "Missing arguments! Correct usage SET <key> <value> [<expiration-in-millis>]",
                        ),
                    );
                }
                let ptext = match args[3].unpack_as_string() {
                    Some(p) => p,
                    None => {
                        return Value::SimpleError(
                            ascii_bytes(
                                "Missing arguments! Correct usage SET <key> <value> [<expiration-in-millis>]",
                            ),
                        );
                    },
                };
                match parse_int(ptext.as_slice()) {
                    Some(n) => {
                        let delta = n as u64;
                        let deadline = if now_ms > u64::MAX - delta {
                            u64::MAX
                        } else {
                            now_ms + delta
                        };
                        expiration = Some(deadline);
                    },
                    None => {
                        return Value::SimpleError(
                            ascii_bytes(
                                "Missing arguments! Correct usage SET <key> <value> [<expiration-in-millis>]",
                            ),
                        );
                    },
                }
            }
        }
        let value = args[1].dup();
        context.storage.set(&key, value, expiration)
    }
}

/// Looks a key up, expiring it lazily.
pub struct StorageGetCommand;

/// What GET does at instant `now`: a live value comes back as itself; an
/// absent key, or one whose cell is dead at `now` (which the lookup removes),
/// comes back as the null bulk string. Too few or unusable arguments give
/// the usage error.
pub open spec fn get_post(
    args: Seq<SpecValue>,
    pre: CtxModel,
    post: CtxModel,
    now: u64,
    reply: SpecValue,
) -> bool {
    let usage = SpecValue::SimpleError(lit_bytes("Missing arguments! Correct usage GET <key>"@));
    if args.len() < 1 {
        reply == usage && post == pre
    } else {
        match unpack_spec(args[0]) {
            None => reply == usage && post == pre,
            Some(key) => {
                &&& post.config == pre.config
                &&& if !pre.storage.contains_key(key) {
                    reply == SpecValue::NullBulkString && post == pre
                } else if cell_expired(pre.storage[key], now) {
                    reply == SpecValue::NullBulkString && post.storage == pre.storage.remove(key)
                } else {
                    reply == pre.storage[key].value && post == pre
                }
            },
        }
    }
}

impl StorageGetCommand {
    /// The registry name of the command.
    pub fn name(&self) -> (r: &'static str)
        ensures
            r@ == "get"@,
    {
        "get"
    }

    /// Looks `args[0]` up at `now_ms`.
    pub fn exec(&self, args: Vec<Value>, context: &mut CommandContext, now_ms: u64) -> (r: Value)
        requires
            old(context).storage.wf(),
        ensures
            final(context).storage.wf(),
            get_post(values_view(args@), old(context)@, final(context)@, now_ms, r@),
    {
        proof {
            reveal_strlit("Missing arguments! Correct usage GET <key>");
            assert("Missing arguments! Correct usage GET <key>".is_ascii());
        }
        if args.len() < 1 {
            return Value::SimpleError(ascii_bytes("Missing arguments! Correct usage GET <key>"));
        }
        let key = match args[0].unpack_as_string() {
            Some(k) => k,
            None => {
                return Value::SimpleError(
                    ascii_bytes("Missing arguments! Correct usage GET <key>"),
                );
            },
        };
        match context.storage.get_at(&key, now_ms) {
            Some(v) => v,
            None => Value::NullBulkString,
        }
    }
}

/// Lists the stored keys.
pub struct StorageKeysCommand;

/// What KEYS replies: an array holding exactly one bulk string for each
/// stored key, with no duplicates and in no promised order; the context is
/// untouched. Cells already past their deadline but never accessed are
/// still listed.
pub open spec fn keys_post(
    args: Seq<SpecValue>,
    pre: CtxModel,
    post: CtxModel,
    reply: SpecValue,
) -> bool {
    &&& post == pre
    &&& match reply {
        SpecValue::Array(items) => {
            &&& forall|i: int| 0 <= i < items.len() ==> (#[trigger] items[i]) is BulkString
            &&& forall|k: Seq<u8>|
                pre.storage.contains_key(k) <==> exists|i: int|
                    0 <= i < items.len() && #[trigger] items[i] == SpecValue::BulkString(k)
            &&& forall|i: int, j: int|
                0 <= i < j < items.len() ==> (#[trigger] items[i]) != (#[trigger] items[j])
        },
        _ => false,
    }
}

impl StorageKeysCommand {
    /// The registry name of the command.
    pub fn name(&self) -> (r: &'static str)
        ensures
            r@ == "keys"@,
    {
        "keys"
    }

    /// Replies with the list of stored keys.
    pub fn exec(&self, args: Vec<Value>, context: &mut CommandContext, now_ms: u64) -> (r: Value)
        requires
            old(context).storage.wf(),
        ensures
            final(context).storage.wf(),
            keys_post(values_view(args@), old(context)@, final(context)@, r@),
    {
        let ks = context.storage.keys();
        let ghost kv = ks@;
        let mut items: Vec<Value> = Vec::new();
        let mut i: usize = 0;
        while i < ks.len()
            invariant
                i <= kv.len(),
                kv == ks@,
                items@.len() == i,
                forall|x: int|
                    0 <= x < i ==> (#[trigger] items@[x])@ == SpecValue::BulkString(kv[x]@),
            decreases kv.len() - i,
        {
            items.push(Value::BulkString(crate::parser::copy_bytes(&ks[i])));
            proof {
                assert(items@[i as int]@ == SpecValue::BulkString(kv[i as int]@));
            }
            i += 1;
        }
        let r = Value::Array(items);
        proof {
            let iv = match r@ {
                SpecValue::Array(x) => x,
                _ => Seq::empty(),
            };
            assert(iv.len() == kv.len());
            assert forall|x: int| 0 <= x < iv.len() implies (#[trigger] iv[x])
                == SpecValue::BulkString(kv[x]@) by {
                assert(iv[x] == items@[x]@);
            }
            assert forall|k: Seq<u8>| old(context)@.storage.contains_key(k) implies exists|x: int|
                0 <= x < iv.len() && #[trigger] iv[x] == SpecValue::BulkString(k) by {
                let x = choose|x: int| 0 <= x < kv.len() && (#[trigger] kv[x])@ == k;
                assert(iv[x] == SpecValue::BulkString(k));
            }
            assert forall|k: Seq<u8>| (exists|x: int|
                0 <= x < iv.len() && #[trigger] iv[x] == SpecValue::BulkString(k)) implies old(
                context,
            )@.storage.contains_key(k) by {
                let x = choose|x: int|
                    0 <= x < iv.len() && #[trigger] iv[x] == SpecValue::BulkString(k);
                assert(kv[x]@ == k);
            }
        }
        r
    }
}

/// Reports the semantic type of a key.
pub struct StorageValueTypeCommand;

/// The name TYPE reports for a value's kind.
pub open spec fn type_name_bytes(t: Type) -> Seq<u8> {
    match t {
        Type::Text => lit_bytes("string"@),
        Type::Stream => lit_bytes("stream"@),
    }
}

/// What TYPE replies at instant `now`: `string` for a live scalar, `stream`
/// for a live stream, `none` for an absent or just-expired key (the expired
/// cell is removed). Too few or unusable arguments give the usage error.
pub open spec fn type_post(
    args: Seq<SpecValue>,
    pre: CtxModel,
    post: CtxModel,
    now: u64,
    reply: SpecValue,
) -> bool {
    let usage = SpecValue::SimpleError(lit_bytes("Missing arguments! Correct usage TYPE <key>"@));
    if args.len() < 1 {
        reply == usage && post == pre
    } else {
        match unpack_spec(args[0]) {
            None => reply == usage && post == pre,
            Some(key) => {
                &&& post.config == pre.config
                &&& if !pre.storage.contains_key(key) {
                    reply == SpecValue::SimpleString(lit_bytes("none"@)) && post == pre
                } else if cell_expired(pre.storage[key], now) {
                    reply == SpecValue::SimpleString(lit_bytes("none"@)) && post.storage
                        == pre.storage.remove(key)
                } else {
                    reply == SpecValue::SimpleString(
                        type_name_bytes(type_of(pre.storage[key].value)),
                    ) && post == pre
                }
            },
        }
    }
}

impl StorageValueTypeCommand {
    /// The registry name of the command.
    pub fn name(&self) -> (r: &'static str)
        ensures
            r@ == "type"@,
    {
        "type"
    }

    /// Reports the type of `args[0]` at `now_ms`.
    pub fn exec(&self, args: Vec<Value>, context: &mut CommandContext, now_ms: u64) -> (r: Value)
        requires
            old(context).storage.wf(),
        ensures
            final(context).storage.wf(),
            type_post(values_view(args@), old(context)@, final(context)@, now_ms, r@),
    {
        proof {
            reveal_strlit("Missing arguments! Correct usage TYPE <key>");
            assert("Missing arguments! Correct usage TYPE <key>".is_ascii());
        }
        if args.len() < 1 {
            return Value::SimpleError(ascii_bytes("Missing arguments! Correct usage TYPE <key>"));
        }
        let key = match args[0].unpack_as_string() {
            Some(k) => k,
            None => {
                return Value::SimpleError(
                    ascii_bytes("Missing arguments! Correct usage TYPE <key>"),
                );
            },
        };
        proof {
            reveal_strlit("none");
            reveal_strlit("string");
            reveal_strlit("stream");
            assert("none".is_ascii());
            assert("string".is_ascii());
            assert("stream".is_ascii());
        }
        match context.storage.get_at(&key, now_ms) {
            Some(v) => {
                match v.get_type() {
                    Type::Text => Value::SimpleString(ascii_bytes("string")),
                    Type::Stream => Value::SimpleString(ascii_bytes("stream")),
                }
            },
            None => Value::SimpleString(ascii_bytes("none")),
        }
    }
}

} // verus!
