//! The CONFIG command: reads configuration options.

use vstd::prelude::*;

use crate::commands::{CommandContext, CtxModel};
use crate::config::{config_value, ConfigKey};
use crate::parser::{
    ascii_bytes, bytes_eq_str, lit_bytes, lower_bytes, lower_bytes_spec, unpack_spec, values_view,
    SpecValue, Value,
};

verus! {

/// Reads configuration options.
pub struct ConfigCommand;

/// What CONFIG replies, with the context always untouched: `CONFIG GET dir`
/// is a two-element array naming the option and its value, `CONFIG GET
/// dbfilename` is the value alone, and anything else is the matching error
/// text. The subcommand is compared case-insensitively, option names
/// exactly.
pub open spec fn config_post(
    args: Seq<SpecValue>,
    pre: CtxModel,
    post: CtxModel,
    reply: SpecValue,
) -> bool {
    &&& post == pre
    &&& reply == (if args.len() < 1 {
        SpecValue::SimpleError(lit_bytes("Missing arguments! Correct usage CONFIG <sub-command>"@))
    } else {
        match unpack_spec(args[0]) {
            None => SpecValue::SimpleError(
                lit_bytes("Missing arguments! Correct usage CONFIG <sub-command>"@),
            ),
            Some(sub) => if lower_bytes_spec(sub) == lit_bytes("get"@) {
                if args.len() < 2 {
                    SpecValue::SimpleError(
                        lit_bytes("Missing arguments! Correct usage CONFIG GET <option>"@),
                    )
                } else {
                    match unpack_spec(args[1]) {
                        None => SpecValue::SimpleError(
                            lit_bytes("Missing arguments! Correct usage CONFIG GET <option>"@),
                        ),
                        Some(opt) => if opt == lit_bytes("dir"@) {
                            SpecValue::Array(
                                seq![
                                    SpecValue::SimpleString(lit_bytes("dir"@)),
                                    SpecValue::SimpleString(
                                        config_value(pre.config, ConfigKey::Dir),
                                    ),
                                ],
                            )
                        } else if opt == lit_bytes("dbfilename"@) {
                            SpecValue::SimpleString(
                                config_value(pre.config, ConfigKey::DbFilename),
                            )
                        } else {
                            SpecValue::SimpleError(lit_bytes("Invalid config get option"@))
                        },
                    }
                }
            } else {
                SpecValue::SimpleError(lit_bytes("Invalid config sub command"@))
            },
        }
    })
}

impl ConfigCommand {
    /// The registry name of the command.
    pub fn name(&self) -> (r: &'static str)
        ensures
            r@ == "config"@,
    {
        "config"
    }

    /// Reads the option named by `CONFIG GET <option>`.
    pub fn exec(&self, args: Vec<Value>, context: &mut CommandContext, now_ms: u64) -> (r: Value)
        ensures
            *final(context) == *old(context),
            config_post(values_view(args@), old(context)@, final(context)@, r@),
    {
        proof {
            reveal_strlit("Missing arguments! Correct usage CONFIG <sub-command>");
            assert("Missing arguments! Correct usage CONFIG <sub-command>".is_ascii());
        }
        if args.len() < 1 {
            return Value::SimpleError(
                ascii_bytes("Missing arguments! Correct usage CONFIG <sub-command>"),
            );
        }
        let sub = match args[0].unpack_as_string() {
            Some(s) => s,
            None => {
                return Value::SimpleError(
                    ascii_bytes("Missing arguments! Correct usage CONFIG <sub-command>"),
                );
            },
        };
        let lsub = lower_bytes(sub.as_slice());
        proof {
            reveal_strlit("get");
            assert("get".is_ascii());
        }
        if bytes_eq_str(&lsub, "get") {
            proof {
                reveal_strlit("Missing arguments! Correct usage CONFIG GET <option>");
                assert("Missing arguments! Correct usage CONFIG GET <option>".is_ascii());
            }
            if args.len() < 2 {
                return Value::SimpleError(
                    ascii_bytes("Missing arguments! Correct usage CONFIG GET <option>"),
                );
            }
            let opt = match args[1].unpack_as_string() {
                Some(o) => o,
                None => {
                    return Value::SimpleError(
                        ascii_bytes("Missing arguments! Correct usage CONFIG GET <option>"),
                    );
                },
            };
            proof {
                reveal_strlit("dir");
                reveal_strlit("dbfilename");
                reveal_strlit("Invalid config get option");
                assert("dir".is_ascii());
                assert("dbfilename".is_ascii());
                assert("Invalid config get option".is_ascii());
            }
            if bytes_eq_str(&opt, "dir") {
                let mut items: Vec<Value> = Vec::new();
                items.push(Value::SimpleString(ascii_bytes("dir")));
                items.push(Value::SimpleString(context.config.get(ConfigKey::Dir)));
                let r = Value::Array(items);
                proof {
                    let iv = match r@ {
                        SpecValue::Array(x) => x,
                        _ => Seq::empty(),
                    };
                    assert(iv.len() == 2);
                    assert(iv[0] == items@[0]@ && iv[1] == items@[1]@);
                    assert(items@[0]@ == SpecValue::SimpleString(lit_bytes("dir"@)));
                    assert(items@[1]@ == SpecValue::SimpleString(
                        config_value(old(context)@.config, ConfigKey::Dir),
                    ));
                    assert(iv =~= seq![
                        SpecValue::SimpleString(lit_bytes("dir"@)),
                        SpecValue::SimpleString(
                            config_value(old(context)@.config, ConfigKey::Dir),
                        ),
                    ]);
                }
                r
            } else if bytes_eq_str(&opt, "dbfilename") {
                Value::SimpleString(context.config.get(ConfigKey::DbFilename))
            } else {
                Value::SimpleError(ascii_bytes("Invalid config get option"))
            }
        } else {
            proof {
                reveal_strlit("Invalid config sub command");
                assert("Invalid config sub command".is_ascii());
            }
            Value::SimpleError(ascii_bytes("Invalid config sub command"))
        }
    }
}

} // verus!
