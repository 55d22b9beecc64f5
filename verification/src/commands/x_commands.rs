//! The stream commands: XADD, XRANGE and XREAD, and stream id parsing.

use vstd::prelude::*;

use crate::commands::{CommandContext, CtxModel};
use crate::parser::{
    all_digits, ascii_bytes, bytes_eq_str, digits_val, entries_view, int_digits, lit_bytes,
    lower_bytes, lower_bytes_spec, parse_decimal, parse_num, push_i64_digits, unpack_spec,
    values_view, SpecStreamEntry, SpecValue, StreamEntry, Value, MARK_ERROR,
};
use crate::storage::{cell_expired, CellModel};

verus! {

/// Index of the first occurrence of `b` in `s`, if any.
pub open spec fn find_byte(s: Seq<u8>, b: u8) -> Option<int>
    decreases s.len(),
{
    if s.len() == 0 {
        None
    } else if s[0] == b {
        Some(0)
    } else {
        match find_byte(s.drop_first(), b) {
            Some(i) => Some(i + 1),
            None => None,
        }
    }
}

proof fn lemma_find_byte(s: Seq<u8>, b: u8)
    ensures
        match find_byte(s, b) {
            Some(i) => 0 <= i < s.len() && s[i] == b && (forall|j: int|
                #![trigger s[j]]
                0 <= j < i ==> s[j] != b),
            None => forall|j: int| #![trigger s[j]] 0 <= j < s.len() ==> s[j] != b,
        },
    decreases s.len(),
{
    if s.len() == 0 {
    } else if s[0] == b {
    } else {
        let t = s.drop_first();
        lemma_find_byte(t, b);
        assert(forall|j: int| #![trigger t[j]] 0 <= j < t.len() ==> t[j] == s[j + 1]);
        match find_byte(t, b) {
            Some(i) => {
                assert forall|j: int| #![trigger s[j]] 0 <= j < i + 1 implies s[j] != b by {
                    if j > 0 {
                        assert(t[j - 1] == s[j]);
                    }
                }
            },
            None => {
                assert forall|j: int| #![trigger s[j]] 0 <= j < s.len() implies s[j] != b by {
                    if j > 0 {
                        assert(t[j - 1] == s[j]);
                    }
                }
            },
        }
    }
}

/// Finds the first occurrence of `b` in `s`.
fn scan_byte(s: &Vec<u8>, b: u8) -> (r: Option<usize>)
    ensures
        match r {
            Some(i) => find_byte(s@, b) == Some(i as int) && i < s@.len(),
            None => find_byte(s@, b) is None,
        },
{
    let mut i: usize = 0;
    while i < s.len()
        invariant
            i <= s@.len(),
            forall|j: int| #![trigger s@[j]] 0 <= j < i ==> s@[j] != b,
        decreases s@.len() - i,
    {
        if s[i] == b {
            proof {
                lemma_find_byte(s@, b);
                match find_byte(s@, b) {
                    Some(x) => {
                        if x < i {
                            assert(s@[x] != b);
                        } else if x > i {
                            assert(s@[i as int] != b);
                        }
                    },
                    None => {
                        assert(s@[i as int] != b);
                    },
                }
            }
            return Some(i);
        }
        i += 1;
    }
    proof {
        lemma_find_byte(s@, b);
        match find_byte(s@, b) {
            Some(x) => {
                assert(s@[x] != b);
            },
            None => {},
        }
    }
    None
}

/// Reads a dash-free digit run as an id component: all digits, value at most
/// `i64::MAX`.
pub open spec fn id_component(s: Seq<u8>) -> Option<i64> {
    if all_digits(s) && digits_val(s) <= i64::MAX as nat {
        Some(digits_val(s) as i64)
    } else {
        None
    }
}

/// Reads `v[lo..hi]` as an id component.
fn parse_id_component(v: &Vec<u8>, lo: usize, hi: usize) -> (r: Option<i64>)
    requires
        lo <= hi <= v@.len(),
    ensures
        r == id_component(v@.subrange(lo as int, hi as int)),
{
    let ghost line = v@.subrange(lo as int, hi as int);
    match parse_decimal(v.as_slice(), lo, hi) {
        Some((neg, mag)) => {
            if neg {
                proof {
                    assert(!crate::parser::is_digit(line[0]));
                    assert(!all_digits(line));
                }
                None
            } else if mag <= i64::MAX as u64 {
                proof {
                    assert(parse_num(line) == Some(digits_val(line) as int));
                }
                Some(mag as i64)
            } else {
                proof {
                    assert(parse_num(line) == Some(digits_val(line) as int));
                }
                None
            }
        },
        None => {
            proof {
                if all_digits(line) {
                    assert(parse_num(line) == Some(digits_val(line) as int));
                }
            }
            None
        },
    }
}

/// The id of the newest entry, if the stream has one.
pub open spec fn last_id(entries: Seq<SpecStreamEntry>) -> Option<(i64, i64)> {
    if entries.len() == 0 {
        None
    } else {
        Some((entries.last().millis_time, entries.last().sequence_number))
    }
}

/// Lexicographic order on ids: `a` at or before `b`.
pub open spec fn id_le(a: (i64, i64), b: (i64, i64)) -> bool {
    a.0 < b.0 || (a.0 == b.0 && a.1 <= b.1)
}

/// The id an XADD id text resolves to, against the newest stored id and the
/// clock. A text without a dash resolves to `(now, 0)` when it is `*` or a
/// bare number, else fails. `ms-*` takes the successor sequence number when
/// the newest entry has the same milliseconds, else `1` for millisecond `0`
/// and `0` otherwise. `ms-seq` is taken verbatim. Components must be plain
/// decimals that fit a signed 64-bit count; anything else fails.
pub open spec fn gen_id(id: Seq<u8>, last: Option<(i64, i64)>, now: u64) -> Option<(i64, i64)> {
    match find_byte(id, MARK_ERROR) {
        None => {
            if id == seq![42u8] || all_digits(id) {
                if now <= i64::MAX as u64 {
                    Some((now as i64, 0))
                } else {
                    None
                }
            } else {
                None
            }
        },
        Some(p) => {
            let part0 = id.take(p);
            let part1 = id.skip(p + 1);
            match id_component(part0) {
                None => None,
                Some(ms) => if part1 == seq![42u8] {
                    match last {
                        Some(l) => if l.0 == ms {
                            if l.1 == i64::MAX {
                                None
                            } else {
                                Some((ms, (l.1 + 1) as i64))
                            }
                        } else {
                            Some((ms, if ms <= 0 { 1i64 } else { 0i64 }))
                        },
                        None => Some((ms, if ms <= 0 { 1i64 } else { 0i64 })),
                    }
                } else {
                    match id_component(part1) {
                        Some(sq) => Some((ms, sq)),
                        None => None,
                    }
                },
            }
        },
    }
}

/// A literal `ms-seq` id: both components plain decimals, nothing else.
pub open spec fn strict_id(id: Seq<u8>) -> Option<(i64, i64)> {
    match find_byte(id, MARK_ERROR) {
        None => None,
        Some(p) => {
            match (id_component(id.take(p)), id_component(id.skip(p + 1))) {
                (Some(ms), Some(sq)) => Some((ms, sq)),
                _ => None,
            }
        },
    }
}

/// Resolves an XADD id text against the stored entries and the clock.
pub fn generate_stream_id(id: &Vec<u8>, entries: &Vec<StreamEntry>, now_ms: u64) -> (r: Option<
    (i64, i64),
>)
    ensures
        r == gen_id(id@, last_id(entries_view(entries@)), now_ms),
{
    let ghost lastg = last_id(entries_view(entries@));
    match scan_byte(id, MARK_ERROR) {
        None => {
            let star = id.len() == 1 && id[0] == 42;
            proof {
                if id@ =~= seq![42u8] {
                    assert(id@.len() == 1 && id@[0] == 42);
                }
                if id@.len() == 1 && id@[0] == 42 {
                    assert(id@ =~= seq![42u8]);
                }
            }
            let digits = if star {
                false
            } else {
                is_all_digits(id)
            };
            if star || digits {
                proof {
                    if star {
                        assert(id@ == seq![42u8]);
                    }
                }
                if now_ms <= i64::MAX as u64 {
                    Some((now_ms as i64, 0))
                } else {
                    None
                }
            } else {
                proof {
                    assert(id@ != seq![42u8]);
                }
                None
            }
        },
        Some(p) => {
            let ghost part0 = id@.take(p as int);
            let ghost part1 = id@.skip(p + 1);
            match parse_id_component(id, 0, p) {
                None => {
                    proof {
                        assert(id@.subrange(0, p as int) =~= part0);
                    }
                    None
                },
                Some(ms) => {
                    proof {
                        assert(id@.subrange(0, p as int) =~= part0);
                        assert(id@.subrange(p + 1, id@.len() as int) =~= part1);
                    }
                    let tail_is_star = id.len() - p == 2 && id[p + 1] == 42;
                    proof {
                        if part1 =~= seq![42u8] {
                            assert(part1.len() == 1 && part1[0] == 42);
                            assert(id@.len() - p - 1 == 1 && id@[p + 1] == 42);
                        }
                        if id@.len() - p == 2 && id@[p + 1] == 42 {
                            assert(part1 =~= seq![42u8]);
                        }
                    }
                    if tail_is_star {
                        if entries.len() > 0 {
                            let lastref = &entries[entries.len() - 1];
                            proof {
                                assert(entries_view(entries@).last() == entries@[entries@.len()
                                    - 1]@);
                            }
                            if lastref.millis_time == ms {
                                if lastref.sequence_number == i64::MAX {
                                    None
                                } else {
                                    Some((ms, lastref.sequence_number + 1))
                                }
                            } else {
                                Some((ms, if ms <= 0 { 1 } else { 0 }))
                            }
                        } else {
                            Some((ms, if ms <= 0 { 1 } else { 0 }))
                        }
                    } else {
                        match parse_id_component(id, p + 1, id.len()) {
                            Some(sq) => Some((ms, sq)),
                            None => None,
                        }
                    }
                },
            }
        },
    }
}

/// Reads a literal `ms-seq` id text.
pub fn parse_stream_id(id: &Vec<u8>) -> (r: Option<(i64, i64)>)
    ensures
        r == strict_id(id@),
{
    let n = id.len();
    match scan_byte(id, MARK_ERROR) {
        None => None,
        Some(p) => {
            proof {
                assert(id@.subrange(0, p as int) =~= id@.take(p as int));
                assert(id@.subrange(p + 1, id@.len() as int) =~= id@.skip(p + 1));
            }
            match parse_id_component(id, 0, p) {
                None => None,
                Some(ms) => match parse_id_component(id, p + 1, n) {
                    Some(sq) => Some((ms, sq)),
                    None => None,
                },
            }
        },
    }
}

/// An entry id as the wire text `ms-seq`.
pub open spec fn id_bytes(ms: i64, sq: i64) -> Seq<u8> {
    int_digits(ms as int) + seq![MARK_ERROR] + int_digits(sq as int)
}

/// Field pairs flattened into the alternating name/value array body.
pub open spec fn flat_fields(fs: Seq<(Seq<u8>, SpecValue)>) -> Seq<SpecValue> {
    Seq::new(
        2 * fs.len(),
        |i: int|
            if i % 2 == 0 {
                SpecValue::BulkString(fs[i / 2].0)
            } else {
                fs[i / 2].1
            },
    )
}

/// The wire projection of one entry: its id text, then the alternating
/// field names and values, in append order.
pub open spec fn entry_projection(e: SpecStreamEntry) -> SpecValue {
    SpecValue::Array(
        seq![
            SpecValue::BulkString(id_bytes(e.millis_time, e.sequence_number)),
            SpecValue::Array(flat_fields(e.fields)),
        ],
    )
}

/// The id text `ms-seq`.
fn id_text(ms: i64, sq: i64) -> (r: Vec<u8>)
    ensures
        r@ == id_bytes(ms, sq),
{
    let mut out: Vec<u8> = Vec::new();
    push_i64_digits(ms, &mut out);
    out.push(MARK_ERROR);
    push_i64_digits(sq, &mut out);
    proof {
        assert(out@ =~= id_bytes(ms, sq));
    }
    out
}

impl StreamEntry {
    /// The wire projection of this entry.
    pub fn as_array_value(&self) -> (r: Value)
        ensures
            r@ == entry_projection(self@),
    {
        let mut body: Vec<Value> = Vec::new();
        let mut fx: usize = 0;
        while fx < self.fields.len()
            invariant
                fx <= self.fields@.len(),
                body@.len() == 2 * fx,
                forall|x: int|
                    0 <= x < 2 * fx ==> (#[trigger] body@[x])@ == flat_fields(self@.fields)[x],
            decreases self.fields@.len() - fx,
        {
            proof {
                assert(self@.fields[fx as int] == (self.fields@[fx as int].0@, self.fields@[fx
                    as int].1@));
            }
            body.push(Value::BulkString(crate::parser::copy_bytes(&self.fields[fx].0)));
            body.push(self.fields[fx].1.dup());
            proof {
                assert(body@[2 * fx]@ == flat_fields(self@.fields)[2 * fx]);
                assert(body@[2 * fx + 1]@ == flat_fields(self@.fields)[2 * fx + 1]);
            }
            fx += 1;
        }
        let mut outer: Vec<Value> = Vec::new();
        outer.push(Value::BulkString(id_text(self.millis_time, self.sequence_number)));
        outer.push(Value::Array(body));
        let r = Value::Array(outer);
        proof {
            assert(self@.fields.len() == self.fields@.len());
            let iv = match r@ {
                SpecValue::Array(x) => x,
                _ => Seq::empty(),
            };
            assert(iv.len() == 2);
            assert(iv[0] == outer@[0]@ && iv[1] == outer@[1]@);
            assert(iv[0] == SpecValue::BulkString(
                id_bytes(self@.millis_time, self@.sequence_number),
            ));
            let bv = match outer@[1]@ {
                SpecValue::Array(x) => x,
                _ => Seq::empty(),
            };
            assert forall|x: int| 0 <= x < bv.len() implies bv[x] == flat_fields(self@.fields)[x]
                by {
                assert(bv[x] == body@[x]@);
            }
            assert(bv =~= flat_fields(self@.fields));
            assert(iv =~= seq![
                SpecValue::BulkString(id_bytes(self@.millis_time, self@.sequence_number)),
                SpecValue::Array(flat_fields(self@.fields)),
            ]);
        }
        r
    }
}

/// The entry views of an owned field list.
pub open spec fn fields_view(s: Seq<(Vec<u8>, Value)>) -> Seq<(Seq<u8>, SpecValue)> {
    Seq::new(s.len(), |i: int| (s[i].0@, s[i].1@))
}

/// The field pairs of an XADD argument list from index `i` on: alternating
/// names (which must be texts) and values.
pub open spec fn fields_from(args: Seq<SpecValue>, i: int) -> Option<Seq<(Seq<u8>, SpecValue)>>
    decreases args.len() - i,
{
    if i >= args.len() {
        Some(Seq::empty())
    } else if i + 1 >= args.len() {
        None
    } else {
        match unpack_spec(args[i]) {
            None => None,
            Some(name) => match fields_from(args, i + 2) {
                None => None,
                Some(rest) => Some(seq![(name, args[i + 1])] + rest),
            },
        }
    }
}

/// Appends an entry to a stream.
pub struct StorageXAddCommand;

/// What XADD does at instant `now`. The argument list must be `key id`
/// followed by one or more name/value pairs (even length, at least four);
/// anything else is the usage error. Against the stream stored under the
/// key — a fresh one when the key is absent or its cell expired, which the
/// lookup removes — the id text resolves as `gen_id` says; an unresolvable
/// id is the bad-id error, `0-0` is rejected as too small a start, a
/// negative component is the bad-id error, and an id at or below the newest
/// entry's is the not-greater error. Otherwise the entry is appended (the
/// cell loses any deadline) and the reply is the id text. A live non-stream
/// value under the key is the not-a-stream error.
pub open spec fn xadd_post(
    args: Seq<SpecValue>,
    pre: CtxModel,
    post: CtxModel,
    now: u64,
    reply: SpecValue,
) -> bool {
    let usage = SpecValue::SimpleError(
        lit_bytes("Missing arguments! Correct usage XADD <key> <id> [<key>] [<value>]..."@),
    );
    let bad_id = SpecValue::SimpleError(
        lit_bytes("The ID must have both values as integers! Example: 1-1"@),
    );
    let zero = SpecValue::SimpleError(
        lit_bytes("ERR The ID specified in XADD must be greater than 0-0"@),
    );
    let small = SpecValue::SimpleError(
        lit_bytes("ERR The ID specified in XADD is equal or smaller than the target stream top item"@),
    );
    if args.len() < 4 || args.len() % 2 != 0 {
        reply == usage && post == pre
    } else {
        match (unpack_spec(args[0]), unpack_spec(args[1])) {
            (Some(key), Some(id)) => match fields_from(args, 2) {
                None => reply == usage && post == pre,
                Some(fields) => {
                    &&& post.config == pre.config
                    &&& if !pre.storage.contains_key(key) || cell_expired(
                        pre.storage[key],
                        now,
                    ) {
                        let mid = if pre.storage.contains_key(key) {
                            pre.storage.remove(key)
                        } else {
                            pre.storage
                        };
                        match gen_id(id, None, now) {
                            None => reply == bad_id && post.storage == mid,
                            Some((ms, sq)) => if ms == 0 && sq == 0 {
                                reply == zero && post.storage == mid
                            } else if ms < 0 || sq < 0 {
                                reply == bad_id && post.storage == mid
                            } else {
                                let entry = SpecStreamEntry {
                                    millis_time: ms,
                                    sequence_number: sq,
                                    fields,
                                };
                                &&& post.storage == mid.insert(
                                    key,
                                    CellModel {
                                        value: SpecValue::Stream(seq![entry]),
                                        expire: None,
                                    },
                                )
                                &&& reply == SpecValue::BulkString(id_bytes(ms, sq))
                            },
                        }
                    } else {
                        match pre.storage[key].value {
                            SpecValue::Stream(entries) => match gen_id(
                                id,
                                last_id(entries),
                                now,
                            ) {
                                None => reply == bad_id && post == pre,
                                Some((ms, sq)) => if ms == 0 && sq == 0 {
                                    reply == zero && post == pre
                                } else if ms < 0 || sq < 0 {
                                    reply == bad_id && post == pre
                                } else if entries.len() > 0 && id_le(
                                    (ms, sq),
                                    (entries.last().millis_time, entries.last().sequence_number),
                                ) {
                                    reply == small && post == pre
                                } else {
                                    let entry = SpecStreamEntry {
                                        millis_time: ms,
                                        sequence_number: sq,
                                        fields,
                                    };
                                    &&& post.storage == pre.storage.insert(
                                        key,
                                        CellModel {
                                            value: SpecValue::Stream(entries.push(entry)),
                                            expire: None,
                                        },
                                    )
                                    &&& reply == SpecValue::BulkString(id_bytes(ms, sq))
                                },
                            },
                            _ => reply == SpecValue::SimpleError(lit_bytes("Not a stream!"@))
                                && post == pre,
                        }
                    }
                },
            },
            _ => reply == usage && post == pre,
        }
    }
}

impl StorageXAddCommand {
    /// The registry name of the command.
    pub fn name(&self) -> (r: &'static str)
        ensures
            r@ == "xadd"@,
    {
        "xadd"
    }

    /// Appends the entry `args[2..]` with id `args[1]` to the stream under
    /// `args[0]`.
    pub fn exec(&self, args: Vec<Value>, context: &mut CommandContext, now_ms: u64) -> (r: Value)
        requires
            old(context).storage.wf(),
        ensures
            final(context).storage.wf(),
            xadd_post(values_view(args@), old(context)@, final(context)@, now_ms, r@),
    {
        proof {
            reveal_strlit("Missing arguments! Correct usage XADD <key> <id> [<key>] [<value>]...");
            assert("Missing arguments! Correct usage XADD <key> <id> [<key>] [<value>]...".is_ascii());
            reveal_strlit("The ID must have both values as integers! Example: 1-1");
            assert("The ID must have both values as integers! Example: 1-1".is_ascii());
            reveal_strlit("ERR The ID specified in XADD must be greater than 0-0");
            assert("ERR The ID specified in XADD must be greater than 0-0".is_ascii());
            reveal_strlit("ERR The ID specified in XADD is equal or smaller than the target stream top item");
            assert("ERR The ID specified in XADD is equal or smaller than the target stream top item".is_ascii());
            reveal_strlit("Not a stream!");
            assert("Not a stream!".is_ascii());
        }
        let ghost argsv = values_view(args@);
        if args.len() < 4 || args.len() % 2 != 0 {
            return Value::SimpleError(
                ascii_bytes("Missing arguments! Correct usage XADD <key> <id> [<key>] [<value>]..."),
            );
        }
        let key = match args[0].unpack_as_string() {
            Some(k) => k,
            None => {
                return Value::SimpleError(
                    ascii_bytes(
                        "Missing arguments! Correct usage XADD <key> <id> [<key>] [<value>]...",
                    ),
                );
            },
        };
        let id = match args[1].unpack_as_string() {
            Some(t) => t,
            None => {
                return Value::SimpleError(
                    ascii_bytes(
                        "Missing arguments! Correct usage XADD <key> <id> [<key>] [<value>]...",
                    ),
                );
            },
        };
        let mut fields: Vec<(Vec<u8>, Value)> = Vec::new();
        let mut i: usize = 2;
        proof {
            assert(fields_from(argsv, 2) == (match fields_from(argsv, i as int) {
                Some(rest) => Some(fields_view(fields@) + rest),
                None => None::<Seq<(Seq<u8>, SpecValue)>>,
            })) by {
                match fields_from(argsv, 2) {
                    Some(rs) => {
                        assert(fields_view(fields@) + rs =~= rs);
                    },
                    None => {},
                }
            }
        }
        while i < args.len()
            invariant
                *context == *old(context),
                context.storage.wf(),
                argsv == values_view(args@),
                2 <= i <= args@.len(),
                i % 2 == 0,
                args@.len() % 2 == 0,
                args@.len() >= 4,
                fields_from(argsv, 2) == (match fields_from(argsv, i as int) {
                    Some(rest) => Some(fields_view(fields@) + rest),
                    None => None::<Seq<(Seq<u8>, SpecValue)>>,
                }),
            decreases args@.len() - i,
        {
            let name = match args[i].unpack_as_string() {
                Some(nm) => nm,
                None => {
                    proof {
                        assert(argsv[i as int] == args@[i as int]@);
                        assert(fields_from(argsv, i as int) is None);
                        reveal_strlit("Missing arguments! Correct usage XADD <key> <id> [<key>] [<value>]...");
                        assert("Missing arguments! Correct usage XADD <key> <id> [<key>] [<value>]...".is_ascii());
                    }
                    return Value::SimpleError(
                        ascii_bytes(
                            "Missing arguments! Correct usage XADD <key> <id> [<key>] [<value>]...",
                        ),
                    );
                },
            };
            let value = args[i + 1].dup();
            let ghost pre = fields_view(fields@);
            let ghost pair = (name@, argsv[i as int + 1]);
            proof {
                assert(argsv[i as int] == args@[i as int]@);
                assert(argsv[i as int + 1] == args@[i as int + 1]@);
                assert(fields_from(argsv, i as int) == (match fields_from(argsv, i as int + 2) {
                    None => None::<Seq<(Seq<u8>, SpecValue)>>,
                    Some(rest) => Some(seq![pair] + rest),
                }));
            }
            fields.push((name, value));
            proof {
                assert(fields_view(fields@) =~= pre.push(pair));
                match fields_from(argsv, i as int + 2) {
                    Some(rest) => {
                        assert(pre + (seq![pair] + rest) =~= (pre.push(pair)) + rest);
                    },
                    None => {},
                }
            }
            i += 2;
        }
        proof {
            assert(fields_from(argsv, i as int) == Some(Seq::<(Seq<u8>, SpecValue)>::empty()));
            assert(fields_view(fields@) + Seq::<(Seq<u8>, SpecValue)>::empty() =~= fields_view(
                fields@,
            ));
            assert(fields_from(argsv, 2) == Some(fields_view(fields@)));
        }
        match context.storage.get_at(&key, now_ms) {
            None => {
                let empty_entries: Vec<StreamEntry> = Vec::new();
                proof {
                    assert(entries_view(empty_entries@).len() == 0);
                }
                match generate_stream_id(&id, &empty_entries, now_ms) {
                    None => Value::SimpleError(
                        ascii_bytes("The ID must have both values as integers! Example: 1-1"),
                    ),
                    Some((ms, sq)) => {
                        if ms == 0 && sq == 0 {
                            Value::SimpleError(
                                ascii_bytes("ERR The ID specified in XADD must be greater than 0-0"),
                            )
                        } else if ms < 0 || sq < 0 {
                            Value::SimpleError(
                                ascii_bytes(
                                    "The ID must have both values as integers! Example: 1-1",
                                ),
                            )
                        } else {
                            let entry = StreamEntry {
                                millis_time: ms,
                                sequence_number: sq,
                                fields,
                            };
                            let ghost entry_m = entry@;
                            let mut entries: Vec<StreamEntry> = Vec::new();
                            entries.push(entry);
                            let stream = Value::Stream(entries);
                            proof {
                                let ev = match stream@ {
                                    SpecValue::Stream(x) => x,
                                    _ => Seq::empty(),
                                };
                                assert(ev =~= seq![entry_m]);
                                assert(entry_m.fields =~= fields_view(fields@));
                            }
                            let reply_text = id_text(ms, sq);
                            let _ok = context.storage.set(&key, stream, None);
                            Value::BulkString(reply_text)
                        }
                    },
                }
            },
            Some(v) => {
                match v {
                    Value::Stream(entries) => {
                        let mut entries = entries;
                        let ghost es = match old(context)@.storage[key@].value {
                            SpecValue::Stream(x) => x,
                            _ => Seq::empty(),
                        };
                        proof {
                            assert(entries_view(entries@) =~= es);
                        }
                        match generate_stream_id(&id, &entries, now_ms) {
                            None => Value::SimpleError(
                                ascii_bytes(
                                    "The ID must have both values as integers! Example: 1-1",
                                ),
                            ),
                            Some((ms, sq)) => {
                                if ms == 0 && sq == 0 {
                                    Value::SimpleError(
                                        ascii_bytes(
                                            "ERR The ID specified in XADD must be greater than 0-0",
                                        ),
                                    )
                                } else if ms < 0 || sq < 0 {
                                    Value::SimpleError(
                                        ascii_bytes(
                                            "The ID must have both values as integers! Example: 1-1",
                                        ),
                                    )
                                } else {
                                    let mut too_small = false;
                                    if entries.len() > 0 {
                                        let lms = entries[entries.len() - 1].millis_time;
                                        let lsq = entries[entries.len() - 1].sequence_number;
                                        proof {
                                            assert(entries_view(entries@).last() == entries@[
                                            entries@.len() - 1]@);
                                        }
                                        if ms < lms || (ms == lms && sq <= lsq) {
                                            too_small = true;
                                        }
                                    }
                                    if too_small {
                                        Value::SimpleError(
                                            ascii_bytes(
                                                "ERR The ID specified in XADD is equal or smaller than the target stream top item",
                                            ),
                                        )
                                    } else {
                                        let entry = StreamEntry {
                                            millis_time: ms,
                                            sequence_number: sq,
                                            fields,
                                        };
                                        let ghost entry_m = entry@;
                                        entries.push(entry);
                                        let stream = Value::Stream(entries);
                                        proof {
                                            let ev = match stream@ {
                                                SpecValue::Stream(x) => x,
                                                _ => Seq::empty(),
                                            };
                                            assert(ev =~= es.push(entry_m));
                                            assert(entry_m.fields =~= fields_view(fields@));
                                        }
                                        let reply_text = id_text(ms, sq);
                                        let _ok = context.storage.set(&key, stream, None);
                                        Value::BulkString(reply_text)
                                    }
                                }
                            },
                        }
                    },
                    _ => Value::SimpleError(ascii_bytes("Not a stream!")),
                }
            },
        }
    }
}

/// A literal `ms-seq` id resolves to itself, whatever the stream already
/// holds and whatever the clock says.
pub proof fn lemma_literal_id_resolution(id: Seq<u8>, last: Option<(i64, i64)>, now: u64)
    requires
        strict_id(id) is Some,
    ensures
        gen_id(id, last, now) == strict_id(id),
{
    match find_byte(id, MARK_ERROR) {
        Some(p) => {
            let part1 = id.skip(p + 1);
            if part1 == seq![42u8] {
                assert(all_digits(part1));
                assert(crate::parser::is_digit(part1[0]));
                assert(part1[0] == 42);
                assert(false);
            }
        },
        None => {},
    }
}

/// Stream monotonicity, the refusal half: against a live stream whose
/// newest entry has id `L`, an XADD whose literal id resolves at or below
/// `L` (and is not `0-0`) replies the documented too-small error and
/// changes nothing.
pub proof fn lemma_xadd_rejects_small_id(
    args: Seq<SpecValue>,
    pre: CtxModel,
    post: CtxModel,
    now: u64,
    reply: SpecValue,
    key: Seq<u8>,
    id: Seq<u8>,
    ms: i64,
    sq: i64,
    entries: Seq<SpecStreamEntry>,
)
    requires
        xadd_post(args, pre, post, now, reply),
        args.len() >= 4 && args.len() % 2 == 0,
        unpack_spec(args[0]) == Some(key),
        unpack_spec(args[1]) == Some(id),
        fields_from(args, 2) is Some,
        pre.storage.contains_key(key),
        !cell_expired(pre.storage[key], now),
        pre.storage[key].value == SpecValue::Stream(entries),
        entries.len() > 0,
        strict_id(id) == Some((ms, sq)),
        0 <= ms && 0 <= sq && !(ms == 0 && sq == 0),
        id_le((ms, sq), (entries.last().millis_time, entries.last().sequence_number)),
    ensures
        reply == SpecValue::SimpleError(
            lit_bytes(
                "ERR The ID specified in XADD is equal or smaller than the target stream top item"@,
            ),
        ),
        post == pre,
{
    lemma_literal_id_resolution(id, last_id(entries), now);
}

/// Stream monotonicity, the success half: when an XADD whose literal id
/// resolves above the newest stored id succeeds, the stored stream gains
/// exactly one entry, carrying that id at its end, and the reply names it.
pub proof fn lemma_xadd_success_extends(
    args: Seq<SpecValue>,
    pre: CtxModel,
    post: CtxModel,
    now: u64,
    reply: SpecValue,
    key: Seq<u8>,
    id: Seq<u8>,
    ms: i64,
    sq: i64,
    entries: Seq<SpecStreamEntry>,
)
    requires
        xadd_post(args, pre, post, now, reply),
        args.len() >= 4 && args.len() % 2 == 0,
        unpack_spec(args[0]) == Some(key),
        unpack_spec(args[1]) == Some(id),
        fields_from(args, 2) is Some,
        pre.storage.contains_key(key),
        !cell_expired(pre.storage[key], now),
        pre.storage[key].value == SpecValue::Stream(entries),
        strict_id(id) == Some((ms, sq)),
        0 <= ms && 0 <= sq && !(ms == 0 && sq == 0),
        entries.len() > 0 ==> !id_le(
            (ms, sq),
            (entries.last().millis_time, entries.last().sequence_number),
        ),
    ensures
        reply == SpecValue::BulkString(id_bytes(ms, sq)),
        post.storage.contains_key(key),
        match post.storage[key].value {
            SpecValue::Stream(es2) => {
                &&& es2.len() == entries.len() + 1
                &&& es2.last().millis_time == ms
                &&& es2.last().sequence_number == sq
                &&& es2.drop_last() == entries
            },
            _ => false,
        },
{
    lemma_literal_id_resolution(id, last_id(entries), now);
    match fields_from(args, 2) {
        Some(fields) => {
            let entry = SpecStreamEntry { millis_time: ms, sequence_number: sq, fields };
            assert(post.storage == pre.storage.insert(
                key,
                CellModel { value: SpecValue::Stream(entries.push(entry)), expire: None },
            ));
            assert(entries.push(entry).drop_last() =~= entries);
        },
        None => {},
    }
}

/// The id of an entry.
pub open spec fn entry_id(e: SpecStreamEntry) -> (i64, i64) {
    (e.millis_time, e.sequence_number)
}

/// Strict lexicographic order on ids: `a` strictly before `b`.
pub open spec fn id_lt(a: (i64, i64), b: (i64, i64)) -> bool {
    a.0 < b.0 || (a.0 == b.0 && a.1 < b.1)
}

/// The ids of the entries are strictly increasing, so the newest entry's id
/// is the largest id the stream has seen.
pub open spec fn strictly_increasing(entries: Seq<SpecStreamEntry>) -> bool {
    forall|i: int, j: int|
        0 <= i < j < entries.len() ==> id_lt(
            entry_id(#[trigger] entries[i]),
            entry_id(#[trigger] entries[j]),
        )
}

/// A successful XADD keeps the stream's ids strictly increasing: the entry
/// it appends carries an id above every id already stored.
pub proof fn lemma_xadd_preserves_order(
    args: Seq<SpecValue>,
    pre: CtxModel,
    post: CtxModel,
    now: u64,
    reply: SpecValue,
    key: Seq<u8>,
    id: Seq<u8>,
    ms: i64,
    sq: i64,
    entries: Seq<SpecStreamEntry>,
)
    requires
        xadd_post(args, pre, post, now, reply),
        args.len() >= 4 && args.len() % 2 == 0,
        unpack_spec(args[0]) == Some(key),
        unpack_spec(args[1]) == Some(id),
        fields_from(args, 2) is Some,
        pre.storage.contains_key(key),
        !cell_expired(pre.storage[key], now),
        pre.storage[key].value == SpecValue::Stream(entries),
        strictly_increasing(entries),
        strict_id(id) == Some((ms, sq)),
        0 <= ms && 0 <= sq && !(ms == 0 && sq == 0),
        entries.len() > 0 ==> !id_le(
            (ms, sq),
            (entries.last().millis_time, entries.last().sequence_number),
        ),
    ensures
        post.storage.contains_key(key),
        match post.storage[key].value {
            SpecValue::Stream(es2) => strictly_increasing(es2),
            _ => false,
        },
{
    lemma_xadd_success_extends(args, pre, post, now, reply, key, id, ms, sq, entries);
    match post.storage[key].value {
        SpecValue::Stream(es2) => {
            assert(es2 =~= entries.push(es2.last()));
            assert forall|i: int, j: int| 0 <= i < j < es2.len() implies id_lt(
                entry_id(es2[i]),
                entry_id(es2[j]),
            ) by {
                if j < es2.len() - 1 {
                    assert(es2[i] == entries[i] && es2[j] == entries[j]);
                } else {
                    assert(es2[j] == es2.last());
                    assert(es2[i] == entries[i]);
                    if i < entries.len() - 1 {
                        assert(id_lt(entry_id(entries[i]), entry_id(entries[entries.len() - 1])));
                    }
                }
            }
        },
        _ => {},
    }
}

/// An XADD naming the id `0-0` is always refused with the documented error,
/// whether or not the stream exists.
pub proof fn lemma_xadd_rejects_zero_id(
    args: Seq<SpecValue>,
    pre: CtxModel,
    post: CtxModel,
    now: u64,
    reply: SpecValue,
    key: Seq<u8>,
    id: Seq<u8>,
)
    requires
        xadd_post(args, pre, post, now, reply),
        args.len() >= 4 && args.len() % 2 == 0,
        unpack_spec(args[0]) == Some(key),
        unpack_spec(args[1]) == Some(id),
        fields_from(args, 2) is Some,
        strict_id(id) == Some((0i64, 0i64)),
        pre.storage.contains_key(key) && !cell_expired(pre.storage[key], now)
            ==> pre.storage[key].value is Stream,
    ensures
        reply == SpecValue::SimpleError(
            lit_bytes("ERR The ID specified in XADD must be greater than 0-0"@),
        ),
{
    if pre.storage.contains_key(key) && !cell_expired(pre.storage[key], now) {
        match pre.storage[key].value {
            SpecValue::Stream(entries) => {
                lemma_literal_id_resolution(id, last_id(entries), now);
            },
            _ => {},
        }
    } else {
        lemma_literal_id_resolution(id, None, now);
    }
}

/// Whether an entry lies within both bounds, each bound checked on both id
/// components, an open bound admitting everything.
pub open spec fn in_range(e: SpecStreamEntry, lo: Option<(i64, i64)>, hi: Option<(i64, i64)>) -> bool {
    (match lo {
        None => true,
        Some(l) => e.millis_time >= l.0 && e.sequence_number >= l.1,
    }) && (match hi {
        None => true,
        Some(h) => e.millis_time <= h.0 && e.sequence_number <= h.1,
    })
}

/// The projections of the entries within the bounds, in stream order.
pub open spec fn range_projections(
    entries: Seq<SpecStreamEntry>,
    lo: Option<(i64, i64)>,
    hi: Option<(i64, i64)>,
) -> Seq<SpecValue>
    decreases entries.len(),
{
    if entries.len() == 0 {
        Seq::empty()
    } else {
        let rest = range_projections(entries.drop_last(), lo, hi);
        if in_range(entries.last(), lo, hi) {
            rest.push(entry_projection(entries.last()))
        } else {
            rest
        }
    }
}

/// An XRANGE bound: the open marker alone, or a literal `ms-seq`; the outer
/// `None` reports a malformed bound.
pub open spec fn range_bound(s: Seq<u8>, open_mark: u8) -> Option<Option<(i64, i64)>> {
    if s == seq![open_mark] {
        Some(None)
    } else {
        match strict_id(s) {
            Some(p) => Some(Some(p)),
            None => None,
        }
    }
}

/// Reads an XRANGE bound text.
fn parse_bound(s: &Vec<u8>, open_mark: u8) -> (r: Option<Option<(i64, i64)>>)
    ensures
        r == range_bound(s@, open_mark),
{
    if s.len() == 1 && s[0] == open_mark {
        proof {
            assert(s@ =~= seq![open_mark]);
        }
        Some(None)
    } else {
        proof {
            if s@ =~= seq![open_mark] {
                assert(s@.len() == 1 && s@[0] == open_mark);
            }
        }
        match parse_stream_id(s) {
            Some(p) => Some(Some(p)),
            None => None,
        }
    }
}

/// Replies with the projections of a slice of a stream.
pub struct StorageXRangeCommand;

/// What XRANGE does at instant `now`: the argument list is `key start end`
/// (else the usage error); a malformed bound is the bad-id error with the
/// context untouched; an absent key, or one whose cell is dead at `now`
/// (which the lookup removes), is the null bulk string; a live stream is
/// the array of the projections of its entries within the bounds, in order;
/// a live non-stream value is the not-a-stream error.
pub open spec fn xrange_post(
    args: Seq<SpecValue>,
    pre: CtxModel,
    post: CtxModel,
    now: u64,
    reply: SpecValue,
) -> bool {
    let usage = SpecValue::SimpleError(
        lit_bytes("Missing arguments! Correct usage XRANGE <key> <start> <end>"@),
    );
    let bad_id = SpecValue::SimpleError(
        lit_bytes("The ID must have both values as integers! Example: 1-1"@),
    );
    if args.len() < 3 {
        reply == usage && post == pre
    } else {
        match (unpack_spec(args[0]), unpack_spec(args[1]), unpack_spec(args[2])) {
            (Some(key), Some(min_arg), Some(max_arg)) => {
                match (range_bound(min_arg, MARK_ERROR), range_bound(max_arg, 43u8)) {
                    (Some(lo), Some(hi)) => {
                        &&& post.config == pre.config
                        &&& if !pre.storage.contains_key(key) {
                            reply == SpecValue::NullBulkString && post == pre
                        } else if cell_expired(pre.storage[key], now) {
                            reply == SpecValue::NullBulkString && post.storage
                                == pre.storage.remove(key)
                        } else {
                            match pre.storage[key].value {
                                SpecValue::Stream(entries) => reply == SpecValue::Array(
                                    range_projections(entries, lo, hi),
                                ) && post == pre,
                                _ => reply == SpecValue::SimpleError(lit_bytes("Not a stream"@))
                                    && post == pre,
                            }
                        }
                    },
                    _ => reply == bad_id && post == pre,
                }
            },
            _ => reply == usage && post == pre,
        }
    }
}

impl StorageXRangeCommand {
    /// The registry name of the command.
    pub fn name(&self) -> (r: &'static str)
        ensures
            r@ == "xrange"@,
    {
        "xrange"
    }

    /// Replies with the entries of the stream under `args[0]` whose ids lie
    /// between `args[1]` and `args[2]`.
    pub fn exec(&self, args: Vec<Value>, context: &mut CommandContext, now_ms: u64) -> (r: Value)
        requires
            old(context).storage.wf(),
        ensures
            final(context).storage.wf(),
            xrange_post(values_view(args@), old(context)@, final(context)@, now_ms, r@),
    {
        proof {
            reveal_strlit("Missing arguments! Correct usage XRANGE <key> <start> <end>");
            assert("Missing arguments! Correct usage XRANGE <key> <start> <end>".is_ascii());
            reveal_strlit("The ID must have both values as integers! Example: 1-1");
            assert("The ID must have both values as integers! Example: 1-1".is_ascii());
            reveal_strlit("Not a stream");
            assert("Not a stream".is_ascii());
        }
        if args.len() < 3 {
            return Value::SimpleError(
                ascii_bytes("Missing arguments! Correct usage XRANGE <key> <start> <end>"),
            );
        }
        let key = match args[0].unpack_as_string() {
            Some(k) => k,
            None => {
                return Value::SimpleError(
                    ascii_bytes("Missing arguments! Correct usage XRANGE <key> <start> <end>"),
                );
            },
        };
        let min_arg = match args[1].unpack_as_string() {
            Some(t) => t,
            None => {
                return Value::SimpleError(
                    ascii_bytes("Missing arguments! Correct usage XRANGE <key> <start> <end>"),
                );
            },
        };
        let max_arg = match args[2].unpack_as_string() {
            Some(t) => t,
            None => {
                return Value::SimpleError(
                    ascii_bytes("Missing arguments! Correct usage XRANGE <key> <start> <end>"),
                );
            },
        };
        let lo = match parse_bound(&min_arg, MARK_ERROR) {
            Some(b) => b,
            None => {
                return Value::SimpleError(
                    ascii_bytes("The ID must have both values as integers! Example: 1-1"),
                );
            },
        };
        let hi = match parse_bound(&max_arg, 43) {
            Some(b) => b,
            None => {
                return Value::SimpleError(
                    ascii_bytes("The ID must have both values as integers! Example: 1-1"),
                );
            },
        };
        match context.storage.get_at(&key, now_ms) {
            None => Value::NullBulkString,
            Some(v) => {
                match v {
                    Value::Stream(entries) => {
                        let ghost es = match old(context)@.storage[key@].value {
                            SpecValue::Stream(x) => x,
                            _ => Seq::empty(),
                        };
                        proof {
                            assert(entries_view(entries@) =~= es);
                        }
                        let mut out: Vec<Value> = Vec::new();
                        let mut fx: usize = 0;
                        while fx < entries.len()
                            invariant
                                fx <= entries@.len(),
                                es == entries_view(entries@),
                                values_view(out@) == range_projections(
                                    es.take(fx as int),
                                    lo,
                                    hi,
                                ),
                            decreases entries@.len() - fx,
                        {
                            let ghost pre = values_view(out@);
                            proof {
                                assert(es.take(fx + 1).drop_last() =~= es.take(fx as int));
                                assert(es.take(fx + 1).last() == es[fx as int]);
                                assert(es[fx as int] == entries@[fx as int]@);
                            }
                            let e = &entries[fx];
                            let lo_ok = match lo {
                                None => true,
                                Some(l) => e.millis_time >= l.0 && e.sequence_number >= l.1,
                            };
                            let hi_ok = match hi {
                                None => true,
                                Some(h) => e.millis_time <= h.0 && e.sequence_number <= h.1,
                            };
                            if lo_ok && hi_ok {
                                out.push(e.as_array_value());
                                proof {
                                    assert(values_view(out@) =~= pre.push(
                                        entry_projection(es[fx as int]),
                                    ));
                                }
                            } else {
                                proof {
                                    assert(values_view(out@) =~= pre);
                                }
                            }
                            fx += 1;
                        }
                        proof {
                            assert(es.take(es.len() as int) =~= es);
                        }
                        let r = Value::Array(out);
                        proof {
                            let iv = match r@ {
                                SpecValue::Array(x) => x,
                                _ => Seq::empty(),
                            };
                            assert forall|x: int| 0 <= x < iv.len() implies iv[x]
                                == range_projections(es, lo, hi)[x] by {
                                assert(iv[x] == out@[x]@);
                                assert(values_view(out@)[x] == out@[x]@);
                            }
                            assert(iv =~= range_projections(es, lo, hi));
                        }
                        r
                    },
                    _ => Value::SimpleError(ascii_bytes("Not a stream")),
                }
            },
        }
    }
}

/// The first entry carrying exactly the id `(ms, sq)`, if any.
pub open spec fn find_entry(entries: Seq<SpecStreamEntry>, ms: i64, sq: i64) -> Option<
    SpecStreamEntry,
>
    decreases entries.len(),
{
    if entries.len() == 0 {
        None
    } else if entries.first().millis_time == ms && entries.first().sequence_number == sq {
        Some(entries.first())
    } else {
        find_entry(entries.drop_first(), ms, sq)
    }
}

proof fn lemma_find_entry(entries: Seq<SpecStreamEntry>, ms: i64, sq: i64)
    ensures
        match find_entry(entries, ms, sq) {
            Some(e) => exists|i: int|
                0 <= i < entries.len() && entries[i] == e && e.millis_time == ms
                    && e.sequence_number == sq,
            None => forall|i: int|
                0 <= i < entries.len() ==> !((#[trigger] entries[i]).millis_time == ms && entries[
                i].sequence_number == sq),
        },
    decreases entries.len(),
{
    if entries.len() == 0 {
    } else if entries.first().millis_time == ms && entries.first().sequence_number == sq {
        assert(entries[0] == entries.first());
    } else {
        let t = entries.drop_first();
        lemma_find_entry(t, ms, sq);
        assert(forall|j: int| #![trigger t[j]] 0 <= j < t.len() ==> t[j] == entries[j + 1]);
        match find_entry(t, ms, sq) {
            Some(e) => {
                let i = choose|i: int|
                    0 <= i < t.len() && t[i] == e && e.millis_time == ms && e.sequence_number
                        == sq;
                assert(entries[i + 1] == e);
            },
            None => {
                assert forall|i: int|
                    0 <= i < entries.len() implies !((#[trigger] entries[i]).millis_time == ms
                    && entries[i].sequence_number == sq) by {
                    if i > 0 {
                        assert(t[i - 1] == entries[i]);
                    }
                }
            },
        }
    }
}

proof fn lemma_find_entry_at(entries: Seq<SpecStreamEntry>, ms: i64, sq: i64, i: int)
    requires
        0 <= i < entries.len(),
        entries[i].millis_time == ms,
        entries[i].sequence_number == sq,
        forall|j: int|
            0 <= j < i ==> !((#[trigger] entries[j]).millis_time == ms
                && entries[j].sequence_number == sq),
    ensures
        find_entry(entries, ms, sq) == Some(entries[i]),
    decreases entries.len(),
{
    if i == 0 {
        assert(entries.first() == entries[0]);
    } else {
        let t = entries.drop_first();
        assert(forall|j: int| #![trigger t[j]] 0 <= j < t.len() ==> t[j] == entries[j + 1]);
        assert(!(entries.first().millis_time == ms && entries.first().sequence_number == sq)) by {
            assert(entries[0] == entries.first());
        }
        assert forall|j: int|
            0 <= j < i - 1 implies !((#[trigger] t[j]).millis_time == ms
            && t[j].sequence_number == sq) by {
            assert(t[j] == entries[j + 1]);
        }
        lemma_find_entry_at(t, ms, sq, i - 1);
        assert(t[i - 1] == entries[i]);
    }
}

/// Replies with the single entry whose id matches exactly.
pub struct StorageXReadCommand;

/// What XREAD does at instant `now`: the argument list is `type key id`
/// (else the usage error); a malformed id is the bad-id error with the
/// context untouched; an absent key, or one whose cell is dead at `now`
/// (which the lookup removes), is the null bulk string; against a live
/// value, a type other than `streams` (case-insensitively) is the
/// invalid-type error, a non-stream value the not-a-stream error, and a
/// stream replies with the projection of the entry whose id matches
/// exactly, or the null bulk string when none does.
pub open spec fn xread_post(
    args: Seq<SpecValue>,
    pre: CtxModel,
    post: CtxModel,
    now: u64,
    reply: SpecValue,
) -> bool {
    let usage = SpecValue::SimpleError(
        lit_bytes("Missing arguments! Correct usage XREAD <type> <key> <id>"@),
    );
    let bad_id = SpecValue::SimpleError(
        lit_bytes("The ID must have both values as integers! Example: 1-1"@),
    );
    if args.len() < 3 {
        reply == usage && post == pre
    } else {
        match (unpack_spec(args[0]), unpack_spec(args[1]), unpack_spec(args[2])) {
            (Some(read_type), Some(key), Some(id)) => {
                match strict_id(id) {
                    None => reply == bad_id && post == pre,
                    Some((ms, sq)) => {
                        &&& post.config == pre.config
                        &&& if !pre.storage.contains_key(key) {
                            reply == SpecValue::NullBulkString && post == pre
                        } else if cell_expired(pre.storage[key], now) {
                            reply == SpecValue::NullBulkString && post.storage
                                == pre.storage.remove(key)
                        } else if lower_bytes_spec(read_type) != lit_bytes("streams"@) {
                            reply == SpecValue::SimpleError(lit_bytes("Invalid type!"@)) && post
                                == pre
                        } else {
                            match pre.storage[key].value {
                                SpecValue::Stream(entries) => reply == (match find_entry(
                                    entries,
                                    ms,
                                    sq,
                                ) {
                                    Some(e) => entry_projection(e),
                                    None => SpecValue::NullBulkString,
                                }) && post == pre,
                                _ => reply == SpecValue::SimpleError(lit_bytes("Not a stream!"@))
                                    && post == pre,
                            }
                        }
                    },
                }
            },
            _ => reply == usage && post == pre,
        }
    }
}

impl StorageXReadCommand {
    /// The registry name of the command.
    pub fn name(&self) -> (r: &'static str)
        ensures
            r@ == "xread"@,
    {
        "xread"
    }

    /// Replies with the entry of the stream under `args[1]` whose id is
    /// exactly `args[2]`.
    pub fn exec(&self, args: Vec<Value>, context: &mut CommandContext, now_ms: u64) -> (r: Value)
        requires
            old(context).storage.wf(),
        ensures
            final(context).storage.wf(),
            xread_post(values_view(args@), old(context)@, final(context)@, now_ms, r@),
    {
        proof {
            reveal_strlit("Missing arguments! Correct usage XREAD <type> <key> <id>");
            assert("Missing arguments! Correct usage XREAD <type> <key> <id>".is_ascii());
            reveal_strlit("The ID must have both values as integers! Example: 1-1");
            assert("The ID must have both values as integers! Example: 1-1".is_ascii());
            reveal_strlit("Invalid type!");
            assert("Invalid type!".is_ascii());
            reveal_strlit("Not a stream!");
            assert("Not a stream!".is_ascii());
        }
        if args.len() < 3 {
            return Value::SimpleError(
                ascii_bytes("Missing arguments! Correct usage XREAD <type> <key> <id>"),
            );
        }
        let read_type = match args[0].unpack_as_string() {
            Some(t) => t,
            None => {
                return Value::SimpleError(
                    ascii_bytes("Missing arguments! Correct usage XREAD <type> <key> <id>"),
                );
            },
        };
        let key = match args[1].unpack_as_string() {
            Some(k) => k,
            None => {
                return Value::SimpleError(
                    ascii_bytes("Missing arguments! Correct usage XREAD <type> <key> <id>"),
                );
            },
        };
        let id = match args[2].unpack_as_string() {
            Some(t) => t,
            None => {
                return Value::SimpleError(
                    ascii_bytes("Missing arguments! Correct usage XREAD <type> <key> <id>"),
                );
            },
        };
        let parsed = match parse_stream_id(&id) {
            Some(p) => p,
            None => {
                return Value::SimpleError(
                    ascii_bytes("The ID must have both values as integers! Example: 1-1"),
                );
            },
        };
        let (ms, sq) = parsed;
        match context.storage.get_at(&key, now_ms) {
            None => Value::NullBulkString,
            Some(v) => {
                let lt = lower_bytes(read_type.as_slice());
                proof {
                    reveal_strlit("streams");
                    assert("streams".is_ascii());
                }
                if !bytes_eq_str(&lt, "streams") {
                    return Value::SimpleError(ascii_bytes("Invalid type!"));
                }
                match v {
                    Value::Stream(entries) => {
                        let ghost es = match old(context)@.storage[key@].value {
                            SpecValue::Stream(x) => x,
                            _ => Seq::empty(),
                        };
                        proof {
                            assert(entries_view(entries@) =~= es);
                        }
                        let mut fx: usize = 0;
                        let mut found: Option<usize> = None;
                        while fx < entries.len() && found.is_none()
                            invariant
                                fx <= entries@.len(),
                                es == entries_view(entries@),
                                match found {
                                    Some(ix) => ix < entries@.len() && es[ix as int].millis_time
                                        == ms && es[ix as int].sequence_number == sq && (forall|
                                        j: int,
                                    |
                                        0 <= j < ix ==> !((#[trigger] es[j]).millis_time == ms
                                            && es[j].sequence_number == sq)),
                                    None => forall|j: int|
                                        0 <= j < fx ==> !((#[trigger] es[j]).millis_time == ms
                                            && es[j].sequence_number == sq),
                                },
                            decreases entries@.len() - fx,
                        {
                            proof {
                                assert(es[fx as int] == entries@[fx as int]@);
                            }
                            let e = &entries[fx];
                            if e.millis_time == ms && e.sequence_number == sq {
                                found = Some(fx);
                            }
                            fx += 1;
                        }
                        match found {
                            Some(ix) => {
                                proof {
                                    lemma_find_entry_at(es, ms, sq, ix as int);
                                    assert(es[ix as int] == entries@[ix as int]@);
                                }
                                entries[ix].as_array_value()
                            },
                            None => {
                                proof {
                                    lemma_find_entry(es, ms, sq);
                                    match find_entry(es, ms, sq) {
                                        Some(e) => {
                                            let i = choose|i: int|
                                                0 <= i < es.len() && es[i] == e && e.millis_time
                                                    == ms && e.sequence_number == sq;
                                            assert(!(es[i].millis_time == ms
                                                && es[i].sequence_number == sq));
                                        },
                                        None => {},
                                    }
                                }
                                Value::NullBulkString
                            },
                        }
                    },
                    _ => Value::SimpleError(ascii_bytes("Not a stream!")),
                }
            },
        }
    }
}

/// Whether every byte of `v` is an ASCII digit (and there is at least one).
fn is_all_digits(v: &Vec<u8>) -> (r: bool)
    ensures
        r == all_digits(v@),
{
    if v.len() == 0 {
        return false;
    }
    let mut i: usize = 0;
    while i < v.len()
        invariant
            i <= v@.len(),
            forall|j: int| 0 <= j < i ==> crate::parser::is_digit(#[trigger] v@[j]),
        decreases v@.len() - i,
    {
        let b = v[i];
        if b < 48 || b > 57 {
            return false;
        }
        i += 1;
    }
    true
}

} // verus!
