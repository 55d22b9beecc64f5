//! The RESP value tree and its wire codec.
//!
//! `Value` is the tagged union that travels between clients and the store.
//! Its mathematical model is `SpecValue`, a tree over `Seq<u8>`; the encoder
//! and decoder are verified against the spec-level `enc` and `dec` functions
//! defined further down.

use vstd::prelude::*;

verus! {

broadcast use vstd::std_specs::vec::axiom_vec_index_decreases;

/// Mathematical model of a `Value`: the same tree, over `Seq` instead of `Vec`.
pub enum SpecValue {
    SimpleString(Seq<u8>),
    SimpleError(Seq<u8>),
    BulkString(Seq<u8>),
    NullBulkString,
    Integer(i64),
    Boolean(bool),
    Array(Seq<SpecValue>),
    Null,
    Stream(Seq<SpecStreamEntry>),
}

/// Mathematical model of a `StreamEntry`.
pub struct SpecStreamEntry {
    pub millis_time: i64,
    pub sequence_number: i64,
    pub fields: Seq<(Seq<u8>, SpecValue)>,
}

/// A RESP value. Texts and payloads are byte strings: RESP carries opaque
/// bytes, and only the frame markers themselves are ASCII.
///
/// `Stream` is internal to the store and never appears on the wire; the
/// commands project it to an `Array` before replying.
#[derive(Debug, PartialEq)]
pub enum Value {
    SimpleString(Vec<u8>),
    SimpleError(Vec<u8>),
    BulkString(Vec<u8>),
    NullBulkString,
    Integer(i64),
    Boolean(bool),
    Array(Vec<Value>),
    Null,
    Stream(Vec<StreamEntry>),
}

/// One entry of a stream value: an id `(millis_time, sequence_number)` and
/// the field/value pairs in the order they were supplied at append time.
#[derive(Debug, PartialEq)]
pub struct StreamEntry {
    pub millis_time: i64,
    pub sequence_number: i64,
    pub fields: Vec<(Vec<u8>, Value)>,
}

pub open spec fn spec_value_of(v: Value) -> SpecValue
    decreases v,
{
    match v {
        Value::SimpleString(s) => SpecValue::SimpleString(s@),
        Value::SimpleError(s) => SpecValue::SimpleError(s@),
        Value::BulkString(s) => SpecValue::BulkString(s@),
        Value::NullBulkString => SpecValue::NullBulkString,
        Value::Integer(i) => SpecValue::Integer(i),
        Value::Boolean(b) => SpecValue::Boolean(b),
        Value::Array(items) => SpecValue::Array(
            Seq::new(
                items@.len(),
                |i: int|
                    if 0 <= i < items@.len() {
                        spec_value_of(items@[i])
                    } else {
                        SpecValue::Null
                    },
            ),
        ),
        Value::Null => SpecValue::Null,
        Value::Stream(entries) => SpecValue::Stream(
            Seq::new(
                entries@.len(),
                |i: int|
                    if 0 <= i < entries@.len() {
                        spec_entry_of(entries@[i])
                    } else {
                        SpecStreamEntry { millis_time: 0, sequence_number: 0, fields: Seq::empty() }
                    },
            ),
        ),
    }
}

pub open spec fn spec_entry_of(e: StreamEntry) -> SpecStreamEntry
    decreases e,
{
    SpecStreamEntry {
        millis_time: e.millis_time,
        sequence_number: e.sequence_number,
        fields: Seq::new(
            e.fields@.len(),
            |i: int|
                if 0 <= i < e.fields@.len() {
                    (e.fields@[i].0@, spec_value_of(e.fields@[i].1))
                } else {
                    (Seq::empty(), SpecValue::Null)
                },
        ),
    }
}

impl View for Value {
    type V = SpecValue;

    open spec fn view(&self) -> SpecValue {
        spec_value_of(*self)
    }
}

impl View for StreamEntry {
    type V = SpecStreamEntry;

    open spec fn view(&self) -> SpecStreamEntry {
        spec_entry_of(*self)
    }
}

/// Carriage return: first byte of the `\r\n` line terminator.
pub const CR: u8 = 13;

/// Line feed: second byte of the `\r\n` line terminator.
pub const LF: u8 = 10;

/// Frame marker `+` of a simple string.
pub const MARK_SIMPLE: u8 = 43;

/// Frame marker `-` of a simple error; also the ASCII minus sign.
pub const MARK_ERROR: u8 = 45;

/// Frame marker `:` of an integer.
pub const MARK_INT: u8 = 58;

/// Frame marker `#` of a boolean.
pub const MARK_BOOL: u8 = 35;

/// Frame marker `$` of a bulk string.
pub const MARK_BULK: u8 = 36;

/// Frame marker `*` of an array.
pub const MARK_ARRAY: u8 = 42;

/// Frame marker `_` of a null.
pub const MARK_NULL: u8 = 95;

/// ASCII `t`, the body of a true boolean frame.
pub const MARK_TRUE: u8 = 116;

/// ASCII `f`, the body of a false boolean frame.
pub const MARK_FALSE: u8 = 102;

pub open spec fn crlf() -> Seq<u8> {
    seq![CR, LF]
}

pub open spec fn is_digit(b: u8) -> bool {
    48 <= b <= 57
}

pub open spec fn all_digits(s: Seq<u8>) -> bool {
    s.len() > 0 && forall|i: int| 0 <= i < s.len() ==> is_digit(#[trigger] s[i])
}

/// Decimal digits of `n`, most significant first.
pub open spec fn dec_digits(n: nat) -> Seq<u8>
    decreases n,
{
    if n < 10 {
        seq![(48 + n) as u8]
    } else {
        dec_digits(n / 10).push((48 + n % 10) as u8)
    }
}

/// Decimal representation of a possibly negative integer.
pub open spec fn int_digits(i: int) -> Seq<u8> {
    if i < 0 {
        seq![MARK_ERROR] + dec_digits((-i) as nat)
    } else {
        dec_digits(i as nat)
    }
}

/// Numeric value of a digit string.
pub open spec fn digits_val(s: Seq<u8>) -> nat
    decreases s.len(),
{
    if s.len() == 0 {
        0
    } else {
        digits_val(s.drop_last()) * 10 + (s.last() - 48) as nat
    }
}

/// The integer denoted by an ASCII decimal, with an optional leading minus.
pub open spec fn parse_num(s: Seq<u8>) -> Option<int> {
    if all_digits(s) {
        Some(digits_val(s) as int)
    } else if s.len() >= 2 && s[0] == MARK_ERROR && all_digits(s.skip(1)) {
        Some(-(digits_val(s.skip(1)) as int))
    } else {
        None
    }
}

/// Index of the first `\r\n` pair in `s`, if any.
pub open spec fn find_crlf(s: Seq<u8>) -> Option<int>
    decreases s.len(),
{
    if s.len() < 2 {
        None
    } else if s[0] == CR && s[1] == LF {
        Some(0)
    } else {
        match find_crlf(s.drop_first()) {
            Some(i) => Some(i + 1),
            None => None,
        }
    }
}

/// `s` holds no `\r\n` pair, so a line frame carrying it round-trips.
pub open spec fn no_crlf(s: Seq<u8>) -> bool {
    forall|i: int| 0 <= i && i + 1 < s.len() ==> !(#[trigger] s[i] == CR && s[i + 1] == LF)
}

/// A value that can travel on the wire and decode back to itself: no internal
/// `Stream` variant, line texts free of `\r\n`, and payload sizes addressable
/// on this machine.
pub open spec fn wire(v: SpecValue) -> bool
    decreases v,
{
    match v {
        SpecValue::SimpleString(s) => no_crlf(s),
        SpecValue::SimpleError(s) => no_crlf(s),
        SpecValue::BulkString(s) => s.len() <= usize::MAX,
        SpecValue::NullBulkString => true,
        SpecValue::Integer(_) => true,
        SpecValue::Boolean(_) => true,
        SpecValue::Array(items) => items.len() <= usize::MAX && (forall|i: int|
            0 <= i < items.len() ==> wire(#[trigger] items[i])),
        SpecValue::Null => true,
        SpecValue::Stream(_) => false,
    }
}

/// Spec-level RESP encoding of one value.
pub open spec fn enc(v: SpecValue) -> Seq<u8>
    decreases v,
{
    match v {
        SpecValue::SimpleString(s) => seq![MARK_SIMPLE] + s + crlf(),
        SpecValue::SimpleError(s) => seq![MARK_ERROR] + s + crlf(),
        SpecValue::BulkString(s) => seq![MARK_BULK] + dec_digits(s.len()) + crlf() + s + crlf(),
        SpecValue::NullBulkString => seq![MARK_BULK, MARK_ERROR, 49u8] + crlf(),
        SpecValue::Integer(i) => seq![MARK_INT] + int_digits(i as int) + crlf(),
        SpecValue::Boolean(b) => seq![MARK_BOOL, if b { MARK_TRUE } else { MARK_FALSE }] + crlf(),
        SpecValue::Array(items) => seq![MARK_ARRAY] + dec_digits(items.len()) + crlf() + enc_seq(
            items,
        ),
        SpecValue::Null => seq![MARK_NULL] + crlf(),
        SpecValue::Stream(_) => Seq::empty(),
    }
}

/// Spec-level encoding of a run of values, one frame after the other.
pub open spec fn enc_seq(items: Seq<SpecValue>) -> Seq<u8>
    decreases items,
{
    if items.len() == 0 {
        Seq::empty()
    } else {
        enc(items.first()) + enc_seq(items.drop_first())
    }
}

/// Spec-level outcome of decoding one frame from the front of a buffer.
pub enum SpecDec {
    Val(SpecValue, int),
    More,
    Bad,
}

/// Spec-level outcome of decoding a run of frames.
pub enum SpecDecSeq {
    Val(Seq<SpecValue>, int),
    More,
    Bad,
}

/// Spec-level RESP decoder: the meaning of the bytes at the front of `s`.
/// `Val(v, n)` states that the first `n` bytes of `s` form the frame `v`;
/// `More` that `s` ends mid-frame; `Bad` that `s` cannot start a frame.
pub open spec fn dec(s: Seq<u8>) -> SpecDec
    decreases s.len(), 0int, 0int,
{
    if s.len() == 0 {
        SpecDec::More
    } else {
        let m = s[0];
        if m == MARK_SIMPLE || m == MARK_ERROR {
            match find_crlf(s.skip(1)) {
                None => SpecDec::More,
                Some(i) => {
                    let line = s.subrange(1, 1 + i);
                    if m == MARK_SIMPLE {
                        SpecDec::Val(SpecValue::SimpleString(line), 3 + i)
                    } else {
                        SpecDec::Val(SpecValue::SimpleError(line), 3 + i)
                    }
                },
            }
        } else if m == MARK_INT {
            match find_crlf(s.skip(1)) {
                None => SpecDec::More,
                Some(i) => match parse_num(s.subrange(1, 1 + i)) {
                    None => SpecDec::Bad,
                    Some(n) => if i64::MIN as int <= n <= i64::MAX as int {
                        SpecDec::Val(SpecValue::Integer(n as i64), 3 + i)
                    } else {
                        SpecDec::Bad
                    },
                },
            }
        } else if m == MARK_BOOL {
            match find_crlf(s.skip(1)) {
                None => SpecDec::More,
                Some(i) => if i == 1 && s[1] == MARK_TRUE {
                    SpecDec::Val(SpecValue::Boolean(true), 4)
                } else if i == 1 && s[1] == MARK_FALSE {
                    SpecDec::Val(SpecValue::Boolean(false), 4)
                } else {
                    SpecDec::Bad
                },
            }
        } else if m == MARK_NULL {
            match find_crlf(s.skip(1)) {
                None => SpecDec::More,
                Some(i) => if i == 0 {
                    SpecDec::Val(SpecValue::Null, 3)
                } else {
                    SpecDec::Bad
                },
            }
        } else if m == MARK_BULK {
            match find_crlf(s.skip(1)) {
                None => SpecDec::More,
                Some(i) => match parse_num(s.subrange(1, 1 + i)) {
                    None => SpecDec::Bad,
                    Some(n) => if n == -1 {
                        SpecDec::Val(SpecValue::NullBulkString, 3 + i)
                    } else if n < 0 || n > usize::MAX as int {
                        SpecDec::Bad
                    } else {
                        let start = 3 + i;
                        if s.len() < start + n + 2 {
                            SpecDec::More
                        } else if s[start + n] == CR && s[start + n + 1] == LF {
                            SpecDec::Val(
                                SpecValue::BulkString(s.subrange(start, start + n)),
                                start + n + 2,
                            )
                        } else {
                            SpecDec::Bad
                        }
                    },
                },
            }
        } else if m == MARK_ARRAY {
            match find_crlf(s.skip(1)) {
                None => SpecDec::More,
                Some(i) => match parse_num(s.subrange(1, 1 + i)) {
                    None => SpecDec::Bad,
                    Some(k) => if k < 0 || k > usize::MAX as int {
                        SpecDec::Bad
                    } else if !(0 <= i && 3 + i <= s.len()) {
                        SpecDec::Bad
                    } else {
                        match dec_seq(s.skip(3 + i), k) {
                            SpecDecSeq::Val(items, n) => SpecDec::Val(
                                SpecValue::Array(items),
                                3 + i + n,
                            ),
                            SpecDecSeq::More => SpecDec::More,
                            SpecDecSeq::Bad => SpecDec::Bad,
                        }
                    },
                },
            }
        } else {
            SpecDec::Bad
        }
    }
}

/// Appends every byte of `piece` to `out`.
pub fn push_all(out: &mut Vec<u8>, piece: &[u8])
    ensures
        final(out)@ == old(out)@ + piece@,
{
    let mut j: usize = 0;
    while j < piece.len()
        invariant
            j <= piece@.len(),
            out@ == old(out)@ + piece@.subrange(0, j as int),
        decreases piece@.len() - j,
    {
        let b: u8 = piece[j];
        out.push(b);
        j += 1;
        proof {
            assert(old(out)@ + piece@.subrange(0, j as int) =~= (old(out)@ + piece@.subrange(
                0,
                j - 1,
            )).push(piece@[j - 1]));
        }
    }
    proof {
        assert(piece@.subrange(0, piece@.len() as int) =~= piece@);
    }
}

/// A fresh copy of a byte vector.
pub fn copy_bytes(s: &Vec<u8>) -> (r: Vec<u8>)
    ensures
        r@ == s@,
{
    let mut r: Vec<u8> = Vec::new();
    push_all(&mut r, s.as_slice());
    proof {
        assert(r@ =~= s@);
    }
    r
}

/// Appends the decimal digits of `n` to `out`.
pub fn push_u64_digits(n: u64, out: &mut Vec<u8>)
    ensures
        final(out)@ == old(out)@ + dec_digits(n as nat),
    decreases n,
{
    if n < 10 {
        out.push(48 + n as u8);
        proof {
            assert(old(out)@ + dec_digits(n as nat) =~= old(out)@.push((48 + n as nat) as u8));
        }
    } else {
        push_u64_digits(n / 10, out);
        out.push(48 + (n % 10) as u8);
        proof {
            assert((48 + (n as nat) % 10) as u8 == 48 + (n % 10) as u8);
            assert(old(out)@ + dec_digits(n as nat) =~= (old(out)@ + dec_digits(
                (n / 10) as nat,
            )).push((48 + (n as nat) % 10) as u8));
        }
    }
}

/// Appends the decimal representation of `i`, with a minus sign if negative.
pub fn push_i64_digits(i: i64, out: &mut Vec<u8>)
    ensures
        final(out)@ == old(out)@ + int_digits(i as int),
{
    if i >= 0 {
        push_u64_digits(i as u64, out);
    } else {
        out.push(MARK_ERROR);
        let magnitude: u64 = (-(i as i128)) as u64;
        proof {
            assert(magnitude as nat == (-(i as int)) as nat);
        }
        push_u64_digits(magnitude, out);
        proof {
            assert(old(out)@ + int_digits(i as int) =~= (old(out)@.push(MARK_ERROR)) + dec_digits(
                (-(i as int)) as nat,
            ));
        }
    }
}

proof fn lemma_enc_seq_push(vs: Seq<SpecValue>, v: SpecValue)
    ensures
        enc_seq(vs.push(v)) == enc_seq(vs) + enc(v),
    decreases vs.len(),
{
    if vs.len() == 0 {
        assert(vs.push(v).first() == v);
        assert(vs.push(v).drop_first() =~= Seq::<SpecValue>::empty());
        assert(enc_seq(Seq::<SpecValue>::empty()) =~= Seq::<u8>::empty());
        assert(enc_seq(vs.push(v)) =~= enc(v) + Seq::<u8>::empty());
        assert(enc(v) + Seq::<u8>::empty() =~= enc(v));
        assert(enc_seq(vs) + enc(v) =~= enc(v));
    } else {
        lemma_enc_seq_push(vs.drop_first(), v);
        assert(vs.push(v).drop_first() =~= vs.drop_first().push(v));
        assert(vs.push(v).first() == vs.first());
        assert(enc(vs.first()) + (enc_seq(vs.drop_first()) + enc(v)) =~= (enc(vs.first())
            + enc_seq(vs.drop_first())) + enc(v));
    }
}

impl Value {
    /// The RESP wire encoding of this value. A `Stream` has no wire form and
    /// yields no bytes; the commands project streams to arrays before replying.
    pub fn serialize(&self) -> (out: Vec<u8>)
        ensures
            out@ == enc(self@),
        decreases *self,
    {
        let mut out: Vec<u8> = Vec::new();
        match self {
            Value::SimpleString(s) => {
                out.push(MARK_SIMPLE);
                push_all(&mut out, s.as_slice());
                out.push(CR);
                out.push(LF);
                proof {
                    assert(out@ =~= seq![MARK_SIMPLE] + s@ + crlf());
                }
            },
            Value::SimpleError(s) => {
                out.push(MARK_ERROR);
                push_all(&mut out, s.as_slice());
                out.push(CR);
                out.push(LF);
                proof {
                    assert(out@ =~= seq![MARK_ERROR] + s@ + crlf());
                }
            },
            Value::BulkString(s) => {
                out.push(MARK_BULK);
                push_u64_digits(s.len() as u64, &mut out);
                out.push(CR);
                out.push(LF);
                push_all(&mut out, s.as_slice());
                out.push(CR);
                out.push(LF);
                proof {
                    assert(out@ =~= seq![MARK_BULK] + dec_digits(s@.len()) + crlf() + s@ + crlf());
                }
            },
            Value::NullBulkString => {
                out.push(MARK_BULK);
                out.push(MARK_ERROR);
                out.push(49);
                out.push(CR);
                out.push(LF);
                proof {
                    assert(out@ =~= seq![MARK_BULK, MARK_ERROR, 49u8] + crlf());
                }
            },
            Value::Integer(i) => {
                out.push(MARK_INT);
                push_i64_digits(*i, &mut out);
                out.push(CR);
                out.push(LF);
                proof {
                    assert(out@ =~= seq![MARK_INT] + int_digits(*i as int) + crlf());
                }
            },
            Value::Boolean(b) => {
                out.push(MARK_BOOL);
                if *b {
                    out.push(MARK_TRUE);
                } else {
                    out.push(MARK_FALSE);
                }
                out.push(CR);
                out.push(LF);
                proof {
                    assert(out@ =~= seq![MARK_BOOL, if *b { MARK_TRUE } else { MARK_FALSE }]
                        + crlf());
                }
            },
            Value::Array(items) => {
                let ghost vitems = match self@ {
                    SpecValue::Array(x) => x,
                    _ => Seq::empty(),
                };
                proof {
                    assert(vitems.len() == items@.len());
                }
                out.push(MARK_ARRAY);
                push_u64_digits(items.len() as u64, &mut out);
                out.push(CR);
                out.push(LF);
                let ghost header = seq![MARK_ARRAY] + dec_digits(items@.len()) + crlf();
                proof {
                    assert(out@ =~= header);
                    assert(enc_seq(vitems.subrange(0, 0)) =~= Seq::<u8>::empty());
                    assert(out@ =~= header + enc_seq(vitems.subrange(0, 0)));
                }
                let mut idx: usize = 0;
                while idx < items.len()
                    invariant
                        idx <= items@.len(),
                        *self == Value::Array(*items),
                        vitems.len() == items@.len(),
                        forall|i: int|
                            0 <= i < items@.len() ==> #[trigger] vitems[i] == spec_value_of(
                                items@[i],
                            ),
                        out@ == header + enc_seq(vitems.subrange(0, idx as int)),
                    decreases items@.len() - idx,
                {
                    proof {
                        assert(decreases_to!(*self => (*self)->Array_0));
                        assert((*self)->Array_0 == *items);
                        assert(decreases_to!(*items => items@[idx as int]));
                        assert(decreases_to!(*self => items@[idx as int]));
                    }
                    let piece = items[idx].serialize();
                    push_all(&mut out, piece.as_slice());
                    idx += 1;
                    proof {
                        lemma_enc_seq_push(vitems.subrange(0, idx - 1), vitems[idx - 1]);
                        assert(vitems.subrange(0, idx as int) =~= vitems.subrange(0, idx - 1).push(
                            vitems[idx - 1],
                        ));
                        assert(out@ =~= header + enc_seq(vitems.subrange(0, idx as int)));
                    }
                }
                proof {
                    assert(vitems.subrange(0, vitems.len() as int) =~= vitems);
                }
            },
            Value::Null => {
                out.push(MARK_NULL);
                out.push(CR);
                out.push(LF);
                proof {
                    assert(out@ =~= seq![MARK_NULL] + crlf());
                }
            },
            Value::Stream(_) => {
                proof {
                    assert(out@ =~= Seq::<u8>::empty());
                }
            },
        }
        out
    }
}

/// Spec-level decoder for `k` consecutive frames at the front of `s`.
pub open spec fn dec_seq(s: Seq<u8>, k: int) -> SpecDecSeq
    decreases s.len(), 1int, k,
{
    if k <= 0 {
        SpecDecSeq::Val(Seq::empty(), 0)
    } else {
        match dec(s) {
            SpecDec::Val(v, n) => if !(0 < n <= s.len()) {
                SpecDecSeq::Bad
            } else {
                match dec_seq(s.skip(n), k - 1) {
                    SpecDecSeq::Val(items, m) => SpecDecSeq::Val(seq![v] + items, n + m),
                    SpecDecSeq::More => SpecDecSeq::More,
                    SpecDecSeq::Bad => SpecDecSeq::Bad,
                }
            },
            SpecDec::More => SpecDecSeq::More,
            SpecDec::Bad => SpecDecSeq::Bad,
        }
    }
}

/// There is no `\r\n` pair in `s` before position `i`.
pub open spec fn no_crlf_before(s: Seq<u8>, i: int) -> bool {
    forall|j: int| #![trigger s[j]] 0 <= j < i && j + 1 < s.len() ==> !(s[j] == CR && s[j + 1] == LF)
}

proof fn lemma_find_crlf(s: Seq<u8>)
    ensures
        match find_crlf(s) {
            Some(i) => 0 <= i && i + 1 < s.len() && s[i] == CR && s[i + 1] == LF && no_crlf_before(
                s,
                i,
            ),
            None => no_crlf_before(s, s.len() as int),
        },
    decreases s.len(),
{
    if s.len() < 2 {
    } else if s[0] == CR && s[1] == LF {
    } else {
        let t = s.drop_first();
        lemma_find_crlf(t);
        assert(forall|j: int| #![trigger t[j]] 0 <= j < t.len() ==> t[j] == s[j + 1]);
        match find_crlf(t) {
            Some(i0) => {
                assert(t[i0] == s[i0 + 1] && t[i0 + 1] == s[i0 + 2]);
                assert forall|j: int|
                    #![trigger s[j]]
                    0 <= j < i0 + 1 && j + 1 < s.len() implies !(s[j] == CR && s[j + 1]
                    == LF) by {
                    if j > 0 {
                        assert(t[j - 1] == s[j] && t[j] == s[j + 1]);
                    }
                }
            },
            None => {
                assert forall|j: int|
                    #![trigger s[j]]
                    0 <= j < s.len() && j + 1 < s.len() implies !(s[j] == CR && s[j + 1]
                    == LF) by {
                    if j > 0 {
                        assert(t[j - 1] == s[j] && t[j] == s[j + 1]);
                    }
                }
            },
        }
    }
}

proof fn lemma_find_crlf_at(s: Seq<u8>, j0: int)
    requires
        0 <= j0,
        j0 + 1 < s.len(),
        s[j0] == CR,
        s[j0 + 1] == LF,
        no_crlf_before(s, j0),
    ensures
        find_crlf(s) == Some(j0),
{
    lemma_find_crlf(s);
    match find_crlf(s) {
        Some(i) => {
            if i < j0 {
                assert(!(s[i] == CR && s[i + 1] == LF));
            } else if i > j0 {
                assert(!(s[j0] == CR && s[j0 + 1] == LF));
            }
        },
        None => {
            assert(!(s[j0] == CR && s[j0 + 1] == LF));
        },
    }
}

proof fn lemma_dec_bounds(s: Seq<u8>)
    ensures
        match dec(s) {
            SpecDec::Val(_, n) => 3 <= n <= s.len(),
            _ => true,
        },
    decreases s.len(), 0int, 0int,
{
    if s.len() == 0 {
    } else {
        let m = s[0];
        if m == MARK_SIMPLE || m == MARK_ERROR || m == MARK_INT || m == MARK_BOOL || m
            == MARK_NULL || m == MARK_BULK {
            lemma_find_crlf(s.skip(1));
            assert(s.skip(1).len() == s.len() - 1);
        } else if m == MARK_ARRAY {
            lemma_find_crlf(s.skip(1));
            match find_crlf(s.skip(1)) {
                Some(i) => {
                    match parse_num(s.subrange(1, 1 + i)) {
                        Some(k) => {
                            if 0 <= k <= usize::MAX as int && 0 <= i && 3 + i <= s.len() {
                                lemma_dec_seq_bounds(s.skip(3 + i), k);
                            }
                        },
                        None => {},
                    }
                },
                None => {},
            }
        }
    }
}

proof fn lemma_dec_seq_bounds(s: Seq<u8>, k: int)
    ensures
        match dec_seq(s, k) {
            SpecDecSeq::Val(_, m) => 0 <= m <= s.len(),
            _ => true,
        },
    decreases s.len(), 1int, k,
{
    if k <= 0 {
    } else {
        lemma_dec_bounds(s);
        match dec(s) {
            SpecDec::Val(v, n) => {
                if 0 < n <= s.len() {
                    lemma_dec_seq_bounds(s.skip(n), k - 1);
                }
            },
            _ => {},
        }
    }
}

proof fn lemma_digits_val_prefix(s: Seq<u8>, j: int)
    requires
        0 <= j <= s.len(),
    ensures
        digits_val(s) >= digits_val(s.take(j)),
    decreases s.len(),
{
    if j < s.len() {
        lemma_digits_val_prefix(s.drop_last(), j);
        assert(s.drop_last().take(j) =~= s.take(j));
    } else {
        assert(s.take(j) =~= s);
    }
}

/// Finds the first `\r\n` at or after `start`; `None` when there is none.
fn scan_crlf(buf: &[u8], start: usize) -> (r: Option<usize>)
    requires
        start <= buf@.len(),
    ensures
        match r {
            Some(j) => start <= j && j + 1 < buf@.len() && find_crlf(buf@.skip(start as int))
                == Some(j - start),
            None => find_crlf(buf@.skip(start as int)) is None,
        },
{
    let ghost tail = buf@.skip(start as int);
    proof {
        assert(forall|x: int| #![trigger tail[x]] 0 <= x < tail.len() ==> tail[x] == buf@[start + x]);
    }
    let mut j: usize = start;
    loop
        invariant
            start <= j <= buf@.len(),
            start <= buf@.len(),
            tail == buf@.skip(start as int),
            forall|x: int|
                #![trigger tail[x]]
                0 <= x < j - start && x + 1 < tail.len() ==> !(tail[x] == CR && tail[x + 1] == LF),
        decreases buf@.len() - j,
    {
        if buf.len() - j < 2 {
            proof {
                assert(no_crlf_before(tail, tail.len() as int));
                lemma_find_crlf(tail);
            }
            return None;
        }
        if buf[j] == CR && buf[j + 1] == LF {
            proof {
                assert(tail[j - start] == buf@[j as int] && tail[j + 1 - start] == buf@[j + 1]);
                assert(no_crlf_before(tail, j - start));
                lemma_find_crlf_at(tail, j - start);
            }
            return Some(j);
        }
        proof {
            assert(tail[j - start] == buf@[j as int] && tail[j + 1 - start] == buf@[j + 1]);
        }
        j += 1;
    }
}

proof fn lemma_dec_digits_props(n: nat)
    ensures
        all_digits(dec_digits(n)),
        digits_val(dec_digits(n)) == n,
        dec_digits(n).len() >= 1,
    decreases n,
{
    if n < 10 {
        let d = dec_digits(n);
        assert(d.len() == 1 && d[0] == (48 + n) as u8);
        assert(digits_val(d) == digits_val(d.drop_last()) * 10 + (d.last() - 48) as nat);
        assert(d.drop_last() =~= Seq::<u8>::empty());
        assert(digits_val(Seq::<u8>::empty()) == 0);
    } else {
        lemma_dec_digits_props(n / 10);
        let p = dec_digits(n / 10);
        let d = dec_digits(n);
        assert(d == p.push((48 + n % 10) as u8));
        assert(d.drop_last() =~= p);
        assert(d.last() == (48 + n % 10) as u8);
        assert(digits_val(d) == digits_val(p) * 10 + ((48 + n % 10) as u8 - 48) as nat);
        assert(digits_val(d) == (n / 10) * 10 + n % 10);
        assert forall|x: int| #![trigger d[x]] 0 <= x < d.len() implies is_digit(d[x]) by {
            if x < p.len() {
                assert(d[x] == p[x]);
            }
        }
    }
}

proof fn lemma_int_digits_props(i: int)
    ensures
        parse_num(int_digits(i)) == Some(i),
        int_digits(i).len() >= 1,
        forall|x: int|
            #![trigger int_digits(i)[x]]
            0 <= x < int_digits(i).len() ==> (int_digits(i)[x] == MARK_ERROR || is_digit(
                int_digits(i)[x],
            )),
{
    if i >= 0 {
        lemma_dec_digits_props(i as nat);
        assert(int_digits(i) == dec_digits(i as nat));
        assert(all_digits(int_digits(i)));
    } else {
        lemma_dec_digits_props((-i) as nat);
        let d = dec_digits((-i) as nat);
        let s = int_digits(i);
        assert(s == seq![MARK_ERROR] + d);
        assert(s.len() == 1 + d.len());
        assert(s[0] == MARK_ERROR);
        assert(s.skip(1) =~= d);
        assert(!is_digit(MARK_ERROR));
        assert(!all_digits(s));
        assert(parse_num(s) == Some(-(digits_val(d) as int)));
        assert forall|x: int| #![trigger s[x]] 0 <= x < s.len() implies (s[x] == MARK_ERROR
            || is_digit(s[x])) by {
            if x >= 1 {
                assert(s[x] == d[x - 1]);
            }
        }
    }
}

/// A line with no `\r\n` inside, followed by the terminator, locates the
/// terminator exactly at the end of the line.
proof fn lemma_find_crlf_line(line: Seq<u8>, rest: Seq<u8>)
    requires
        no_crlf(line),
    ensures
        find_crlf(line + crlf() + rest) == Some(line.len() as int),
{
    let s = line + crlf() + rest;
    assert(s[line.len() as int] == CR && s[line.len() as int + 1] == LF);
    assert forall|j: int|
        #![trigger s[j]]
        0 <= j < line.len() && j + 1 < s.len() implies !(s[j] == CR && s[j + 1] == LF) by {
        assert(s[j] == line[j]);
        if j + 1 < line.len() {
            assert(s[j + 1] == line[j + 1]);
        } else {
            assert(s[j + 1] == CR);
        }
    }
    lemma_find_crlf_at(s, line.len() as int);
}

/// Digits and a minus sign hold no `\r\n`.
proof fn lemma_numeral_no_crlf(s: Seq<u8>)
    requires
        forall|x: int| #![trigger s[x]] 0 <= x < s.len() ==> (s[x] == MARK_ERROR || is_digit(s[x])),
    ensures
        no_crlf(s),
{
    assert forall|j: int|
        #![trigger s[j]]
        0 <= j && j + 1 < s.len() implies !(s[j] == CR && s[j + 1] == LF) by {
        assert(s[j] == MARK_ERROR || is_digit(s[j]));
    }
}

/// Decoding what the encoder produced, with anything at all appended, yields
/// back exactly the encoded value and consumes exactly its frame.
#[verifier::rlimit(50)]
pub proof fn lemma_dec_enc(v: SpecValue, rest: Seq<u8>)
    requires
        wire(v),
    ensures
        dec(enc(v) + rest) == SpecDec::Val(v, enc(v).len() as int),
    decreases v,
{
    let s = enc(v) + rest;
    match v {
        SpecValue::SimpleString(txt) => {
            assert(s[0] == MARK_SIMPLE);
            assert(s.skip(1) =~= txt + crlf() + rest);
            lemma_find_crlf_line(txt, rest);
            assert(s.subrange(1, 1 + txt.len() as int) =~= txt);
        },
        SpecValue::SimpleError(txt) => {
            assert(s[0] == MARK_ERROR);
            assert(s.skip(1) =~= txt + crlf() + rest);
            lemma_find_crlf_line(txt, rest);
            assert(s.subrange(1, 1 + txt.len() as int) =~= txt);
        },
        SpecValue::Integer(iv) => {
            assert(s[0] == MARK_INT);
            let d = int_digits(iv as int);
            lemma_int_digits_props(iv as int);
            lemma_numeral_no_crlf(d);
            assert(s.skip(1) =~= d + crlf() + rest);
            lemma_find_crlf_line(d, rest);
            assert(s.subrange(1, 1 + d.len() as int) =~= d);
            assert(parse_num(d) == Some(iv as int));
            assert((iv as int) as i64 == iv);
        },
        SpecValue::Boolean(b) => {
            assert(s[0] == MARK_BOOL);
            let c = if b {
                MARK_TRUE
            } else {
                MARK_FALSE
            };
            assert(no_crlf(seq![c]));
            assert(s.skip(1) =~= seq![c] + crlf() + rest);
            lemma_find_crlf_line(seq![c], rest);
            assert(s[1] == c);
        },
        SpecValue::Null => {
            assert(s[0] == MARK_NULL);
            assert(no_crlf(Seq::<u8>::empty()));
            assert(s.skip(1) =~= Seq::<u8>::empty() + crlf() + rest);
            lemma_find_crlf_line(Seq::empty(), rest);
        },
        SpecValue::NullBulkString => {
            assert(s[0] == MARK_BULK);
            let line = seq![MARK_ERROR, 49u8];
            assert(no_crlf(line));
            assert(s.skip(1) =~= line + crlf() + rest);
            lemma_find_crlf_line(line, rest);
            assert(s.subrange(1, 3) =~= line);
            assert(line[0] == MARK_ERROR && !is_digit(MARK_ERROR));
            assert(!all_digits(line));
            let d = line.skip(1);
            assert(d =~= seq![49u8]);
            assert(is_digit(49u8));
            assert(all_digits(d));
            assert(d.drop_last() =~= Seq::<u8>::empty());
            assert(digits_val(Seq::<u8>::empty()) == 0);
            assert(digits_val(d) == 1);
            assert(parse_num(line) == Some(-1));
        },
        SpecValue::BulkString(payload) => {
            assert(s[0] == MARK_BULK);
            let d = dec_digits(payload.len());
            lemma_dec_digits_props(payload.len());
            assert(forall|x: int|
                #![trigger d[x]]
                0 <= x < d.len() ==> (d[x] == MARK_ERROR || is_digit(d[x])));
            lemma_numeral_no_crlf(d);
            assert(s.skip(1) =~= d + crlf() + (payload + crlf() + rest));
            lemma_find_crlf_line(d, payload + crlf() + rest);
            let dlen = d.len() as int;
            assert(s.subrange(1, 1 + dlen) =~= d);
            assert(all_digits(d));
            assert(parse_num(d) == Some(payload.len() as int));
            let n = payload.len() as int;
            let start = 3 + dlen;
            assert(s.len() == start + n + 2 + rest.len());
            assert(s[start + n] == CR && s[start + n + 1] == LF);
            assert(s.subrange(start, start + n) =~= payload);
        },
        SpecValue::Array(items) => {
            assert(s[0] == MARK_ARRAY);
            let d = dec_digits(items.len());
            lemma_dec_digits_props(items.len());
            assert(forall|x: int|
                #![trigger d[x]]
                0 <= x < d.len() ==> (d[x] == MARK_ERROR || is_digit(d[x])));
            lemma_numeral_no_crlf(d);
            assert(s.skip(1) =~= d + crlf() + (enc_seq(items) + rest));
            lemma_find_crlf_line(d, enc_seq(items) + rest);
            let dlen = d.len() as int;
            assert(s.subrange(1, 1 + dlen) =~= d);
            assert(parse_num(d) == Some(items.len() as int));
            let start = 3 + dlen;
            assert(s.skip(start) =~= enc_seq(items) + rest);
            lemma_dec_enc_seq(items, rest);
            assert(s.len() >= start);
        },
        SpecValue::Stream(_) => {
            assert(false);
        },
    }
}

/// Decoding `k` frames off the concatenation of `k` encoded values, with
/// anything appended, yields the values and consumes exactly their frames.
proof fn lemma_dec_enc_seq(items: Seq<SpecValue>, rest: Seq<u8>)
    requires
        forall|x: int| 0 <= x < items.len() ==> wire(#[trigger] items[x]),
    ensures
        dec_seq(enc_seq(items) + rest, items.len() as int) == SpecDecSeq::Val(
            items,
            enc_seq(items).len() as int,
        ),
    decreases items,
{
    let s = enc_seq(items) + rest;
    if items.len() == 0 {
        assert(items =~= Seq::<SpecValue>::empty());
        assert(enc_seq(items).len() == 0);
    } else {
        let v = items.first();
        let tail_rest = enc_seq(items.drop_first()) + rest;
        lemma_dec_enc(v, tail_rest);
        assert(s =~= enc(v) + tail_rest);
        let n = enc(v).len() as int;
        lemma_dec_bounds(s);
        assert(dec(s) == SpecDec::Val(v, n));
        assert(s.skip(n) =~= tail_rest);
        lemma_dec_enc_seq(items.drop_first(), rest);
        assert(seq![v] + items.drop_first() =~= items);
        assert(enc_seq(items).len() == n + enc_seq(items.drop_first()).len());
    }
}

proof fn lemma_find_crlf_prefix(s: Seq<u8>, n: int)
    requires
        0 <= n <= s.len(),
        match find_crlf(s) {
            Some(j0) => n < j0 + 2,
            None => true,
        },
    ensures
        find_crlf(s.take(n)) is None,
{
    lemma_find_crlf(s);
    let u = s.take(n);
    lemma_find_crlf(u);
    match find_crlf(u) {
        Some(x) => {
            assert(u[x] == s[x] && u[x + 1] == s[x + 1]);
            match find_crlf(s) {
                Some(j0) => {
                    assert(x < j0);
                    assert(!(s[x] == CR && s[x + 1] == LF));
                },
                None => {
                    assert(!(s[x] == CR && s[x + 1] == LF));
                },
            }
        },
        None => {},
    }
}

/// Any strict prefix of an encoded frame makes the decoder ask for more
/// bytes, never fail and never consume.
pub proof fn lemma_dec_prefix(v: SpecValue, i: int)
    requires
        wire(v),
        0 <= i < enc(v).len(),
    ensures
        dec(enc(v).take(i)) == SpecDec::More,
    decreases v,
{
    let e = enc(v);
    let t = e.take(i);
    if i == 0 {
        assert(t.len() == 0);
    } else {
        assert(t[0] == e[0]);
        assert(t.skip(1) =~= e.skip(1).take(i - 1));
        match v {
            SpecValue::SimpleString(txt) => {
                assert(e.skip(1) =~= txt + crlf() + Seq::<u8>::empty());
                lemma_find_crlf_line(txt, Seq::empty());
                lemma_find_crlf_prefix(e.skip(1), i - 1);
            },
            SpecValue::SimpleError(txt) => {
                assert(e.skip(1) =~= txt + crlf() + Seq::<u8>::empty());
                lemma_find_crlf_line(txt, Seq::empty());
                lemma_find_crlf_prefix(e.skip(1), i - 1);
            },
            SpecValue::Integer(iv) => {
                let d = int_digits(iv as int);
                lemma_int_digits_props(iv as int);
                lemma_numeral_no_crlf(d);
                assert(e.skip(1) =~= d + crlf() + Seq::<u8>::empty());
                lemma_find_crlf_line(d, Seq::empty());
                lemma_find_crlf_prefix(e.skip(1), i - 1);
            },
            SpecValue::Boolean(b) => {
                let c = if b {
                    MARK_TRUE
                } else {
                    MARK_FALSE
                };
                assert(no_crlf(seq![c]));
                assert(e.skip(1) =~= seq![c] + crlf() + Seq::<u8>::empty());
                lemma_find_crlf_line(seq![c], Seq::empty());
                lemma_find_crlf_prefix(e.skip(1), i - 1);
            },
            SpecValue::Null => {
                assert(no_crlf(Seq::<u8>::empty()));
                assert(e.skip(1) =~= Seq::<u8>::empty() + crlf() + Seq::<u8>::empty());
                lemma_find_crlf_line(Seq::empty(), Seq::empty());
                lemma_find_crlf_prefix(e.skip(1), i - 1);
            },
            SpecValue::NullBulkString => {
                let line = seq![MARK_ERROR, 49u8];
                assert(no_crlf(line));
                assert(e.skip(1) =~= line + crlf() + Seq::<u8>::empty());
                lemma_find_crlf_line(line, Seq::empty());
                lemma_find_crlf_prefix(e.skip(1), i - 1);
            },
            SpecValue::BulkString(payload) => {
                let d = dec_digits(payload.len());
                lemma_dec_digits_props(payload.len());
                assert(forall|x: int|
                    #![trigger d[x]]
                    0 <= x < d.len() ==> (d[x] == MARK_ERROR || is_digit(d[x])));
                lemma_numeral_no_crlf(d);
                let dlen = d.len() as int;
                let n = payload.len() as int;
                assert(e.skip(1) =~= d + crlf() + (payload + crlf()));
                lemma_find_crlf_line(d, payload + crlf());
                if i < 3 + dlen {
                    lemma_find_crlf_prefix(e.skip(1), i - 1);
                } else {
                    assert(t.skip(1)[dlen] == CR && t.skip(1)[dlen + 1] == LF);
                    assert(no_crlf_before(t.skip(1), dlen)) by {
                        assert(forall|x: int|
                            #![trigger t.skip(1)[x]]
                            0 <= x < t.skip(1).len() ==> t.skip(1)[x] == e.skip(1)[x]);
                    }
                    lemma_find_crlf_at(t.skip(1), dlen);
                    assert(t.subrange(1, 1 + dlen) =~= d);
                    assert(parse_num(d) == Some(n));
                    assert(t.len() == i < e.len() == 3 + dlen + n + 2);
                }
            },
            SpecValue::Array(items) => {
                let d = dec_digits(items.len());
                lemma_dec_digits_props(items.len());
                assert(forall|x: int|
                    #![trigger d[x]]
                    0 <= x < d.len() ==> (d[x] == MARK_ERROR || is_digit(d[x])));
                lemma_numeral_no_crlf(d);
                let dlen = d.len() as int;
                let k = items.len() as int;
                assert(e.skip(1) =~= d + crlf() + enc_seq(items));
                lemma_find_crlf_line(d, enc_seq(items));
                if i < 3 + dlen {
                    lemma_find_crlf_prefix(e.skip(1), i - 1);
                } else {
                    assert(t.skip(1)[dlen] == CR && t.skip(1)[dlen + 1] == LF);
                    assert(no_crlf_before(t.skip(1), dlen)) by {
                        assert(forall|x: int|
                            #![trigger t.skip(1)[x]]
                            0 <= x < t.skip(1).len() ==> t.skip(1)[x] == e.skip(1)[x]);
                    }
                    lemma_find_crlf_at(t.skip(1), dlen);
                    assert(t.subrange(1, 1 + dlen) =~= d);
                    assert(parse_num(d) == Some(k));
                    let x = i - 3 - dlen;
                    assert(t.skip(3 + dlen) =~= enc_seq(items).take(x));
                    assert(e.len() == 3 + dlen + enc_seq(items).len());
                    lemma_dec_prefix_seq(items, x);
                }
            },
            SpecValue::Stream(_) => {
                assert(false);
            },
        }
    }
}

/// Any strict prefix of a run of encoded frames leaves the run decoder
/// waiting for more bytes.
proof fn lemma_dec_prefix_seq(items: Seq<SpecValue>, x: int)
    requires
        forall|y: int| 0 <= y < items.len() ==> wire(#[trigger] items[y]),
        0 <= x < enc_seq(items).len(),
    ensures
        dec_seq(enc_seq(items).take(x), items.len() as int) == SpecDecSeq::More,
    decreases items,
{
    assert(items.len() > 0);
    let v = items.first();
    let e = enc(v);
    let t = enc_seq(items).take(x);
    if x < e.len() {
        lemma_dec_prefix(v, x);
        assert(t =~= e.take(x));
    } else {
        let tail = enc_seq(items.drop_first());
        let xr = x - e.len();
        assert(xr < tail.len());
        assert(t =~= e + tail.take(xr));
        lemma_dec_enc(v, tail.take(xr));
        lemma_dec_bounds(t);
        assert(dec(t) == SpecDec::Val(v, e.len() as int));
        assert(t.skip(e.len() as int) =~= tail.take(xr));
        lemma_dec_prefix_seq(items.drop_first(), xr);
    }
}

/// Reads `buf[lo..hi]` as an optionally signed ASCII decimal whose magnitude
/// fits in a `u64`; `None` when the text is not a decimal or is too large.
pub(crate) fn parse_decimal(buf: &[u8], lo: usize, hi: usize) -> (r: Option<(bool, u64)>)
    requires
        lo <= hi <= buf@.len(),
    ensures
        ({
            let line = buf@.subrange(lo as int, hi as int);
            match r {
                Some(p) => parse_num(line) == Some(if p.0 { -(p.1 as int) } else { p.1 as int })
                    && (p.0 ==> line.len() >= 1 && line[0] == MARK_ERROR) && (!p.0 ==> all_digits(
                    line,
                )),
                None => (match parse_num(line) {
                    Some(n) => n > u64::MAX as int || n < -(u64::MAX as int),
                    None => true,
                }),
            }
        }),
{
    let ghost line = buf@.subrange(lo as int, hi as int);
    if lo == hi {
        return None;
    }
    let neg = buf[lo] == MARK_ERROR;
    let dstart = if neg {
        lo + 1
    } else {
        lo
    };
    let ghost digits = buf@.subrange(dstart as int, hi as int);
    proof {
        if neg {
            assert(digits =~= line.skip(1));
        } else {
            assert(digits =~= line);
        }
    }
    if dstart == hi {
        proof {
            assert(line[0] == MARK_ERROR);
            assert(!is_digit(line[0]));
        }
        return None;
    }
    let mut acc: u64 = 0;
    let mut j: usize = dstart;
    while j < hi
        invariant
            lo <= dstart <= j <= hi <= buf@.len(),
            dstart < hi,
            neg == (buf@[lo as int] == MARK_ERROR),
            dstart == (if neg {
                lo + 1
            } else {
                lo as int
            }),
            line == buf@.subrange(lo as int, hi as int),
            digits == buf@.subrange(dstart as int, hi as int),
            (if neg {
                digits == line.skip(1)
            } else {
                digits == line
            }),
            forall|x: int| #![trigger digits[x]] 0 <= x < j - dstart ==> is_digit(digits[x]),
            acc as nat == digits_val(digits.take(j - dstart)),
        decreases hi - j,
    {
        let b = buf[j];
        proof {
            assert(digits[j - dstart] == b);
        }
        if b < 48 || b > 57 {
            proof {
                assert(!is_digit(digits[j - dstart]));
                assert(!all_digits(digits));
                if neg {
                    assert(line[0] == MARK_ERROR && !is_digit(line[0]));
                    assert(!all_digits(line));
                    assert(!all_digits(line.skip(1)));
                } else {
                    assert(!all_digits(line));
                    assert(line[0] != MARK_ERROR);
                }
            }
            return None;
        }
        let d: u8 = b - 48;
        proof {
            let t1 = digits.take(j + 1 - dstart);
            assert(t1.drop_last() =~= digits.take(j - dstart));
            assert(t1.last() == digits[j - dstart]);
            assert(digits_val(t1) == (acc as nat) * 10 + (d as nat));
        }
        if acc > (u64::MAX - d as u64) / 10 {
            proof {
                lemma_digits_val_prefix(digits, j + 1 - dstart);
                assert(digits_val(digits) > u64::MAX as nat);
                if parse_num(line) is Some {
                    if neg {
                        assert(all_digits(line.skip(1)) ==> digits_val(line.skip(1)) > u64::MAX);
                        assert(line[0] == buf@[lo as int]);
                        assert(line[0] == MARK_ERROR);
                        assert(!is_digit(line[0]));
                        assert(!all_digits(line));
                    } else {
                        assert(line[0] == buf@[lo as int]);
                        assert(line[0] != MARK_ERROR);
                    }
                }
            }
            return None;
        }
        acc = acc * 10 + d as u64;
        j += 1;
    }
    proof {
        assert(digits.take(j - dstart) =~= digits);
        assert(all_digits(digits));
        if neg {
            assert(line[0] == MARK_ERROR && !is_digit(line[0]));
            assert(!all_digits(line));
            assert(line.len() >= 2);
            assert(parse_num(line) == Some(-(digits_val(digits) as int)));
        } else {
            assert(parse_num(line) == Some(digits_val(digits) as int));
        }
    }
    Some((neg, acc))
}

/// The outcome of one attempt to decode a frame from the front of a buffer:
/// a value and the bytes it occupied, a request for more bytes, or a
/// protocol error.
#[derive(Debug, PartialEq)]
pub enum DecodeResult {
    Done(Value, usize),
    NeedMore,
    Malformed,
}

/// The exec outcome `r` reports exactly the spec-level outcome `d`.
pub open spec fn decode_matches(r: DecodeResult, d: SpecDec) -> bool {
    match r {
        DecodeResult::Done(v, n) => d == SpecDec::Val(v@, n as int),
        DecodeResult::NeedMore => d == SpecDec::More,
        DecodeResult::Malformed => d == SpecDec::Bad,
    }
}

/// Splices a decoded prefix and its consumed length onto the outcome of
/// decoding the remaining frames.
pub open spec fn dec_seq_ctx(prefix: Seq<SpecValue>, consumed: int, rest: SpecDecSeq) -> SpecDecSeq {
    match rest {
        SpecDecSeq::Val(items, m) => SpecDecSeq::Val(prefix + items, consumed + m),
        SpecDecSeq::More => SpecDecSeq::More,
        SpecDecSeq::Bad => SpecDecSeq::Bad,
    }
}

/// Decodes the first RESP frame of `buf`. Nothing is consumed on `NeedMore`,
/// so the caller can read further bytes and retry; `Malformed` reports a
/// protocol error. The outcome is exactly what the spec-level `dec` assigns
/// to the buffer contents.
pub fn parse_message(buf: &[u8]) -> (r: DecodeResult)
    ensures
        decode_matches(r, dec(buf@)),
    decreases buf@.len(),
{
    let ghost s = buf@;
    if buf.len() == 0 {
        return DecodeResult::NeedMore;
    }
    let m = buf[0];
    if m == MARK_SIMPLE || m == MARK_ERROR {
        match scan_crlf(buf, 1) {
            None => DecodeResult::NeedMore,
            Some(j) => {
                let line = vstd::slice::slice_to_vec(vstd::slice::slice_subrange(buf, 1, j));
                proof {
                    assert(line@ =~= s.subrange(1, j as int));
                }
                if m == MARK_SIMPLE {
                    DecodeResult::Done(Value::SimpleString(line), j + 2)
                } else {
                    DecodeResult::Done(Value::SimpleError(line), j + 2)
                }
            },
        }
    } else if m == MARK_INT {
        match scan_crlf(buf, 1) {
            None => DecodeResult::NeedMore,
            Some(j) => {
                match parse_decimal(buf, 1, j) {
                    None => DecodeResult::Malformed,
                    Some((negv, mag)) => {
                        if !negv {
                            if mag <= i64::MAX as u64 {
                                DecodeResult::Done(Value::Integer(mag as i64), j + 2)
                            } else {
                                DecodeResult::Malformed
                            }
                        } else {
                            if mag <= 9223372036854775808u64 {
                                let value: i64 = (-(mag as i128)) as i64;
                                proof {
                                    assert(value as int == -(mag as int));
                                }
                                DecodeResult::Done(Value::Integer(value), j + 2)
                            } else {
                                DecodeResult::Malformed
                            }
                        }
                    },
                }
            },
        }
    } else if m == MARK_BOOL {
        match scan_crlf(buf, 1) {
            None => DecodeResult::NeedMore,
            Some(j) => {
                if j == 2 && buf[1] == MARK_TRUE {
                    DecodeResult::Done(Value::Boolean(true), 4)
                } else if j == 2 && buf[1] == MARK_FALSE {
                    DecodeResult::Done(Value::Boolean(false), 4)
                } else {
                    DecodeResult::Malformed
                }
            },
        }
    } else if m == MARK_NULL {
        match scan_crlf(buf, 1) {
            None => DecodeResult::NeedMore,
            Some(j) => {
                if j == 1 {
                    DecodeResult::Done(Value::Null, 3)
                } else {
                    DecodeResult::Malformed
                }
            },
        }
    } else if m == MARK_BULK {
        match scan_crlf(buf, 1) {
            None => DecodeResult::NeedMore,
            Some(j) => {
                match parse_decimal(buf, 1, j) {
                    None => DecodeResult::Malformed,
                    Some((negv, mag)) => {
                        if negv && mag == 1 {
                            DecodeResult::Done(Value::NullBulkString, j + 2)
                        } else if negv && mag != 0 {
                            DecodeResult::Malformed
                        } else {
                            let n_len: u64 = if negv {
                                0
                            } else {
                                mag
                            };
                            if n_len > usize::MAX as u64 {
                                DecodeResult::Malformed
                            } else {
                                let nl = n_len as usize;
                                let start = j + 2;
                                if buf.len() - start < nl {
                                    DecodeResult::NeedMore
                                } else if buf.len() - start - nl < 2 {
                                    DecodeResult::NeedMore
                                } else if buf[start + nl] == CR && buf[start + nl + 1] == LF {
                                    let payload = vstd::slice::slice_to_vec(
                                        vstd::slice::slice_subrange(buf, start, start + nl),
                                    );
                                    proof {
                                        assert(payload@ =~= s.subrange(
                                            start as int,
                                            (start + nl) as int,
                                        ));
                                    }
                                    DecodeResult::Done(
                                        Value::BulkString(payload),
                                        start + nl + 2,
                                    )
                                } else {
                                    DecodeResult::Malformed
                                }
                            }
                        }
                    },
                }
            },
        }
    } else if m == MARK_ARRAY {
        match scan_crlf(buf, 1) {
            None => DecodeResult::NeedMore,
            Some(j) => {
                match parse_decimal(buf, 1, j) {
                    None => DecodeResult::Malformed,
                    Some((negv, mag)) => {
                        if negv && mag != 0 {
                            DecodeResult::Malformed
                        } else if mag > usize::MAX as u64 {
                            DecodeResult::Malformed
                        } else {
                            let k = mag as usize;
                            let hdr = j + 2;
                            let ghost karg = if negv {
                                0int
                            } else {
                                mag as int
                            };
                            proof {
                                assert(karg == k as int);
                            }
                            let mut items: Vec<Value> = Vec::new();
                            let ghost mut acc: Seq<SpecValue> = Seq::empty();
                            let mut pos: usize = hdr;
                            let mut cnt: usize = 0;
                            proof {
                                match dec_seq(s.skip(hdr as int), k as int) {
                                    SpecDecSeq::Val(its, m2) => {
                                        assert(acc + its =~= its);
                                    },
                                    _ => {},
                                }
                            }
                            while cnt < k
                                invariant
                                    s == buf@,
                                    3 <= hdr <= pos <= s.len(),
                                    cnt <= k,
                                    items@.len() == cnt,
                                    acc.len() == cnt as int,
                                    forall|x: int|
                                        #![trigger acc[x]]
                                        0 <= x < cnt ==> acc[x] == items@[x]@,
                                    dec_seq(s.skip(hdr as int), k as int) == dec_seq_ctx(
                                        acc,
                                        pos - hdr,
                                        dec_seq(s.skip(pos as int), k - cnt),
                                    ),
                                    dec(s) == (match dec_seq(s.skip(hdr as int), k as int) {
                                        SpecDecSeq::Val(its, n2) => SpecDec::Val(
                                            SpecValue::Array(its),
                                            hdr + n2,
                                        ),
                                        SpecDecSeq::More => SpecDec::More,
                                        SpecDecSeq::Bad => SpecDec::Bad,
                                    }),
                                decreases k - cnt,
                            {
                                let sub = vstd::slice::slice_subrange(buf, pos, buf.len());
                                let step = parse_message(sub);
                                match step {
                                    DecodeResult::Done(v, n) => {
                                        proof {
                                            assert(sub@ =~= s.skip(pos as int));
                                            lemma_dec_bounds(s.skip(pos as int));
                                            assert(3 <= n <= s.len() - pos);
                                            assert(s.skip(pos as int).skip(n as int) =~= s.skip(
                                                pos + n,
                                            ));
                                            let rest0 = dec_seq(s.skip(pos as int), k - cnt);
                                            let rest1 = dec_seq(s.skip(pos + n), k - cnt - 1);
                                            assert(rest0 == (match rest1 {
                                                SpecDecSeq::Val(its, m2) => SpecDecSeq::Val(
                                                    seq![v@] + its,
                                                    n + m2,
                                                ),
                                                SpecDecSeq::More => SpecDecSeq::More,
                                                SpecDecSeq::Bad => SpecDecSeq::Bad,
                                            }));
                                            let acc2 = acc.push(v@);
                                            match rest1 {
                                                SpecDecSeq::Val(its, m2) => {
                                                    assert((acc + (seq![v@] + its)) =~= (acc2
                                                        + its));
                                                },
                                                _ => {},
                                            }
                                            acc = acc2;
                                        }
                                        items.push(v);
                                        pos = pos + n;
                                        cnt = cnt + 1;
                                    },
                                    DecodeResult::NeedMore => {
                                        return DecodeResult::NeedMore;
                                    },
                                    DecodeResult::Malformed => {
                                        return DecodeResult::Malformed;
                                    },
                                }
                            }
                            proof {
                                assert(dec_seq(s.skip(pos as int), 0) == SpecDecSeq::Val(
                                    Seq::<SpecValue>::empty(),
                                    0,
                                ));
                                assert(acc + Seq::<SpecValue>::empty() =~= acc);
                                let vv = Value::Array(items);
                                assert(vv@ == SpecValue::Array(acc)) by {
                                    match vv@ {
                                        SpecValue::Array(its) => {
                                            assert(its =~= acc);
                                        },
                                        _ => {},
                                    }
                                }
                            }
                            DecodeResult::Done(Value::Array(items), pos)
                        }
                    },
                }
            },
        }
    } else {
        DecodeResult::Malformed
    }
}

/// RESP round-trip: decoding the encoding of any wire value yields the value
/// itself, consuming exactly the encoded bytes.
pub proof fn lemma_round_trip(v: SpecValue)
    requires
        wire(v),
    ensures
        dec(enc(v)) == SpecDec::Val(v, enc(v).len() as int),
{
    lemma_dec_enc(v, Seq::empty());
    assert(enc(v) + Seq::<u8>::empty() =~= enc(v));
}

/// RESP incremental decode: splitting the encoding of any wire value at any
/// byte boundary, the decoder asks for more bytes on the strict prefix and
/// succeeds on the full buffer.
pub proof fn lemma_incremental_decode(v: SpecValue, i: int)
    requires
        wire(v),
        0 <= i < enc(v).len(),
    ensures
        dec(enc(v).take(i)) == SpecDec::More,
        dec(enc(v)) == SpecDec::Val(v, enc(v).len() as int),
{
    lemma_dec_prefix(v, i);
    lemma_round_trip(v);
}

/// The text form that `unpack_as_string` extracts from a value, if any.
pub open spec fn unpack_spec(v: SpecValue) -> Option<Seq<u8>> {
    match v {
        SpecValue::SimpleString(s) => Some(s),
        SpecValue::BulkString(s) => Some(s),
        SpecValue::Boolean(b) => Some(
            if b {
                seq![116u8, 114u8, 117u8, 101u8]
            } else {
                seq![102u8, 97u8, 108u8, 115u8, 101u8]
            },
        ),
        SpecValue::Integer(i) => Some(int_digits(i as int)),
        SpecValue::Null => Some(Seq::empty()),
        _ => None,
    }
}

impl Value {
    /// The textual payload of a scalar value: the text of a string, the
    /// ASCII form of an integer or boolean, the empty text of a null.
    /// Errors, arrays and streams carry no single text and give `None`.
    pub fn unpack_as_string(&self) -> (r: Option<Vec<u8>>)
        ensures
            match r {
                Some(b) => unpack_spec(self@) == Some(b@),
                None => unpack_spec(self@) is None,
            },
    {
        match self {
            Value::SimpleString(s) => Some(copy_bytes(s)),
            Value::BulkString(s) => Some(copy_bytes(s)),
            Value::Boolean(b) => {
                let mut r: Vec<u8> = Vec::new();
                if *b {
                    r.push(116);
                    r.push(114);
                    r.push(117);
                    r.push(101);
                    proof {
                        assert(r@ =~= seq![116u8, 114u8, 117u8, 101u8]);
                    }
                } else {
                    r.push(102);
                    r.push(97);
                    r.push(108);
                    r.push(115);
                    r.push(101);
                    proof {
                        assert(r@ =~= seq![102u8, 97u8, 108u8, 115u8, 101u8]);
                    }
                }
                Some(r)
            },
            Value::Integer(i) => {
                let mut r: Vec<u8> = Vec::new();
                push_i64_digits(*i, &mut r);
                Some(r)
            },
            Value::Null => Some(Vec::new()),
            _ => None,
        }
    }
}

impl Value {
    /// A fresh deep copy of this value.
    pub fn dup(&self) -> (r: Value)
        ensures
            r@ == self@,
        decreases *self,
    {
        match self {
            Value::SimpleString(s) => Value::SimpleString(copy_bytes(s)),
            Value::SimpleError(s) => Value::SimpleError(copy_bytes(s)),
            Value::BulkString(s) => Value::BulkString(copy_bytes(s)),
            Value::NullBulkString => Value::NullBulkString,
            Value::Integer(i) => Value::Integer(*i),
            Value::Boolean(b) => Value::Boolean(*b),
            Value::Null => Value::Null,
            Value::Array(items) => {
                let mut out: Vec<Value> = Vec::new();
                let mut idx: usize = 0;
                while idx < items.len()
                    invariant
                        idx <= items@.len(),
                        *self == Value::Array(*items),
                        out@.len() == idx,
                        forall|x: int| #![trigger out@[x]] 0 <= x < idx ==> out@[x]@ == items@[x]@,
                    decreases items@.len() - idx,
                {
                    proof {
                        assert(decreases_to!(*self => (*self)->Array_0));
                        assert((*self)->Array_0 == *items);
                        assert(decreases_to!(*items => items@[idx as int]));
                        assert(decreases_to!(*self => items@[idx as int]));
                    }
                    let piece = items[idx].dup();
                    out.push(piece);
                    idx += 1;
                }
                let r = Value::Array(out);
                proof {
                    match (r@, self@) {
                        (SpecValue::Array(a), SpecValue::Array(b)) => {
                            assert(a =~= b);
                        },
                        _ => {},
                    }
                }
                r
            },
            Value::Stream(entries) => {
                let mut out: Vec<StreamEntry> = Vec::new();
                let mut idx: usize = 0;
                while idx < entries.len()
                    invariant
                        idx <= entries@.len(),
                        *self == Value::Stream(*entries),
                        out@.len() == idx,
                        forall|x: int|
                            #![trigger out@[x]]
                            0 <= x < idx ==> out@[x]@ == entries@[x]@,
                    decreases entries@.len() - idx,
                {
                    proof {
                        assert(decreases_to!(*self => (*self)->Stream_0));
                        assert((*self)->Stream_0 == *entries);
                        assert(decreases_to!(*entries => entries@[idx as int]));
                        assert(decreases_to!(*self => entries@[idx as int]));
                    }
                    let entry = &entries[idx];
                    let mut fields: Vec<(Vec<u8>, Value)> = Vec::new();
                    let mut fx: usize = 0;
                    while fx < entry.fields.len()
                        invariant
                            fx <= entry.fields@.len(),
                            decreases_to!(*self => entries@[idx as int]),
                            idx < entries@.len(),
                            *entry == entries@[idx as int],
                            fields@.len() == fx,
                            forall|y: int|
                                #![trigger fields@[y]]
                                0 <= y < fx ==> fields@[y].0@ == entry.fields@[y].0@
                                    && fields@[y].1@ == entry.fields@[y].1@,
                        decreases entry.fields@.len() - fx,
                    {
                        proof {
                            assert(decreases_to!(entries@[idx as int] =>
                                entries@[idx as int].fields));
                            assert(entries@[idx as int].fields == entry.fields);
                            assert(decreases_to!(entry.fields => entry.fields@[fx as int]));
                            assert(decreases_to!(entry.fields@[fx as int] =>
                                entry.fields@[fx as int].1));
                            assert(decreases_to!(*self => entry.fields@[fx as int].1));
                        }
                        let kv = copy_bytes(&entry.fields[fx].0);
                        let vv = entry.fields[fx].1.dup();
                        fields.push((kv, vv));
                        fx += 1;
                    }
                    let copied = StreamEntry {
                        millis_time: entry.millis_time,
                        sequence_number: entry.sequence_number,
                        fields,
                    };
                    proof {
                        assert(copied@.fields =~= entry@.fields);
                    }
                    out.push(copied);
                    idx += 1;
                }
                let r = Value::Stream(out);
                proof {
                    match (r@, self@) {
                        (SpecValue::Stream(a), SpecValue::Stream(b)) => {
                            assert(a =~= b);
                        },
                        _ => {},
                    }
                }
                r
            },
        }
    }
}

/// The models of a sequence of values.
pub open spec fn values_view(s: Seq<Value>) -> Seq<SpecValue> {
    Seq::new(s.len(), |i: int| s[i]@)
}

/// The models of a sequence of stream entries.
pub open spec fn entries_view(s: Seq<StreamEntry>) -> Seq<SpecStreamEntry> {
    Seq::new(s.len(), |i: int| s[i]@)
}

/// The semantic kind of a stored value: scalar values report as strings,
/// streams as streams.
#[derive(PartialEq, Eq, Structural, Clone, Copy, Debug)]
pub enum Type {
    Text,
    Stream,
}

/// The semantic kind of a value.
pub open spec fn type_of(v: SpecValue) -> Type {
    match v {
        SpecValue::Stream(_) => Type::Stream,
        _ => Type::Text,
    }
}

impl Value {
    /// The semantic kind of this value, as the TYPE command reports it.
    pub fn get_type(&self) -> (r: Type)
        ensures
            r == type_of(self@),
    {
        match self {
            Value::Stream(_) => Type::Stream,
            _ => Type::Text,
        }
    }
}

/// Splits the first CRLF-terminated line off `buffer`: the bytes before the
/// first `\r\n` and how many bytes the line occupied with its terminator.
pub fn read_until_end(buffer: &[u8]) -> (r: Option<(&[u8], usize)>)
    ensures
        match r {
            Some(p) => {
                &&& find_crlf(buffer@) == Some(p.1 - 2)
                &&& p.0@ == buffer@.take(p.1 - 2)
                &&& 2 <= p.1 <= buffer@.len()
            },
            None => find_crlf(buffer@) is None,
        },
{
    proof {
        assert(buffer@.skip(0) =~= buffer@);
    }
    let blen = buffer.len();
    match scan_crlf(buffer, 0) {
        Some(j) => {
            let line = vstd::slice::slice_subrange(buffer, 0, j);
            proof {
                assert(line@ =~= buffer@.take(j as int));
            }
            Some((line, j + 2))
        },
        None => None,
    }
}

/// An owned copy of a borrowed line of bytes.
pub fn buffer_to_string(buffer: &[u8]) -> (r: Vec<u8>)
    ensures
        r@ == buffer@,
{
    vstd::slice::slice_to_vec(buffer)
}

/// Reads `buffer` as a non-negative ASCII decimal that fits in a `usize`.
pub fn parse_int(buffer: &[u8]) -> (r: Option<usize>)
    ensures
        match r {
            Some(n) => parse_num(buffer@) == Some(n as int),
            None => (match parse_num(buffer@) {
                Some(n) => n < 0 || n > usize::MAX as int,
                None => true,
            }),
        },
{
    proof {
        assert(buffer@.subrange(0, buffer@.len() as int) =~= buffer@);
    }
    match parse_decimal(buffer, 0, buffer.len()) {
        Some((negv, mag)) => {
            if negv && mag == 0 {
                Some(0)
            } else if negv {
                None
            } else if mag <= usize::MAX as u64 {
                Some(mag as usize)
            } else {
                None
            }
        },
        None => None,
    }
}

/// `b` with ASCII upper-case letters folded to lower case.
pub open spec fn lower_byte(b: u8) -> u8 {
    if 65 <= b <= 90 {
        (b + 32) as u8
    } else {
        b
    }
}

/// `s` with every ASCII upper-case letter folded to lower case.
pub open spec fn lower_bytes_spec(s: Seq<u8>) -> Seq<u8> {
    Seq::new(s.len(), |i: int| lower_byte(s[i]))
}

/// Folds ASCII upper-case letters to lower case, as command names are
/// compared case-insensitively.
pub fn lower_bytes(s: &[u8]) -> (r: Vec<u8>)
    ensures
        r@ == lower_bytes_spec(s@),
{
    let mut r: Vec<u8> = Vec::new();
    let mut j: usize = 0;
    while j < s.len()
        invariant
            j <= s@.len(),
            r@.len() == j,
            forall|x: int| #![trigger r@[x]] 0 <= x < j ==> r@[x] == lower_byte(s@[x]),
        decreases s@.len() - j,
    {
        let b = s[j];
        if 65 <= b && b <= 90 {
            r.push(b + 32);
        } else {
            r.push(b);
        }
        j += 1;
    }
    proof {
        assert(r@ =~= lower_bytes_spec(s@));
    }
    r
}

/// The bytes of an ASCII text, character by character.
pub open spec fn lit_bytes(s: Seq<char>) -> Seq<u8> {
    Seq::new(s.len(), |i: int| s[i] as u8)
}

/// An owned byte string holding the characters of an ASCII literal.
pub fn ascii_bytes(s: &str) -> (r: Vec<u8>)
    requires
        s.is_ascii(),
    ensures
        r@ == lit_bytes(s@),
{
    proof {
        broadcast use vstd::string::is_ascii_spec_bytes;

    }
    let r = s.as_bytes_vec();
    proof {
        assert(r@ =~= lit_bytes(s@));
    }
    r
}

/// Compares a byte string against an ASCII literal.
pub fn bytes_eq_str(b: &Vec<u8>, s: &str) -> (r: bool)
    requires
        s.is_ascii(),
    ensures
        r == (b@ == lit_bytes(s@)),
{
    let t = ascii_bytes(s);
    let r = bytes_eq(b, &t);
    proof {
        if b@ =~= lit_bytes(s@) {
            assert(b@ == lit_bytes(s@));
        }
    }
    r
}

/// Compares two byte strings for equality of contents.
pub fn bytes_eq(a: &Vec<u8>, b: &Vec<u8>) -> (r: bool)
    ensures
        r == (a@ == b@),
{
    if a.len() != b.len() {
        return false;
    }
    let mut j: usize = 0;
    while j < a.len()
        invariant
            a@.len() == b@.len(),
            j <= a@.len(),
            forall|x: int| 0 <= x < j ==> a@[x] == b@[x],
        decreases a@.len() - j,
    {
        if a[j] != b[j] {
            return false;
        }
        j += 1;
    }
    proof {
        assert(a@ =~= b@);
    }
    true
}

} // verus!
