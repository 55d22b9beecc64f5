//! The keyspace engine: a mapping from byte-string key to a value cell with
//! an optional absolute expiration deadline, with lazy expiry on access.
//!
//! The mathematical model of a `Storage` is a `Map<Seq<u8>, CellModel>`; the
//! executable form is an association list with pairwise distinct keys
//! (`Storage::wf`), so every contract below speaks in terms of `Map` inserts
//! and removes.

use vstd::prelude::*;

use crate::parser::{copy_bytes, SpecValue, Value};

verus! {

/// Milliseconds since the Unix epoch, read from the system wall clock.
/// Relies on `std::time::SystemTime::now` and `duration_since(UNIX_EPOCH)`;
/// nothing can be promised of the clock's reading, so callers state what
/// holds for every value.
#[verifier::external_body]
pub fn now_millis() -> u64 {
    match std::time::SystemTime::now().duration_since(std::time::UNIX_EPOCH) {
        Ok(d) => {
            let ms = d.as_millis();
            if ms > u64::MAX as u128 {
                u64::MAX
            } else {
                ms as u64
            }
        },
        Err(_) => 0,
    }
}

/// Mathematical model of a stored cell: a value and an optional absolute
/// deadline in milliseconds since the Unix epoch.
pub struct CellModel {
    pub value: SpecValue,
    pub expire: Option<u64>,
}

/// A cell is dead at `now` when it carries a deadline at or before `now`.
pub open spec fn cell_expired(c: CellModel, now: u64) -> bool {
    match c.expire {
        Some(d) => d <= now,
        None => false,
    }
}

/// The unit stored under a key: a value and an optional absolute expiration
/// deadline in milliseconds since the Unix epoch.
pub struct DataContainer {
    value: Value,
    expire: Option<u64>,
}

impl View for DataContainer {
    type V = CellModel;

    closed spec fn view(&self) -> CellModel {
        CellModel { value: self.value@, expire: self.expire }
    }
}

impl DataContainer {
    /// Wraps a value and its optional deadline into a cell.
    pub fn create(value: Value, expire: Option<u64>) -> (r: DataContainer)
        ensures
            r@ == (CellModel { value: value@, expire }),
    {
        DataContainer { value, expire }
    }

    /// Whether the cell is dead at the instant `now_ms`.
    pub fn is_expired_at(&self, now_ms: u64) -> (r: bool)
        ensures
            r == cell_expired(self@, now_ms),
    {
        match self.expire {
            Some(d) => d <= now_ms,
            None => false,
        }
    }

    /// Whether the cell is dead right now, by the system clock. A cell with
    /// no deadline is never dead, whatever the clock returns.
    pub fn is_expired(&self) -> (r: bool)
        ensures
            self@.expire is None ==> !r,
            r ==> self@.expire is Some,
    {
        let now = now_millis();
        self.is_expired_at(now)
    }

    /// A copy of the stored value.
    pub fn get_value(&self) -> (v: Value)
        ensures
            v@ == self@.value,
    {
        self.value.dup()
    }
}

/// First index whose key equals `k`, or `-1` when no entry matches.
pub open spec fn idx_of(s: Seq<(Seq<u8>, CellModel)>, k: Seq<u8>) -> int
    decreases s.len(),
{
    if s.len() == 0 {
        -1
    } else if s[0].0 == k {
        0
    } else {
        let r = idx_of(s.drop_first(), k);
        if r < 0 {
            -1
        } else {
            r + 1
        }
    }
}

/// The map an association list denotes, earlier entries shadowing later ones.
pub open spec fn assoc_map(s: Seq<(Seq<u8>, CellModel)>) -> Map<Seq<u8>, CellModel> {
    Map::new(|k: Seq<u8>| idx_of(s, k) >= 0, |k: Seq<u8>| s[idx_of(s, k)].1)
}

proof fn lemma_idx_of(s: Seq<(Seq<u8>, CellModel)>, k: Seq<u8>)
    ensures
        idx_of(s, k) >= 0 ==> 0 <= idx_of(s, k) < s.len() && s[idx_of(s, k)].0 == k && (forall|
            j: int,
        |
            0 <= j < idx_of(s, k) ==> (#[trigger] s[j]).0 != k),
        idx_of(s, k) < 0 ==> (forall|j: int| 0 <= j < s.len() ==> (#[trigger] s[j]).0 != k),
    decreases s.len(),
{
    if s.len() == 0 {
    } else if s[0].0 == k {
    } else {
        let t = s.drop_first();
        lemma_idx_of(t, k);
        assert(forall|j: int| #![trigger t[j]] 0 <= j < t.len() ==> t[j] == s[j + 1]);
        if idx_of(t, k) >= 0 {
            let i = idx_of(t, k);
            assert forall|j: int| 0 <= j < i + 1 implies (#[trigger] s[j]).0 != k by {
                if j > 0 {
                    assert(s[j] == t[j - 1]);
                }
            }
        } else {
            assert forall|j: int| 0 <= j < s.len() implies (#[trigger] s[j]).0 != k by {
                if j > 0 {
                    assert(s[j] == t[j - 1]);
                }
            }
        }
    }
}

proof fn lemma_idx_of_at(s: Seq<(Seq<u8>, CellModel)>, k: Seq<u8>, i: int)
    requires
        0 <= i < s.len(),
        s[i].0 == k,
        forall|j: int| 0 <= j < i ==> (#[trigger] s[j]).0 != k,
    ensures
        idx_of(s, k) == i,
{
    lemma_idx_of(s, k);
    if idx_of(s, k) < 0 {
        assert(s[i].0 != k);
    } else {
        let r = idx_of(s, k);
        if r < i {
            assert(s[r].0 != k);
        } else if r > i {
            assert(s[i].0 != k);
        }
    }
}

/// Keys of the entries are pairwise distinct.
pub open spec fn distinct_keys(s: Seq<(Seq<u8>, CellModel)>) -> bool {
    forall|i: int, j: int|
        0 <= i < j < s.len() ==> (#[trigger] s[i]).0 != (#[trigger] s[j]).0
}

proof fn lemma_assoc_update(s: Seq<(Seq<u8>, CellModel)>, i: int, c: CellModel)
    requires
        distinct_keys(s),
        0 <= i < s.len(),
    ensures
        assoc_map(s.update(i, (s[i].0, c))) == assoc_map(s).insert(s[i].0, c),
        distinct_keys(s.update(i, (s[i].0, c))),
{
    let k = s[i].0;
    let t = s.update(i, (k, c));
    assert(forall|j: int| #![trigger t[j]] 0 <= j < s.len() && j != i ==> t[j] == s[j]);
    assert(forall|j: int| #![trigger t[j]] 0 <= j < s.len() ==> t[j].0 == s[j].0);
    lemma_idx_of(s, k);
    assert forall|j: int| 0 <= j < i implies (#[trigger] t[j]).0 != k by {
        assert(s[j].0 != s[i].0);
    }
    lemma_idx_of_at(t, k, i);
    assert forall|k2: Seq<u8>| k2 != k implies idx_of(t, k2) == idx_of(s, k2) && (idx_of(s, k2)
        >= 0 ==> t[idx_of(s, k2)] == s[idx_of(s, k2)]) by {
        lemma_idx_of(s, k2);
        lemma_idx_of(t, k2);
        if idx_of(s, k2) >= 0 {
            let j = idx_of(s, k2);
            assert(j != i);
            assert(t[j].0 == k2);
            lemma_idx_of_at(t, k2, j);
        } else {
            if idx_of(t, k2) >= 0 {
                let j = idx_of(t, k2);
                assert(t[j].0 == s[j].0);
                assert(s[j].0 != k2);
            }
        }
    }
    assert(assoc_map(t) =~= assoc_map(s).insert(k, c));
}

proof fn lemma_assoc_push(s: Seq<(Seq<u8>, CellModel)>, k: Seq<u8>, c: CellModel)
    requires
        distinct_keys(s),
        idx_of(s, k) < 0,
    ensures
        assoc_map(s.push((k, c))) == assoc_map(s).insert(k, c),
        distinct_keys(s.push((k, c))),
{
    let t = s.push((k, c));
    lemma_idx_of(s, k);
    assert(forall|j: int| #![trigger t[j]] 0 <= j < s.len() ==> t[j] == s[j]);
    assert(t[s.len() as int].0 == k);
    assert forall|j: int| 0 <= j < s.len() implies (#[trigger] t[j]).0 != k by {
        assert(s[j].0 != k);
    }
    lemma_idx_of_at(t, k, s.len() as int);
    assert forall|k2: Seq<u8>| k2 != k implies idx_of(t, k2) == idx_of(s, k2) && (idx_of(s, k2)
        >= 0 ==> t[idx_of(s, k2)] == s[idx_of(s, k2)]) by {
        lemma_idx_of(s, k2);
        lemma_idx_of(t, k2);
        if idx_of(s, k2) >= 0 {
            let j = idx_of(s, k2);
            lemma_idx_of_at(t, k2, j);
        } else {
            if idx_of(t, k2) >= 0 {
                let j = idx_of(t, k2);
                if j < s.len() {
                    assert(s[j].0 != k2);
                } else {
                    assert(t[j].0 == k);
                }
            }
        }
    }
    assert(assoc_map(t) =~= assoc_map(s).insert(k, c));
}

proof fn lemma_assoc_remove(s: Seq<(Seq<u8>, CellModel)>, i: int)
    requires
        distinct_keys(s),
        0 <= i < s.len(),
    ensures
        assoc_map(s.remove(i)) == assoc_map(s).remove(s[i].0),
        distinct_keys(s.remove(i)),
{
    let k = s[i].0;
    let t = s.remove(i);
    assert(forall|j: int| #![trigger t[j]] 0 <= j < i ==> t[j] == s[j]);
    assert(forall|j: int| #![trigger t[j]] i <= j < t.len() ==> t[j] == s[j + 1]);
    assert forall|j: int| 0 <= j < t.len() implies (#[trigger] t[j]).0 != k by {
        if j < i {
            assert(s[j].0 != s[i].0);
        } else {
            assert(t[j] == s[j + 1]);
            assert(s[j + 1].0 != s[i].0);
        }
    }
    lemma_idx_of(t, k);
    if idx_of(t, k) >= 0 {
        assert(t[idx_of(t, k)].0 != k);
    }
    assert forall|k2: Seq<u8>| k2 != k implies (idx_of(s, k2) >= 0 ==> idx_of(t, k2) >= 0 && t[
    idx_of(t, k2)] == s[idx_of(s, k2)]) && (idx_of(s, k2) < 0 ==> idx_of(t, k2) < 0) by {
        lemma_idx_of(s, k2);
        lemma_idx_of(t, k2);
        if idx_of(s, k2) >= 0 {
            let j = idx_of(s, k2);
            assert(j != i);
            if j < i {
                assert(t[j] == s[j]);
                lemma_idx_of_at(t, k2, j);
            } else {
                assert(t[j - 1] == s[j]);
                assert forall|x: int| 0 <= x < j - 1 implies (#[trigger] t[x]).0 != k2 by {
                    if x < i {
                        assert(t[x] == s[x]);
                        assert(s[x].0 != k2);
                    } else {
                        assert(t[x] == s[x + 1]);
                        assert(s[x + 1].0 != k2);
                    }
                }
                lemma_idx_of_at(t, k2, j - 1);
            }
        } else {
            if idx_of(t, k2) >= 0 {
                let j = idx_of(t, k2);
                if j < i {
                    assert(s[j].0 != k2);
                } else {
                    assert(s[j + 1].0 != k2);
                }
            }
        }
    }
    assert(assoc_map(t) =~= assoc_map(s).remove(k));
    assert forall|x: int, y: int| 0 <= x < y < t.len() implies (#[trigger] t[x]).0 != (
    #[trigger] t[y]).0 by {
        let sx = if x < i {
            x
        } else {
            x + 1
        };
        let sy = if y < i {
            y
        } else {
            y + 1
        };
        assert(t[x] == s[sx] && t[y] == s[sy]);
        assert(s[sx].0 != s[sy].0);
    }
}

/// The keyspace: a mapping from key to cell. Keys are pairwise distinct
/// (`wf`), and the model is the finite map `contents`.
pub struct Storage {
    values: Vec<(Vec<u8>, DataContainer)>,
}

impl View for Storage {
    type V = Map<Seq<u8>, CellModel>;

    closed spec fn view(&self) -> Map<Seq<u8>, CellModel> {
        assoc_map(self.entry_seq())
    }
}

impl Storage {
    /// The stored entries, in storage order.
    pub closed spec fn entry_seq(self) -> Seq<(Seq<u8>, CellModel)> {
        Seq::new(
            self.values@.len(),
            |i: int|
                if 0 <= i < self.values@.len() {
                    (self.values@[i].0@, self.values@[i].1@)
                } else {
                    (Seq::empty(), CellModel { value: SpecValue::Null, expire: None })
                },
        )
    }

    /// Keys are pairwise distinct.
    pub open spec fn wf(self) -> bool {
        distinct_keys(self.entry_seq())
    }

    /// An empty keyspace.
    pub fn new() -> (r: Storage)
        ensures
            r.wf(),
            r@ == Map::<Seq<u8>, CellModel>::empty(),
    {
        let r = Storage { values: Vec::new() };
        proof {
            assert(r.entry_seq().len() == 0);
            assert(r@ =~= Map::<Seq<u8>, CellModel>::empty());
        }
        r
    }

    /// First index holding `key`, if any.
    fn find_key(&self, key: &Vec<u8>) -> (r: Option<usize>)
        ensures
            match r {
                Some(i) => idx_of(self.entry_seq(), key@) == i as int && i < self.values@.len(),
                None => idx_of(self.entry_seq(), key@) < 0,
            },
    {
        let ghost es = self.entry_seq();
        let mut i: usize = 0;
        while i < self.values.len()
            invariant
                i <= self.values@.len(),
                es == self.entry_seq(),
                es.len() == self.values@.len(),
                forall|j: int| 0 <= j < i ==> (#[trigger] es[j]).0 != key@,
            decreases self.values@.len() - i,
        {
            if crate::parser::bytes_eq(&self.values[i].0, key) {
                proof {
                    assert(es[i as int].0 == key@);
                    lemma_idx_of_at(es, key@, i as int);
                }
                return Some(i);
            }
            proof {
                assert(es[i as int].0 == self.values@[i as int].0@);
            }
            i += 1;
        }
        proof {
            lemma_idx_of(es, key@);
            if idx_of(es, key@) >= 0 {
                assert(es[idx_of(es, key@)].0 == key@);
            }
        }
        None
    }

    /// Stores `value` under `key`, replacing whatever was there, with the
    /// optional absolute deadline `expire`; replies `OK`.
    pub fn set(&mut self, key: &Vec<u8>, value: Value, expire: Option<u64>) -> (r: Value)
        requires
            old(self).wf(),
        ensures
            final(self).wf(),
            final(self)@ == old(self)@.insert(
                key@,
                (CellModel { value: value@, expire }),
            ),
            r@ == SpecValue::SimpleString(crate::parser::lit_bytes("OK"@)),
    {
        let ghost es = self.entry_seq();
        let cell = DataContainer::create(value, expire);
        let ghost cm = cell@;
        match self.find_key(key) {
            Some(i) => {
                proof {
                    lemma_idx_of(es, key@);
                    lemma_assoc_update(es, i as int, cm);
                }
                self.values.set(i, (copy_bytes(key), cell));
                proof {
                    assert(self.entry_seq() =~= es.update(i as int, (key@, cm)));
                    assert(es.update(i as int, (key@, cm)) == es.update(
                        i as int,
                        (es[i as int].0, cm),
                    ));
                }
            },
            None => {
                proof {
                    lemma_assoc_push(es, key@, cm);
                }
                self.values.push((copy_bytes(key), cell));
                proof {
                    assert(self.entry_seq() =~= es.push((key@, cm)));
                }
            },
        }
        proof {
            reveal_strlit("OK");
            assert("OK".is_ascii());
        }
        Value::SimpleString(crate::parser::ascii_bytes("OK"))
    }

    /// Looks `key` up at the instant `now_ms`. A live cell's value comes back
    /// and the store is untouched; an expired cell is removed and the lookup
    /// reports absence; an absent key reports absence.
    pub fn get_at(&mut self, key: &Vec<u8>, now_ms: u64) -> (r: Option<Value>)
        requires
            old(self).wf(),
        ensures
            final(self).wf(),
            lookup_outcome(old(self)@, final(self)@, key@, now_ms, opt_value_view(r)),
    {
        let ghost es = self.entry_seq();
        match self.find_key(key) {
            None => {
                proof {
                    assert(!old(self)@.contains_key(key@));
                }
                None
            },
            Some(i) => {
                proof {
                    lemma_idx_of(es, key@);
                    assert(old(self)@.contains_key(key@));
                    assert(old(self)@[key@] == es[i as int].1);
                }
                if self.values[i].1.is_expired_at(now_ms) {
                    proof {
                        lemma_assoc_remove(es, i as int);
                    }
                    self.values.remove(i);
                    proof {
                        assert(self.entry_seq() =~= es.remove(i as int));
                    }
                    None
                } else {
                    let v = self.values[i].1.get_value();
                    Some(v)
                }
            },
        }
    }

    /// Looks `key` up at the instant the system clock reports. Whatever the
    /// clock returned, the outcome is a lazy-expiry lookup at some instant.
    pub fn get(&mut self, key: &Vec<u8>) -> (r: Option<Value>)
        requires
            old(self).wf(),
        ensures
            final(self).wf(),
            exists|now: u64|
                lookup_outcome(old(self)@, final(self)@, key@, now, opt_value_view(r)),
    {
        let now = now_millis();
        self.get_at(key, now)
    }

    /// Drops `key` if present; replies `OK` either way.
    pub fn remove(&mut self, key: &Vec<u8>) -> (r: Value)
        requires
            old(self).wf(),
        ensures
            final(self).wf(),
            final(self)@ == old(self)@.remove(key@),
            r@ == SpecValue::SimpleString(crate::parser::lit_bytes("OK"@)),
    {
        let ghost es = self.entry_seq();
        match self.find_key(key) {
            Some(i) => {
                proof {
                    lemma_idx_of(es, key@);
                    lemma_assoc_remove(es, i as int);
                }
                self.values.remove(i);
                proof {
                    assert(self.entry_seq() =~= es.remove(i as int));
                }
            },
            None => {
                proof {
                    assert(!old(self)@.contains_key(key@));
                    assert(old(self)@.remove(key@) =~= old(self)@);
                }
            },
        }
        proof {
            reveal_strlit("OK");
            assert("OK".is_ascii());
        }
        Value::SimpleString(crate::parser::ascii_bytes("OK"))
    }

    /// A snapshot of the current keys: one entry for each stored key, in no
    /// promised order and with no duplicates. Expired cells that were never
    /// touched are still listed; they vanish on access.
    pub fn keys(&self) -> (r: Vec<Vec<u8>>)
        requires
            self.wf(),
        ensures
            forall|k: Seq<u8>|
                self@.contains_key(k) <==> exists|i: int|
                    0 <= i < r@.len() && (#[trigger] r@[i])@ == k,
            forall|i: int, j: int| 0 <= i < j < r@.len() ==> (#[trigger] r@[i])@ != (
            #[trigger] r@[j])@,
    {
        let ghost es = self.entry_seq();
        let mut r: Vec<Vec<u8>> = Vec::new();
        let mut i: usize = 0;
        while i < self.values.len()
            invariant
                i <= self.values@.len(),
                es == self.entry_seq(),
                es.len() == self.values@.len(),
                r@.len() == i,
                forall|x: int| #![trigger r@[x]] 0 <= x < i ==> r@[x]@ == es[x].0,
            decreases self.values@.len() - i,
        {
            proof {
                assert(es[i as int].0 == self.values@[i as int].0@);
            }
            let kcopy = copy_bytes(&self.values[i].0);
            r.push(kcopy);
            i += 1;
        }
        proof {
            assert forall|k: Seq<u8>| self@.contains_key(k) implies exists|x: int|
                0 <= x < r@.len() && (#[trigger] r@[x])@ == k by {
                lemma_idx_of(es, k);
                let x = idx_of(es, k);
                assert(r@[x]@ == k);
            }
            assert forall|k: Seq<u8>| (exists|x: int| 0 <= x < r@.len() && (#[trigger] r@[x])@
                == k) implies self@.contains_key(k) by {
                let x = choose|x: int| 0 <= x < r@.len() && (#[trigger] r@[x])@ == k;
                assert(es[x].0 == k);
                lemma_idx_of(es, k);
                if idx_of(es, k) < 0 {
                    assert(es[x].0 != k);
                }
            }
        }
        r
    }
}

/// The entries of an owned association list, as key/cell models.
pub open spec fn pairs_view(s: Seq<(Vec<u8>, DataContainer)>) -> Seq<(Seq<u8>, CellModel)> {
    Seq::new(s.len(), |i: int| (s[i].0@, s[i].1@))
}

/// The map after storing every entry of `s` into `m`, first to last, later
/// entries replacing earlier ones.
pub open spec fn merged(m: Map<Seq<u8>, CellModel>, s: Seq<(Seq<u8>, CellModel)>) -> Map<
    Seq<u8>,
    CellModel,
>
    decreases s.len(),
{
    if s.len() == 0 {
        m
    } else {
        merged(m.insert(s[0].0, s[0].1), s.drop_first())
    }
}

/// The cells of type `t`, in storage order.
pub open spec fn cells_of_type(s: Seq<(Seq<u8>, CellModel)>, t: crate::parser::Type) -> Seq<
    CellModel,
>
    decreases s.len(),
{
    if s.len() == 0 {
        Seq::empty()
    } else {
        let rest = cells_of_type(s.drop_last(), t);
        if crate::parser::type_of(s.last().1.value) == t {
            rest.push(s.last().1)
        } else {
            rest
        }
    }
}

impl Storage {
    /// Stores `cell` under `key`, replacing whatever was there.
    fn put(&mut self, key: &Vec<u8>, cell: DataContainer)
        requires
            old(self).wf(),
        ensures
            final(self).wf(),
            final(self)@ == old(self)@.insert(key@, cell@),
    {
        let ghost es = self.entry_seq();
        let ghost cm = cell@;
        match self.find_key(key) {
            Some(i) => {
                proof {
                    lemma_idx_of(es, key@);
                    lemma_assoc_update(es, i as int, cm);
                }
                self.values.set(i, (copy_bytes(key), cell));
                proof {
                    assert(self.entry_seq() =~= es.update(i as int, (key@, cm)));
                    assert(es.update(i as int, (key@, cm)) == es.update(
                        i as int,
                        (es[i as int].0, cm),
                    ));
                }
            },
            None => {
                proof {
                    lemma_assoc_push(es, key@, cm);
                }
                self.values.push((copy_bytes(key), cell));
                proof {
                    assert(self.entry_seq() =~= es.push((key@, cm)));
                }
            },
        }
    }

    /// Stores every entry of `values`, first to last, later entries for the
    /// same key replacing earlier ones.
    pub fn add_all(&mut self, values: Vec<(Vec<u8>, DataContainer)>)
        requires
            old(self).wf(),
        ensures
            final(self).wf(),
            final(self)@ == merged(old(self)@, pairs_view(values@)),
    {
        let ghost target = merged(old(self)@, pairs_view(values@));
        let mut rest = values;
        while rest.len() > 0
            invariant
                self.wf(),
                target == merged(self@, pairs_view(rest@)),
            decreases rest@.len(),
        {
            let ghost pre = pairs_view(rest@);
            let (k, c) = rest.remove(0);
            proof {
                assert(pairs_view(rest@) =~= pre.drop_first());
                assert(pre[0] == (k@, c@));
            }
            self.put(&k, c);
        }
        proof {
            assert(pairs_view(rest@).len() == 0);
        }
    }

    /// Merges a loaded snapshot into the keyspace; its entries replace any
    /// stored ones with the same key.
    pub fn import_data(&mut self, rdb_file: RDBFile)
        requires
            old(self).wf(),
        ensures
            final(self).wf(),
            final(self)@ == merged(old(self)@, rdb_file@),
    {
        let ghost fv = rdb_file@;
        let RDBFile { data } = rdb_file;
        proof {
            assert(pairs_view(data@) == fv);
        }
        self.add_all(data);
    }

    /// The stored cells whose value has type `value_type`, in storage order.
    pub fn get_specific(&mut self, value_type: crate::parser::Type) -> (r: Vec<DataContainer>)
        ensures
            *final(self) == *old(self),
            Seq::new(r@.len(), |i: int| r@[i]@) == cells_of_type(old(self).entry_seq(), value_type),
    {
        let ghost es = self.entry_seq();
        let mut r: Vec<DataContainer> = Vec::new();
        let mut i: usize = 0;
        while i < self.values.len()
            invariant
                i <= self.values@.len(),
                *self == *old(self),
                es == self.entry_seq(),
                es.len() == self.values@.len(),
                Seq::new(r@.len(), |x: int| r@[x]@) == cells_of_type(es.take(i as int), value_type),
            decreases self.values@.len() - i,
        {
            let ghost pre = Seq::new(r@.len(), |x: int| r@[x]@);
            proof {
                assert(es.take(i + 1).drop_last() =~= es.take(i as int));
                assert(es.take(i + 1).last() == es[i as int]);
                assert(es[i as int].1 == self.values@[i as int].1@);
            }
            if self.values[i].1.value.get_type() == value_type {
                let c = DataContainer {
                    value: self.values[i].1.value.dup(),
                    expire: self.values[i].1.expire,
                };
                r.push(c);
                proof {
                    assert(Seq::new(r@.len(), |x: int| r@[x]@) =~= pre.push(es[i as int].1));
                }
            } else {
                proof {
                    assert(Seq::new(r@.len(), |x: int| r@[x]@) =~= pre);
                }
            }
            i += 1;
        }
        proof {
            assert(es.take(es.len() as int) =~= es);
        }
        r
    }

    /// Builds a keyspace from a snapshot: the records the buffer holds,
    /// those already dead at `now_ms` dropped, later records replacing
    /// earlier ones with the same key.
    pub fn load_from_rdb(file_name: &Vec<u8>, buffer: Vec<u8>, now_ms: u64) -> (r: Result<
        Storage,
        RdbError,
    >)
        ensures
            match r {
                Ok(st) => st.wf() && rdb_parse(file_name@, buffer@) is Ok && st@ == merged(
                    Map::empty(),
                    live_records(rdb_parse(file_name@, buffer@)->Ok_0, now_ms),
                ),
                Err(e) => rdb_parse(file_name@, buffer@) == Err::<
                    Seq<(Seq<u8>, CellModel)>,
                    RdbError,
                >(e),
            },
    {
        match RDBFile::from_bytes(file_name, buffer, now_ms) {
            Ok(f) => {
                let mut st = Storage::new();
                st.import_data(f);
                Ok(st)
            },
            Err(e) => Err(e),
        }
    }

    /// Hands the stored entries out, consuming the keyspace.
    pub fn get_all(self) -> (r: Vec<(Vec<u8>, DataContainer)>)
        ensures
            pairs_view(r@) == self.entry_seq(),
    {
        let Storage { values } = self;
        proof {
            assert(pairs_view(values@) =~= self.entry_seq());
        }
        values
    }
}

/// How a snapshot buffer fared against the basic shape checks.
pub enum RDBValidationResult {
    Valid,
    TooShort,
    MissingRedisMagicString,
}

/// Why a snapshot was rejected. Keys and values are kept as opaque byte
/// strings, so no text decoding can fail; a length byte outside the plain
/// one-byte form (above 253) is reported as a truncated record.
#[derive(PartialEq, Eq, Structural, Clone, Copy, Debug)]
pub enum RdbError {
    BadFileType,
    TooShort,
    MissingMagic,
    TruncatedRecord,
    UnknownValueType,
}

/// The ASCII magic `REDIS` that a snapshot must open with.
pub open spec fn rdb_magic() -> Seq<u8> {
    seq![82u8, 69u8, 68u8, 73u8, 83u8]
}

/// The ASCII suffix `.rdb` that a snapshot path must end with.
pub open spec fn rdb_suffix() -> Seq<u8> {
    seq![46u8, 114u8, 100u8, 98u8]
}

/// One length-prefixed string at `cur`: a length byte up to 253, then that
/// many payload bytes.
pub open spec fn rdb_string(b: Seq<u8>, cur: int) -> Result<(Seq<u8>, int), RdbError> {
    if !(0 <= cur < b.len()) {
        Err(RdbError::TruncatedRecord)
    } else {
        let l = b[cur] as int;
        if l > 253 {
            Err(RdbError::TruncatedRecord)
        } else if cur + 1 + l > b.len() {
            Err(RdbError::TruncatedRecord)
        } else {
            Ok((b.subrange(cur + 1, cur + 1 + l), cur + 1 + l))
        }
    }
}

/// The value-type byte, key and value of a record, after its optional
/// expiration prefix.
pub open spec fn rdb_record_tail(b: Seq<u8>, cur: int, expire: Option<u64>) -> Result<
    ((Seq<u8>, CellModel), int),
    RdbError,
> {
    if !(0 <= cur < b.len()) {
        Err(RdbError::TruncatedRecord)
    } else if b[cur] != 0x00 {
        Err(RdbError::UnknownValueType)
    } else {
        match rdb_string(b, cur + 1) {
            Err(e) => Err(e),
            Ok((key, cur2)) => match rdb_string(b, cur2) {
                Err(e) => Err(e),
                Ok((val, cur3)) => Ok(
                    ((key, CellModel { value: SpecValue::BulkString(val), expire }), cur3),
                ),
            },
        }
    }
}

/// One record at `cur`: an optional expiration prefix (`0xFD` seconds or
/// `0xFC` milliseconds, little endian), a value-type byte that must name a
/// string, then the key and the value.
pub open spec fn rdb_record(b: Seq<u8>, cur: int) -> Result<((Seq<u8>, CellModel), int), RdbError> {
    if !(0 <= cur < b.len()) {
        Err(RdbError::TruncatedRecord)
    } else if b[cur] == 0xFD {
        if cur + 5 > b.len() {
            Err(RdbError::TruncatedRecord)
        } else {
            let secs = vstd::bytes::spec_u32_from_le_bytes(b.subrange(cur + 1, cur + 5));
            rdb_record_tail(b, cur + 5, Some(((secs as int) * 1000) as u64))
        }
    } else if b[cur] == 0xFC {
        if cur + 9 > b.len() {
            Err(RdbError::TruncatedRecord)
        } else {
            let ms = vstd::bytes::spec_u64_from_le_bytes(b.subrange(cur + 1, cur + 9));
            rdb_record_tail(b, cur + 9, Some(ms))
        }
    } else {
        rdb_record_tail(b, cur, None)
    }
}

/// `n` consecutive records from `cur`, with the cursor after them.
pub open spec fn rdb_records(b: Seq<u8>, cur: int, n: int) -> Result<
    (Seq<(Seq<u8>, CellModel)>, int),
    RdbError,
>
    decreases n,
{
    if n <= 0 {
        Ok((Seq::empty(), cur))
    } else {
        match rdb_record(b, cur) {
            Err(e) => Err(e),
            Ok((rec, cur2)) => match rdb_records(b, cur2, n - 1) {
                Err(e) => Err(e),
                Ok((rest, cur3)) => Ok((seq![rec] + rest, cur3)),
            },
        }
    }
}

/// The records of the sections from `cur` on: unrecognized bytes are skipped
/// until a database section (`0xFB`), whose hash-table size byte gives the
/// record count and whose expire-table size byte is discarded; `0xFF` ends
/// the stream. Running off the end is a truncated record.
pub open spec fn rdb_body(b: Seq<u8>, cur: int) -> Result<Seq<(Seq<u8>, CellModel)>, RdbError>
    decreases b.len() - cur,
{
    if !(0 <= cur < b.len()) {
        Err(RdbError::TruncatedRecord)
    } else if b[cur] == 0xFF {
        Ok(Seq::empty())
    } else if b[cur] != 0xFB {
        rdb_body(b, cur + 1)
    } else if cur + 3 > b.len() {
        Err(RdbError::TruncatedRecord)
    } else {
        match rdb_records(b, cur + 3, b[cur + 1] as int) {
            Err(e) => Err(e),
            Ok((recs, cur2)) => if !(cur < cur2 <= b.len()) {
                Err(RdbError::TruncatedRecord)
            } else {
                match rdb_body(b, cur2) {
                    Err(e) => Err(e),
                    Ok(more) => Ok(recs + more),
                }
            },
        }
    }
}

/// The full meaning of a snapshot: the path must end in `.rdb`, the buffer
/// must be at least five bytes and open with `REDIS`, and the sections
/// follow.
pub open spec fn rdb_parse(name: Seq<u8>, b: Seq<u8>) -> Result<
    Seq<(Seq<u8>, CellModel)>,
    RdbError,
> {
    if !(name.len() >= 4 && name.skip(name.len() - 4) == rdb_suffix()) {
        Err(RdbError::BadFileType)
    } else if b.len() < 5 {
        Err(RdbError::TooShort)
    } else if b.take(5) != rdb_magic() {
        Err(RdbError::MissingMagic)
    } else {
        rdb_body(b, 5)
    }
}

/// The records whose cell is still alive at `now`, in order.
pub open spec fn live_records(rs: Seq<(Seq<u8>, CellModel)>, now: u64) -> Seq<(Seq<u8>, CellModel)>
    decreases rs.len(),
{
    if rs.len() == 0 {
        Seq::empty()
    } else {
        let rest = live_records(rs.drop_last(), now);
        if !cell_expired(rs.last().1, now) {
            rest.push(rs.last())
        } else {
            rest
        }
    }
}

/// A parsed snapshot: the key/cell pairs that were alive at load time.
pub struct RDBFile {
    data: Vec<(Vec<u8>, DataContainer)>,
}

impl View for RDBFile {
    type V = Seq<(Seq<u8>, CellModel)>;

    closed spec fn view(&self) -> Seq<(Seq<u8>, CellModel)> {
        pairs_view(self.data@)
    }
}

/// Splices already-collected records onto the outcome of the remaining body.
pub open spec fn rdb_ctx(
    prefix: Seq<(Seq<u8>, CellModel)>,
    rest: Result<Seq<(Seq<u8>, CellModel)>, RdbError>,
) -> Result<Seq<(Seq<u8>, CellModel)>, RdbError> {
    match rest {
        Ok(more) => Ok(prefix + more),
        Err(e) => Err(e),
    }
}

/// Reads one length-prefixed string.
fn parse_rdb_string(buffer: &Vec<u8>, cur: usize) -> (r: Result<(Vec<u8>, usize), RdbError>)
    ensures
        match r {
            Ok(p) => rdb_string(buffer@, cur as int) == Ok::<_, RdbError>((p.0@, p.1 as int))
                && cur < p.1 <= buffer@.len(),
            Err(e) => rdb_string(buffer@, cur as int) == Err::<(Seq<u8>, int), _>(e),
        },
{
    if cur >= buffer.len() {
        return Err(RdbError::TruncatedRecord);
    }
    let l = buffer[cur];
    if l > 253 {
        return Err(RdbError::TruncatedRecord);
    }
    if buffer.len() - cur - 1 < l as usize {
        return Err(RdbError::TruncatedRecord);
    }
    let s = vstd::slice::slice_to_vec(
        vstd::slice::slice_subrange(buffer.as_slice(), cur + 1, cur + 1 + l as usize),
    );
    Ok((s, cur + 1 + l as usize))
}

/// Reads one record: optional expiration prefix, value-type byte, key, value.
fn parse_rdb_record(buffer: &Vec<u8>, cur: usize) -> (r: Result<
    ((Vec<u8>, DataContainer), usize),
    RdbError,
>)
    ensures
        match r {
            Ok(p) => rdb_record(buffer@, cur as int) == Ok::<_, RdbError>(
                ((p.0.0@, p.0.1@), p.1 as int),
            ) && cur < p.1 <= buffer@.len(),
            Err(e) => rdb_record(buffer@, cur as int) == Err::<((Seq<u8>, CellModel), int), _>(e),
        },
{
    if cur >= buffer.len() {
        return Err(RdbError::TruncatedRecord);
    }
    let op = buffer[cur];
    let expire: Option<u64>;
    let cur1: usize;
    if op == 0xFD {
        if buffer.len() - cur < 5 {
            return Err(RdbError::TruncatedRecord);
        }
        let raw = vstd::slice::slice_subrange(buffer.as_slice(), cur + 1, cur + 5);
        let secs = vstd::bytes::u32_from_le_bytes(raw);
        expire = Some(secs as u64 * 1000);
        cur1 = cur + 5;
    } else if op == 0xFC {
        if buffer.len() - cur < 9 {
            return Err(RdbError::TruncatedRecord);
        }
        let raw = vstd::slice::slice_subrange(buffer.as_slice(), cur + 1, cur + 9);
        let ms = vstd::bytes::u64_from_le_bytes(raw);
        expire = Some(ms);
        cur1 = cur + 9;
    } else {
        expire = None;
        cur1 = cur;
    }
    if cur1 >= buffer.len() {
        return Err(RdbError::TruncatedRecord);
    }
    if buffer[cur1] != 0x00 {
        return Err(RdbError::UnknownValueType);
    }
    let key;
    let cur2: usize;
    match parse_rdb_string(buffer, cur1 + 1) {
        Ok(p) => {
            key = p.0;
            cur2 = p.1;
        },
        Err(e) => {
            return Err(e);
        },
    }
    match parse_rdb_string(buffer, cur2) {
        Ok(p) => {
            let val = p.0;
            let cur3 = p.1;
            Ok(((key, DataContainer::create(Value::BulkString(val), expire)), cur3))
        },
        Err(e) => Err(e),
    }
}

/// Reads `n` consecutive records starting at `rcur`, appending them to
/// `recs`; yields the cursor after the last record.
fn parse_rdb_records(buffer: &Vec<u8>, rcur: usize, n: u8, recs: &mut Vec<(Vec<u8>, DataContainer)>)
    -> (r: Result<usize, RdbError>)
    requires
        rcur <= buffer@.len(),
    ensures
        match r {
            Ok(cur2) => (match rdb_records(buffer@, rcur as int, n as int) {
                Ok((rs, c2)) => c2 == cur2 as int && pairs_view(final(recs)@) == pairs_view(
                    old(recs)@,
                ) + rs && rcur <= cur2 <= buffer@.len(),
                Err(_) => false,
            }),
            Err(e) => rdb_records(buffer@, rcur as int, n as int) == Err::<
                (Seq<(Seq<u8>, CellModel)>, int),
                _,
            >(e),
        },
{
    let ghost b = buffer@;
    let ghost base = pairs_view(old(recs)@);
    let mut cur: usize = rcur;
    let mut i: u8 = 0;
    proof {
        assert(rdb_records(b, rcur as int, n as int) == (match rdb_records(b, cur as int, n - i) {
            Ok((rs, c2)) => Ok::<_, RdbError>(((pairs_view(recs@).skip(base.len() as int)) + rs, c2)),
            Err(e) => Err(e),
        })) by {
            match rdb_records(b, cur as int, n - i) {
                Ok((rs, c2)) => {
                    assert(pairs_view(recs@).skip(base.len() as int) =~= Seq::<
                        (Seq<u8>, CellModel),
                    >::empty());
                    assert(Seq::<(Seq<u8>, CellModel)>::empty() + rs =~= rs);
                },
                Err(_) => {},
            }
        }
        assert(base =~= pairs_view(recs@).take(base.len() as int));
    }
    while i < n
        invariant
            b == buffer@,
            i <= n,
            rcur <= cur <= b.len(),
            base == pairs_view(recs@).take(base.len() as int),
            base.len() <= pairs_view(recs@).len(),
            rdb_records(b, rcur as int, n as int) == (match rdb_records(b, cur as int, n - i) {
                Ok((rs, c2)) => Ok::<_, RdbError>(
                    ((pairs_view(recs@).skip(base.len() as int)) + rs, c2),
                ),
                Err(e) => Err(e),
            }),
        decreases n - i,
    {
        match parse_rdb_record(buffer, cur) {
            Err(e) => {
                return Err(e);
            },
            Ok((pair, cur2)) => {
                let ghost pre = pairs_view(recs@);
                let ghost rec = (pair.0@, pair.1@);
                proof {
                    let inner = rdb_records(b, cur2 as int, n - i - 1);
                    assert(rdb_records(b, cur as int, n - i) == (match inner {
                        Err(e) => Err::<(Seq<(Seq<u8>, CellModel)>, int), _>(e),
                        Ok((rest, cur3)) => Ok((seq![rec] + rest, cur3)),
                    }));
                }
                recs.push(pair);
                proof {
                    assert(pairs_view(recs@) =~= pre.push(rec));
                    assert(pairs_view(recs@).take(base.len() as int) =~= base);
                    let inner = rdb_records(b, cur2 as int, n - i - 1);
                    match inner {
                        Ok((rest, cur3)) => {
                            assert(pre.skip(base.len() as int) + (seq![rec] + rest) =~= (
                            pairs_view(recs@).skip(base.len() as int)) + rest);
                        },
                        Err(_) => {},
                    }
                }
                cur = cur2;
                i += 1;
            },
        }
    }
    proof {
        assert(rdb_records(b, cur as int, 0) == Ok::<_, RdbError>(
            (Seq::<(Seq<u8>, CellModel)>::empty(), cur as int),
        ));
        assert(pairs_view(recs@).skip(base.len() as int) + Seq::<(Seq<u8>, CellModel)>::empty()
            =~= pairs_view(recs@).skip(base.len() as int));
        assert(base + pairs_view(recs@).skip(base.len() as int) =~= pairs_view(recs@));
    }
    Ok(cur)
}

impl RDBFile {
    /// Checks the buffer's basic shape: at least five bytes, opening with the
    /// ASCII magic `REDIS`.
    pub fn is_valid(buffer: &Vec<u8>) -> (r: RDBValidationResult)
        ensures
            match r {
                RDBValidationResult::TooShort => buffer@.len() < 5,
                RDBValidationResult::MissingRedisMagicString => buffer@.len() >= 5 && buffer@.take(
                    5,
                ) != rdb_magic(),
                RDBValidationResult::Valid => buffer@.len() >= 5 && buffer@.take(5) == rdb_magic(),
            },
    {
        if buffer.len() < 5 {
            return RDBValidationResult::TooShort;
        }
        if buffer[0] == 82 && buffer[1] == 69 && buffer[2] == 68 && buffer[3] == 73 && buffer[4]
            == 83 {
            proof {
                assert(buffer@.take(5) =~= rdb_magic());
            }
            RDBValidationResult::Valid
        } else {
            proof {
                if buffer@.take(5) =~= rdb_magic() {
                    assert(buffer@[0] == 82 && buffer@[1] == 69 && buffer@[2] == 68 && buffer@[3]
                        == 73 && buffer@[4] == 83);
                }
            }
            RDBValidationResult::MissingRedisMagicString
        }
    }

    /// Parses a snapshot: `file_name` must end in `.rdb` and `buffer` must be
    /// a well-formed snapshot; entries already dead at `now_ms` are dropped.
    pub fn from_bytes(file_name: &Vec<u8>, buffer: Vec<u8>, now_ms: u64) -> (r: Result<
        RDBFile,
        RdbError,
    >)
        ensures
            match r {
                Ok(f) => rdb_parse(file_name@, buffer@) is Ok && f@ == live_records(
                    rdb_parse(file_name@, buffer@)->Ok_0,
                    now_ms,
                ),
                Err(e) => rdb_parse(file_name@, buffer@) == Err::<
                    Seq<(Seq<u8>, CellModel)>,
                    RdbError,
                >(e),
            },
    {
        let ghost b = buffer@;
        if !(file_name.len() >= 4 && {
            let n = file_name.len();
            file_name[n - 4] == 46 && file_name[n - 3] == 114 && file_name[n - 2] == 100
                && file_name[n - 1] == 98
        }) {
            proof {
                if file_name@.len() >= 4 {
                    if file_name@.skip(file_name@.len() - 4) =~= rdb_suffix() {
                        assert(file_name@[file_name@.len() - 4] == 46 && file_name@[file_name@.len()
                            - 3] == 114 && file_name@[file_name@.len() - 2] == 100
                            && file_name@[file_name@.len() - 1] == 98);
                    }
                }
            }
            return Err(RdbError::BadFileType);
        }
        proof {
            assert(file_name@.skip(file_name@.len() - 4) =~= rdb_suffix());
        }
        match Self::is_valid(&buffer) {
            RDBValidationResult::TooShort => {
                return Err(RdbError::TooShort);
            },
            RDBValidationResult::MissingRedisMagicString => {
                return Err(RdbError::MissingMagic);
            },
            RDBValidationResult::Valid => {},
        }
        let mut recs: Vec<(Vec<u8>, DataContainer)> = Vec::new();
        let mut cur: usize = 5;
        proof {
            assert(rdb_ctx(pairs_view(recs@), rdb_body(b, 5)) == rdb_body(b, 5)) by {
                match rdb_body(b, 5) {
                    Ok(more) => {
                        assert(pairs_view(recs@) + more =~= more);
                    },
                    Err(_) => {},
                }
            }
        }
        loop
            invariant
                b == buffer@,
                5 <= cur <= b.len(),
                rdb_parse(file_name@, b) == rdb_body(b, 5),
                rdb_body(b, 5) == rdb_ctx(pairs_view(recs@), rdb_body(b, cur as int)),
            ensures
                rdb_body(b, 5) == Ok::<_, RdbError>(pairs_view(recs@)),
            decreases b.len() - cur,
        {
            if cur >= buffer.len() {
                return Err(RdbError::TruncatedRecord);
            }
            let op = buffer[cur];
            if op == 0xFF {
                proof {
                    assert(rdb_body(b, cur as int) == Ok::<_, RdbError>(
                        Seq::<(Seq<u8>, CellModel)>::empty(),
                    ));
                    assert(pairs_view(recs@) + Seq::<(Seq<u8>, CellModel)>::empty() =~= pairs_view(
                        recs@,
                    ));
                }
                break ;
            }
            if op != 0xFB {
                cur += 1;
            } else {
                if buffer.len() - cur < 3 {
                    return Err(RdbError::TruncatedRecord);
                }
                let n = buffer[cur + 1];
                let ghost pre = pairs_view(recs@);
                match parse_rdb_records(&buffer, cur + 3, n, &mut recs) {
                    Err(e) => {
                        return Err(e);
                    },
                    Ok(cur2) => {
                        proof {
                            match rdb_records(b, cur + 3, n as int) {
                                Ok((rs, c2)) => {
                                    match rdb_body(b, cur2 as int) {
                                        Ok(more) => {
                                            assert(pre + (rs + more) =~= (pre + rs) + more);
                                        },
                                        Err(_) => {},
                                    }
                                },
                                Err(_) => {},
                            }
                        }
                        cur = cur2;
                    },
                }
            }
        }
        let ghost all = pairs_view(recs@);
        let mut data: Vec<(Vec<u8>, DataContainer)> = Vec::new();
        let mut j: usize = 0;
        while j < recs.len()
            invariant
                j <= recs@.len(),
                all == pairs_view(recs@),
                pairs_view(data@) == live_records(all.take(j as int), now_ms),
            decreases recs@.len() - j,
        {
            let ghost pre = pairs_view(data@);
            proof {
                assert(all.take(j + 1).drop_last() =~= all.take(j as int));
                assert(all.take(j + 1).last() == all[j as int]);
            }
            if !recs[j].1.is_expired_at(now_ms) {
                let kcopy = copy_bytes(&recs[j].0);
                let ccopy = DataContainer {
                    value: recs[j].1.value.dup(),
                    expire: recs[j].1.expire,
                };
                data.push((kcopy, ccopy));
                proof {
                    assert(pairs_view(data@) =~= pre.push(all[j as int]));
                }
            } else {
                proof {
                    assert(pairs_view(data@) =~= pre);
                }
            }
            j += 1;
        }
        proof {
            assert(all.take(all.len() as int) =~= all);
        }
        Ok(RDBFile { data })
    }
}

/// The view of an optional value.
pub open spec fn opt_value_view(r: Option<Value>) -> Option<SpecValue> {
    match r {
        Some(v) => Some(v@),
        None => None,
    }
}

/// The behaviour of one lazy-expiry lookup of `key` at instant `now`,
/// relating the store before and after and the reported value.
pub open spec fn lookup_outcome(
    pre: Map<Seq<u8>, CellModel>,
    post: Map<Seq<u8>, CellModel>,
    key: Seq<u8>,
    now: u64,
    r: Option<SpecValue>,
) -> bool {
    match r {
        Some(v) => pre.contains_key(key) && !cell_expired(pre[key], now) && v == pre[key].value
            && post == pre,
        None => (!pre.contains_key(key) && post == pre) || (pre.contains_key(key) && cell_expired(
            pre[key],
            now,
        ) && post == pre.remove(key)),
    }
}

} // verus!
