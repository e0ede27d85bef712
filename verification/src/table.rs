//! A hash table that grows by linear hashing: one bucket is split at a time,
//! in order, so that no single insertion rehashes the whole table.

use crate::utf8::str_eq;
use crate::value::{Value, ValueView};
use vstd::arithmetic::div_mod::{
    lemma_fundamental_div_mod, lemma_fundamental_div_mod_converse, lemma_mod_bound,
};
use vstd::arithmetic::power2::{lemma2_to64, lemma_pow2_pos, lemma_pow2_unfold, pow2};
use vstd::bits::{lemma_usize_pow2_no_overflow, lemma_usize_shl_is_mul};
use vstd::prelude::*;
use vstd::utf8::encode_utf8;

verus! {

/// The number of entries that a bucket holds without asking for growth.
pub const OVERFLOW_SIZE: usize = 1;

/// The offset basis of the 64-bit FNV-1a hash.
pub const FNV_OFFSET_BASIS: u64 = 14695981039346656037;

/// The prime of the 64-bit FNV-1a hash.
pub const FNV_PRIME: u64 = 1099511628211;

/// The 64-bit FNV-1a hash of a byte string: for each byte in turn, the hash is
/// combined with the byte by exclusive or, then multiplied by the prime,
/// modulo 2^64.
pub open spec fn fnv1a(bytes: Seq<u8>) -> u64
    decreases bytes.len(),
{
    if bytes.len() == 0 {
        FNV_OFFSET_BASIS
    } else {
        (fnv1a(bytes.drop_last()) ^ (bytes.last() as u64)).wrapping_mul(FNV_PRIME)
    }
}

/// The bucket that a key hashes to among `2^level` buckets.
pub open spec fn spec_hash(key: Seq<char>, level: nat) -> nat {
    (fnv1a(encode_utf8(key)) as nat) % pow2(level)
}

/// The bucket of a key in a table of the given level and split cursor: the
/// hash at `level`, or, where that bucket has been split in this round, the
/// hash at `level + 1`.
pub open spec fn spec_locate(key: Seq<char>, level: nat, cursor: nat) -> nat {
    let index = spec_hash(key, level);
    if index < cursor {
        spec_hash(key, level + 1)
    } else {
        index
    }
}

/// The entries of a bucket: keys with their values, in the order of insertion.
pub type Chain = Seq<(Seq<char>, ValueView)>;

/// The value that a bucket holds for a key: that of the first entry with
/// that key.
pub open spec fn spec_lookup(chain: Chain, key: Seq<char>) -> Option<ValueView>
    decreases chain.len(),
{
    if chain.len() == 0 {
        None
    } else {
        match spec_lookup(chain.drop_last(), key) {
            Some(v) => Some(v),
            None => if chain.last().0 == key {
                Some(chain.last().1)
            } else {
                None
            },
        }
    }
}

/// No two entries of the bucket have the same key.
pub open spec fn distinct_keys(chain: Chain) -> bool {
    forall|i: int, j: int|
        0 <= i < j < chain.len() ==> (#[trigger] chain[i]).0 != (#[trigger] chain[j]).0
}

/// The map that a sequence of buckets stands for under linear hashing.
pub open spec fn table_map(buckets: Seq<Chain>, level: nat, cursor: nat) -> Map<
    Seq<char>,
    ValueView,
> {
    Map::new(
        |k: Seq<char>| spec_lookup(buckets[spec_locate(k, level, cursor) as int], k) is Some,
        |k: Seq<char>| spec_lookup(buckets[spec_locate(k, level, cursor) as int], k)->Some_0,
    )
}

/// What holds of the buckets, the level and the split cursor of every table:
/// there are `2^level + cursor` buckets, the cursor lies within the level,
/// the hashes in use fit in a machine word, every entry is in the bucket of
/// its key, and no bucket holds a key twice.
pub open spec fn well_formed(buckets: Seq<Chain>, level: nat, cursor: nat) -> bool {
    &&& level < usize::BITS
    &&& cursor < pow2(level)
    &&& (cursor > 0 ==> level + 1 < usize::BITS)
    &&& buckets.len() == pow2(level) + cursor
    &&& forall|i: int, j: int|
        0 <= i < buckets.len() && 0 <= j < buckets[i].len() ==> spec_locate(
            (#[trigger] buckets[i][j]).0,
            level,
            cursor,
        ) == i
    &&& forall|i: int| 0 <= i < buckets.len() ==> distinct_keys(#[trigger] buckets[i])
}

/// The hash at the next level is the hash at this level, or that plus the
/// number of buckets of this level.
pub proof fn lemma_hash_next_level(key: Seq<char>, level: nat)
    ensures
        spec_hash(key, level) < pow2(level),
        spec_hash(key, level + 1) == spec_hash(key, level) || spec_hash(key, level + 1)
            == spec_hash(key, level) + pow2(level),
{
    let h = fnv1a(encode_utf8(key)) as int;
    let m = pow2(level) as int;
    lemma_pow2_pos(level);
    lemma_pow2_unfold(level + 1);
    assert(pow2(level + 1) == 2 * m);
    let q = h / (2 * m);
    let r = h % (2 * m);
    lemma_fundamental_div_mod(h, 2 * m);
    lemma_mod_bound(h, 2 * m);
    lemma_mod_bound(h, m);
    if r < m {
        assert((2 * m) * q == (2 * q) * m) by (nonlinear_arith);
        lemma_fundamental_div_mod_converse(h, m, 2 * q, r);
    } else {
        assert((2 * m) * q + r == (2 * q + 1) * m + (r - m)) by (nonlinear_arith);
        lemma_fundamental_div_mod_converse(h, m, 2 * q + 1, r - m);
    }
}

/// Computes the FNV-1a hash of the key's bytes, reduced to `level` bits.
pub fn hash(key: &str, level: usize) -> (r: usize)
    requires
        level < usize::BITS,
    ensures
        r == spec_hash(key@, level as nat),
{
    let bytes = key.as_bytes();
    let mut h: u64 = FNV_OFFSET_BASIS;
    let mut i: usize = 0;
    assert(bytes@.take(0) =~= Seq::<u8>::empty());
    while i < bytes.len()
        invariant
            0 <= i <= bytes.len(),
            h == fnv1a(bytes@.take(i as int)),
        decreases bytes.len() - i,
    {
        proof {
            let t = bytes@.take(i + 1);
            assert(t.drop_last() =~= bytes@.take(i as int));
            assert(t.last() == bytes@[i as int]);
        }
        h = (h ^ (bytes[i] as u64)).wrapping_mul(FNV_PRIME);
        i = i + 1;
    }
    proof {
        assert(bytes@.take(bytes@.len() as int) =~= bytes@);
        lemma_usize_pow2_no_overflow(level as nat);
        lemma_usize_shl_is_mul(1usize, level);
    }
    let modulus: usize = 1usize << level;
    (h % (modulus as u64)) as usize
}

/// Computes the bucket of a key in a table of the given level and cursor.
pub fn locate(key: &str, level: usize, cursor: usize) -> (r: usize)
    requires
        level < usize::BITS,
        cursor > 0 ==> level + 1 < usize::BITS,
    ensures
        r == spec_locate(key@, level as nat, cursor as nat),
{
    let index = hash(key, level);
    // A lower index has been split in this round, so the hash of the next
    // level gives the bucket, which may be the same one.
    if index < cursor {
        hash(key, level + 1)
    } else {
        index
    }
}

/// A key with its value.
#[derive(Debug, PartialEq)]
struct Entry {
    key: String,
    value: Value,
}

impl Entry {
    fn copy(&self) -> (r: Self)
        ensures
            r.key@ == self.key@,
            r.value@ == self.value@,
    {
        Entry { key: self.key.clone(), value: self.value.clone() }
    }
}

/// The entries whose keys hash to one index, chained in a growable sequence.
#[derive(Debug, PartialEq)]
struct Bucket {
    entries: Vec<Entry>,
}

impl Bucket {
    fn new() -> (r: Self)
        ensures
            r.entries@.len() == 0,
    {
        Self { entries: Vec::new() }
    }

    fn copy(&self) -> (r: Self)
        ensures
            chain_of(r.entries@) == chain_of(self.entries@),
    {
        let mut entries: Vec<Entry> = Vec::new();
        let mut j: usize = 0;
        while j < self.entries.len()
            invariant
                0 <= j <= self.entries.len(),
                entries@.len() == j,
                forall|e: int|
                    0 <= e < j ==> (#[trigger] entries@[e]).key@ == self.entries@[e].key@
                        && entries@[e].value@ == self.entries@[e].value@,
            decreases self.entries.len() - j,
        {
            entries.push(self.entries[j].copy());
            j = j + 1;
        }
        assert(chain_of(entries@) =~= chain_of(self.entries@));
        Bucket { entries }
    }
}

/// An in-memory hash table that grows by linear hashing. It owns all of its
/// contents.
#[derive(Debug, PartialEq)]
pub struct Table {
    data: Vec<Bucket>,
    current_level: usize,
    next: usize,
}

/// The keys and values of a sequence of entries.
spec fn chain_of(entries: Seq<Entry>) -> Chain {
    Seq::new(entries.len(), |j: int| (entries[j].key@, entries[j].value@))
}

/// The chains of a sequence of buckets.
spec fn chains(data: Seq<Bucket>) -> Seq<Chain> {
    Seq::new(data.len(), |i: int| chain_of(data[i].entries@))
}

/// The entries of `chain` whose keys hash to `target` at `level`, in order.
pub open spec fn select(chain: Chain, level: nat, target: nat) -> Chain
    decreases chain.len(),
{
    if chain.len() == 0 {
        Seq::empty()
    } else if spec_hash(chain.last().0, level) == target {
        select(chain.drop_last(), level, target).push(chain.last())
    } else {
        select(chain.drop_last(), level, target)
    }
}

/// A bucket without the key holds nothing for it.
pub proof fn lemma_lookup_none(chain: Chain, key: Seq<char>)
    requires
        forall|i: int| 0 <= i < chain.len() ==> (#[trigger] chain[i]).0 != key,
    ensures
        spec_lookup(chain, key) is None,
    decreases chain.len(),
{
    if chain.len() > 0 {
        lemma_lookup_none(chain.drop_last(), key);
    }
}

/// A bucket holds for a key the value of the first entry with that key.
pub proof fn lemma_lookup_first(chain: Chain, key: Seq<char>, at: int)
    requires
        0 <= at < chain.len(),
        chain[at].0 == key,
        forall|i: int| 0 <= i < at ==> (#[trigger] chain[i]).0 != key,
    ensures
        spec_lookup(chain, key) == Some(chain[at].1),
    decreases chain.len(),
{
    let front = chain.drop_last();
    if at == chain.len() - 1 {
        lemma_lookup_none(front, key);
    } else {
        lemma_lookup_first(front, key, at);
    }
}

/// What a bucket holds for a key is the value of one of its entries.
pub proof fn lemma_lookup_some(chain: Chain, key: Seq<char>)
    requires
        spec_lookup(chain, key) is Some,
    ensures
        exists|i: int|
            0 <= i < chain.len() && #[trigger] chain[i] == (key, spec_lookup(chain, key)->Some_0),
    decreases chain.len(),
{
    if chain.len() > 0 {
        let front = chain.drop_last();
        if spec_lookup(front, key) is Some {
            lemma_lookup_some(front, key);
            let found = spec_lookup(front, key)->Some_0;
            let i = choose|i: int| 0 <= i < front.len() && #[trigger] front[i] == (key, found);
            assert(chain[i] == front[i]);
        } else {
            assert(chain[chain.len() - 1] == (key, spec_lookup(chain, key)->Some_0));
        }
    }
}

/// Replacing the value of an entry leaves what the bucket holds for other
/// keys.
pub proof fn lemma_lookup_update_other(chain: Chain, at: int, value: ValueView, key: Seq<char>)
    requires
        0 <= at < chain.len(),
        chain[at].0 != key,
    ensures
        spec_lookup(chain.update(at, (chain[at].0, value)), key) == spec_lookup(chain, key),
    decreases chain.len(),
{
    let changed = chain.update(at, (chain[at].0, value));
    if at == chain.len() - 1 {
        assert(changed.drop_last() =~= chain.drop_last());
    } else {
        assert(changed.drop_last() =~= chain.drop_last().update(at, (chain[at].0, value)));
        lemma_lookup_update_other(chain.drop_last(), at, value, key);
    }
}

/// `select` goes through the chain entry by entry.
pub proof fn lemma_select_step(chain: Chain, done: int, level: nat, target: nat)
    requires
        0 <= done < chain.len(),
    ensures
        select(chain.take(done + 1), level, target) == if spec_hash(chain[done].0, level)
            == target {
            select(chain.take(done), level, target).push(chain[done])
        } else {
            select(chain.take(done), level, target)
        },
{
    let t = chain.take(done + 1);
    assert(t.drop_last() =~= chain.take(done));
    assert(t.last() == chain[done]);
}

/// What `select` keeps: entries of the chain that hash to the target, with
/// distinct keys where the chain had distinct keys, and with the same value
/// for each key that hashes to the target.
pub proof fn lemma_select(chain: Chain, level: nat, target: nat)
    ensures
        forall|j: int|
            0 <= j < select(chain, level, target).len() ==> spec_hash(
                (#[trigger] select(chain, level, target)[j]).0,
                level,
            ) == target && chain.contains(select(chain, level, target)[j]),
        distinct_keys(chain) ==> distinct_keys(select(chain, level, target)),
        forall|key: Seq<char>|
            spec_hash(key, level) == target ==> #[trigger] spec_lookup(
                select(chain, level, target),
                key,
            ) == spec_lookup(chain, key),
    decreases chain.len(),
{
    let kept = select(chain, level, target);
    if chain.len() > 0 {
        let front = chain.drop_last();
        let last = chain.last();
        let kept_front = select(front, level, target);
        lemma_select(front, level, target);
        assert forall|j: int| 0 <= j < kept.len() implies spec_hash((#[trigger] kept[j]).0, level)
            == target && chain.contains(kept[j]) by {
            if j < kept_front.len() {
                assert(kept[j] == kept_front[j]);
                let i = choose|i: int| 0 <= i < front.len() && front[i] == kept_front[j];
                assert(chain[i] == kept[j]);
            } else {
                assert(chain[chain.len() - 1] == kept[j]);
            }
        }
        if distinct_keys(chain) {
            assert(distinct_keys(front)) by {
                assert forall|i: int, j: int| 0 <= i < j < front.len() implies (
                #[trigger] front[i]).0 != (#[trigger] front[j]).0 by {
                    assert(front[i] == chain[i] && front[j] == chain[j]);
                }
            }
            assert forall|i: int, j: int| 0 <= i < j < kept.len() implies (
            #[trigger] kept[i]).0 != (#[trigger] kept[j]).0 by {
                if j < kept_front.len() {
                    assert(kept[i] == kept_front[i] && kept[j] == kept_front[j]);
                } else {
                    assert(kept[i] == kept_front[i]);
                    let at = choose|at: int| 0 <= at < front.len() && front[at] == kept_front[i];
                    assert(chain[at] == front[at]);
                    assert(chain[chain.len() - 1] == kept[j]);
                }
            }
        }
        assert forall|key: Seq<char>| spec_hash(key, level) == target implies (
        #[trigger] spec_lookup(kept, key)) == spec_lookup(chain, key) by {
            if spec_hash(last.0, level) == target {
                assert(kept.drop_last() =~= kept_front);
                assert(kept.last() == last);
            }
        }
    }
}

/// A key that is found in the bucket under the cursor hashes to that bucket
/// at this level, and the other keys are found elsewhere.
pub proof fn lemma_locate_at_cursor(key: Seq<char>, level: nat, cursor: nat)
    requires
        cursor < pow2(level),
    ensures
        spec_locate(key, level, cursor) == cursor <==> spec_hash(key, level) == cursor,
        spec_locate(key, level, cursor) < pow2(level) + cursor,
{
    lemma_hash_next_level(key, level);
}

/// A finished round at one level is the start of the next level.
pub proof fn lemma_locate_rollover(key: Seq<char>, level: nat)
    ensures
        spec_locate(key, level, pow2(level)) == spec_locate(key, level + 1, 0),
{
    lemma_hash_next_level(key, level);
}

impl Clone for Table {
    /// A table with the same buckets, entry by entry, at the same level and
    /// cursor.
    fn clone(&self) -> (r: Self)
        ensures
            r.buckets() == self.buckets(),
            r.level() == self.level(),
            r.split_cursor() == self.split_cursor(),
            r@ == self@,
            r.wf() == self.wf(),
    {
        let mut data: Vec<Bucket> = Vec::new();
        let mut i: usize = 0;
        while i < self.data.len()
            invariant
                0 <= i <= self.data.len(),
                data@.len() == i,
                forall|b: int|
                    0 <= b < i ==> chain_of((#[trigger] data@[b]).entries@) == chain_of(
                        self.data@[b].entries@,
                    ),
            decreases self.data.len() - i,
        {
            data.push(self.data[i].copy());
            i = i + 1;
        }
        let r = Table { data, current_level: self.current_level, next: self.next };
        assert(r.buckets() =~= self.buckets());
        r
    }
}

impl View for Table {
    type V = Map<Seq<char>, ValueView>;

    /// The keys of the table with their values.
    open spec fn view(&self) -> Map<Seq<char>, ValueView> {
        table_map(self.buckets(), self.level(), self.split_cursor())
    }
}

impl Table {
    /// The level of the table: it has at least `2^level` buckets.
    pub closed spec fn level(&self) -> nat {
        self.current_level as nat
    }

    /// The index of the next bucket to split.
    pub closed spec fn split_cursor(&self) -> nat {
        self.next as nat
    }

    /// The buckets of the table, each with its entries in order.
    pub closed spec fn buckets(&self) -> Seq<Chain> {
        chains(self.data@)
    }

    /// The bucket in which the table keeps a key.
    pub open spec fn locate(&self, key: Seq<char>) -> nat {
        spec_locate(key, self.level(), self.split_cursor())
    }

    /// The invariant of the table: see [`well_formed`].
    pub open spec fn wf(&self) -> bool {
        well_formed(self.buckets(), self.level(), self.split_cursor())
    }

    /// The table can take one more bucket: the hash of the next level still
    /// fits in a machine word.
    pub open spec fn can_grow(&self) -> bool {
        self.level() + 1 < usize::BITS
    }

    /// An empty table: one bucket, level 0, cursor 0.
    pub fn new() -> (r: Self)
        ensures
            r.wf(),
            r.can_grow(),
            r@ == Map::<Seq<char>, ValueView>::empty(),
            r.level() == 0,
            r.split_cursor() == 0,
            r.buckets().len() == 1,
    {
        let mut data: Vec<Bucket> = Vec::new();
        data.push(Bucket::new());
        let r = Self { data, current_level: 0, next: 0 };
        proof {
            lemma2_to64();
            assert(r.buckets()[0].len() == 0);
            assert forall|k: Seq<char>| !(#[trigger] r@.contains_key(k)) by {
                lemma_locate_at_cursor(k, 0, 0);
            }
            assert(r@ =~= Map::<Seq<char>, ValueView>::empty());
        }
        r
    }

    /// Tells whether the table can take one more bucket.
    pub fn has_room(&self) -> (r: bool)
        ensures
            r == self.can_grow(),
    {
        self.current_level < (usize::BITS - 1) as usize
    }

    /// The number of buckets.
    pub fn bucket_count(&self) -> (r: usize)
        ensures
            r == self.buckets().len(),
    {
        self.data.len()
    }

    /// The bucket of `key`.
    fn index(&self, key: &str) -> (r: usize)
        requires
            self.wf(),
        ensures
            r == self.locate(key@),
            r < self.buckets().len(),
    {
        proof {
            lemma_locate_at_cursor(key@, self.level(), self.split_cursor());
        }
        locate(key, self.current_level, self.next)
    }

    /// The value stored for `key`, if there is one.
    pub fn get(&self, key: &str) -> (r: Option<Value>)
        requires
            self.wf(),
        ensures
            match r {
                Some(v) => self@.contains_key(key@) && self@[key@] == v@,
                None => !self@.contains_key(key@),
            },
    {
        let index = self.index(key);
        let bucket = &self.data[index];
        let ghost chain = self.buckets()[index as int];
        let mut j: usize = 0;
        while j < bucket.entries.len()
            invariant
                0 <= j <= bucket.entries.len(),
                chain == chain_of(bucket.entries@),
                forall|i: int| 0 <= i < j ==> (#[trigger] chain[i]).0 != key@,
            ensures
                j < bucket.entries.len() ==> chain[j as int].0 == key@,
            decreases bucket.entries.len() - j,
        {
            if str_eq(bucket.entries[j].key.as_str(), key) {
                break;
            }
            j = j + 1;
        }
        if j < bucket.entries.len() {
            proof {
                lemma_lookup_first(chain, key@, j as int);
            }
            Some(bucket.entries[j].value.clone())
        } else {
            proof {
                lemma_lookup_none(chain, key@);
            }
            None
        }
    }

    /// Splits the bucket under the cursor: appends one empty bucket, sends
    /// each entry of the split bucket to the bucket of its key at the next
    /// level, which is the old bucket or the new one, and moves the cursor
    /// on. When the cursor has passed every bucket of the level, the level
    /// rises and the cursor starts again.
    pub fn split(&mut self)
        requires
            old(self).wf(),
            old(self).can_grow(),
        ensures
            final(self).wf(),
            final(self)@ == old(self)@,
            final(self).buckets().len() == old(self).buckets().len() + 1,
            old(self).split_cursor() + 1 < pow2(old(self).level()) ==> final(self).level() == old(
                self,
            ).level() && final(self).split_cursor() == old(self).split_cursor() + 1,
            old(self).split_cursor() + 1 == pow2(old(self).level()) ==> final(self).level() == old(
                self,
            ).level() + 1 && final(self).split_cursor() == 0,
    {
        let ghost before = *self;
        let ghost level = self.level();
        let ghost cursor = self.split_cursor();
        let ghost count = self.buckets().len();
        let ghost moved = self.buckets()[cursor as int];
        self.data.push(Bucket::new());
        let mut old_entries: Vec<Entry> = Vec::new();
        core::mem::swap(&mut self.data[self.next].entries, &mut old_entries);
        proof {
            lemma_hash_next_level(seq![], level);
            assert(chain_of(old_entries@) =~= moved);
            assert(moved.take(0) =~= Seq::<(Seq<char>, ValueView)>::empty());
            assert(chain_of(self.data@[cursor as int].entries@) =~= select(
                moved.take(0),
                level + 1,
                cursor,
            ));
            assert(chain_of(self.data@[count as int].entries@) =~= select(
                moved.take(0),
                level + 1,
                count,
            ));
        }
        proof {
            assert forall|i: int| 0 <= i < moved.len() implies spec_hash(
                (#[trigger] moved[i]).0,
                level,
            ) == cursor by {
                assert(before.buckets()[cursor as int][i] == moved[i]);
                lemma_locate_at_cursor(moved[i].0, level, cursor);
            }
        }
        let ghost source = old_entries@;
        let ghost low = Seq::<(Seq<char>, ValueView)>::empty();
        let ghost high = Seq::<(Seq<char>, ValueView)>::empty();
        for entry in it: old_entries
            invariant
                level + 1 < usize::BITS,
                count == pow2(level) + cursor,
                count == before.data@.len(),
                it.seq() == source,
                moved == chain_of(source),
                forall|i: int|
                    0 <= i < moved.len() ==> spec_hash((#[trigger] moved[i]).0, level) == cursor,
                self.current_level == level,
                self.next == cursor,
                self.data@.len() == count + 1,
                forall|i: int|
                    0 <= i < count && i != cursor ==> #[trigger] self.data@[i] == before.data@[i],
                chain_of(self.data@[cursor as int].entries@) == low,
                chain_of(self.data@[count as int].entries@) == high,
                low == select(moved.take(it.index()), level + 1, cursor),
                high == select(moved.take(it.index()), level + 1, count),
        {
            let ghost at = it.index();
            let ghost pair = (entry.key@, entry.value@);
            proof {
                assert(moved[at] == pair);
                assert(spec_hash(moved[at].0, level) == cursor);
                lemma_hash_next_level(entry.key@, level);
                lemma_select_step(moved, at, level + 1, cursor);
                lemma_select_step(moved, at, level + 1, count);
            }
            let index = hash(entry.key.as_str(), self.current_level + 1);
            self.push_entry(index, entry);
            proof {
                if index == cursor {
                    low = low.push(pair);
                } else {
                    high = high.push(pair);
                }
            }
        }
        proof {
            assert(moved.take(moved.len() as int) =~= moved);
            lemma_usize_pow2_no_overflow(level);
            lemma_usize_shl_is_mul(1usize, self.current_level);
        }
        self.next = self.next + 1;
        if self.next >= (1usize << self.current_level) {
            self.current_level = self.current_level + 1;
            self.next = 0;
        }
        proof {
            Self::lemma_split_done(before, *self);
        }
    }

    /// Appends an entry to a bucket.
    fn push_entry(&mut self, index: usize, entry: Entry)
        requires
            index < old(self).data@.len(),
        ensures
            final(self).current_level == old(self).current_level,
            final(self).next == old(self).next,
            final(self).data@.len() == old(self).data@.len(),
            forall|i: int|
                0 <= i < old(self).data@.len() && i != index ==> #[trigger] final(self).data@[i]
                    == old(self).data@[i],
            chain_of(final(self).data@[index as int].entries@) == chain_of(
                old(self).data@[index as int].entries@,
            ).push((entry.key@, entry.value@)),
    {
        let ghost pair = (entry.key@, entry.value@);
        let ghost chain = chain_of(self.data@[index as int].entries@);
        self.data[index].entries.push(entry);
        assert(chain_of(self.data@[index as int].entries@) =~= chain.push(pair));
    }

    /// The state after a split satisfies the invariant and holds what the
    /// table held before.
    proof fn lemma_split_done(before: Table, after: Table)
        requires
            before.wf(),
            before.can_grow(),
            after.data@.len() == before.data@.len() + 1,
            forall|i: int|
                0 <= i < before.data@.len() && i != before.next ==> #[trigger] after.data@[i]
                    == before.data@[i],
            chain_of(after.data@[before.next as int].entries@) == select(
                before.buckets()[before.next as int],
                before.level() + 1,
                before.split_cursor(),
            ),
            chain_of(after.data@[before.data@.len() as int].entries@) == select(
                before.buckets()[before.next as int],
                before.level() + 1,
                before.buckets().len(),
            ),
            before.next + 1 < pow2(before.level()) ==> after.current_level == before.current_level
                && after.next == before.next + 1,
            before.next + 1 == pow2(before.level()) ==> after.current_level == before.current_level
                + 1 && after.next == 0,
        ensures
            after.wf(),
            after@ == before@,
    {
        let level = before.level();
        let cursor = before.split_cursor();
        let count = before.buckets().len();
        let moved = before.buckets()[cursor as int];
        let old_chains = before.buckets();
        let new_chains = after.buckets();
        lemma_pow2_pos(level);
        lemma_pow2_unfold(level + 1);
        lemma_select(moved, level + 1, cursor);
        lemma_select(moved, level + 1, count);
        assert(new_chains[cursor as int] == select(moved, level + 1, cursor));
        assert(new_chains[count as int] == select(moved, level + 1, count));
        assert forall|i: int| 0 <= i < count && i != cursor implies #[trigger] new_chains[i]
            == old_chains[i] by {
            assert(after.data@[i] == before.data@[i]);
        }
        // where a key is kept after the split, in terms of where it was
        assert forall|key: Seq<char>|
            #[trigger] spec_locate(key, after.level(), after.split_cursor()) == (if spec_hash(
                key,
                level,
            ) == cursor {
                spec_hash(key, level + 1)
            } else {
                spec_locate(key, level, cursor)
            }) by {
            lemma_hash_next_level(key, level);
            if cursor + 1 == pow2(level) {
                lemma_locate_rollover(key, level);
            }
        }
        assert forall|i: int, j: int|
            0 <= i < new_chains.len() && 0 <= j < new_chains[i].len() implies spec_locate(
            (#[trigger] new_chains[i][j]).0,
            after.level(),
            after.split_cursor(),
        ) == i by {
            let key = new_chains[i][j].0;
            lemma_hash_next_level(key, level);
            lemma_locate_at_cursor(key, level, cursor);
            if i == cursor || i == count {
                let at = choose|at: int| 0 <= at < moved.len() && moved[at] == new_chains[i][j];
                assert(old_chains[cursor as int][at].0 == key);
            } else {
                assert(old_chains[i][j].0 == key);
            }
        }
        assert forall|i: int| 0 <= i < new_chains.len() implies distinct_keys(
            #[trigger] new_chains[i],
        ) by {
            if i != cursor && i != count {
                assert(distinct_keys(old_chains[i]));
            } else {
                assert(distinct_keys(old_chains[cursor as int]));
            }
        }
        assert forall|key: Seq<char>|
            spec_lookup(
                new_chains[spec_locate(key, after.level(), after.split_cursor()) as int],
                key,
            ) == spec_lookup(
                #[trigger] old_chains[spec_locate(key, level, cursor) as int],
                key,
            ) by {
            lemma_hash_next_level(key, level);
            lemma_locate_at_cursor(key, level, cursor);
        }
        assert(after@ =~= before@);
    }

    /// Stores `value` under `key`. Where the key is present, its value is
    /// replaced in place and the table keeps its shape. Otherwise an entry is
    /// appended to the key's bucket, and where that bucket then holds more
    /// than `OVERFLOW_SIZE` entries, the bucket under the cursor is split.
    /// A new key needs a table that can still grow.
    pub fn set(&mut self, key: String, value: Value)
        requires
            old(self).wf(),
            old(self).can_grow() || old(self)@.contains_key(key@),
        ensures
            final(self).wf(),
            final(self)@ == old(self)@.insert(key@, value@),
            final(self).buckets().len() == old(self).buckets().len() + (if !old(
                self,
            )@.contains_key(key@) && old(self).buckets()[old(self).locate(key@) as int].len()
                >= OVERFLOW_SIZE {
                1nat
            } else {
                0nat
            }),
            final(self).buckets().len() == old(self).buckets().len() ==> final(self).level()
                == old(self).level() && final(self).split_cursor() == old(self).split_cursor(),
    {
        let ghost before = *self;
        let index = self.index(key.as_str());
        let ghost chain = self.buckets()[index as int];
        let count = self.data[index].entries.len();
        let mut j: usize = 0;
        while j < count
            invariant
                0 <= j <= count,
                index < self.data@.len(),
                count == self.data@[index as int].entries@.len(),
                chain == chain_of(self.data@[index as int].entries@),
                forall|i: int| 0 <= i < j ==> (#[trigger] chain[i]).0 != key@,
            ensures
                j < count ==> chain[j as int].0 == key@,
            decreases count - j,
        {
            if str_eq(self.data[index].entries[j].key.as_str(), key.as_str()) {
                break;
            }
            j = j + 1;
        }
        if j < count {
            proof {
                lemma_lookup_first(chain, key@, j as int);
            }
            self.data[index].entries[j].value = value;
            proof {
                assert(chain_of(self.data@[index as int].entries@) =~= chain.update(
                    j as int,
                    (key@, value@),
                ));
                Self::lemma_overwrite_done(before, *self, j as int, key@, value@);
            }
        } else {
            proof {
                lemma_lookup_none(chain, key@);
            }
            self.push_entry(index, Entry { key, value });
            proof {
                Self::lemma_append_done(before, *self, key@, value@);
            }
            if self.data[index].entries.len() > OVERFLOW_SIZE {
                self.split();
            }
        }
    }

    /// Replacing the value of the first entry with a key stores the value
    /// under that key and keeps the invariant.
    proof fn lemma_overwrite_done(
        before: Table,
        after: Table,
        at: int,
        key: Seq<char>,
        value: ValueView,
    )
        requires
            before.wf(),
            after.current_level == before.current_level,
            after.next == before.next,
            after.data@.len() == before.data@.len(),
            forall|i: int|
                0 <= i < before.data@.len() && i != before.locate(key) ==> #[trigger] after.data@[i]
                    == before.data@[i],
            0 <= at < before.buckets()[before.locate(key) as int].len(),
            before.buckets()[before.locate(key) as int][at].0 == key,
            forall|i: int|
                0 <= i < at ==> (#[trigger] before.buckets()[before.locate(key) as int][i]).0
                    != key,
            after.buckets()[before.locate(key) as int] == before.buckets()[before.locate(
                key,
            ) as int].update(at, (key, value)),
        ensures
            after.wf(),
            after@ == before@.insert(key, value),
            before@.contains_key(key),
    {
        let index = before.locate(key) as int;
        let old_chain = before.buckets()[index];
        let new_chain = after.buckets()[index];
        lemma_locate_at_cursor(key, before.level(), before.split_cursor());
        lemma_lookup_first(old_chain, key, at);
        lemma_lookup_first(new_chain, key, at);
        assert forall|i: int| 0 <= i < before.data@.len() && i != index implies (
        #[trigger] after.buckets()[i]) == before.buckets()[i] by {
            assert(after.data@[i] == before.data@[i]);
        }
        assert forall|i: int, j: int|
            0 <= i < after.buckets().len() && 0 <= j < after.buckets()[i].len() implies spec_locate(
            (#[trigger] after.buckets()[i][j]).0,
            after.level(),
            after.split_cursor(),
        ) == i by {
            assert(before.buckets()[i][j].0 == after.buckets()[i][j].0);
        }
        assert forall|i: int| 0 <= i < after.buckets().len() implies distinct_keys(
            #[trigger] after.buckets()[i],
        ) by {
            assert(distinct_keys(before.buckets()[i]));
            if i == index {
                assert forall|a: int, b: int| 0 <= a < b < new_chain.len() implies (
                #[trigger] new_chain[a]).0 != (#[trigger] new_chain[b]).0 by {
                    assert(new_chain[a].0 == old_chain[a].0);
                    assert(new_chain[b].0 == old_chain[b].0);
                }
            }
        }
        assert forall|other: Seq<char>| other != key implies spec_lookup(
            after.buckets()[spec_locate(other, after.level(), after.split_cursor()) as int],
            other,
        ) == spec_lookup(
            #[trigger] before.buckets()[spec_locate(
                other,
                before.level(),
                before.split_cursor(),
            ) as int],
            other,
        ) by {
            lemma_locate_at_cursor(other, before.level(), before.split_cursor());
            if spec_locate(other, before.level(), before.split_cursor()) == index {
                lemma_lookup_update_other(old_chain, at, value, other);
            }
        }
        assert(after@ =~= before@.insert(key, value));
    }

    /// Appending an entry with a key that the table lacks stores the value
    /// under that key and keeps the invariant.
    proof fn lemma_append_done(before: Table, after: Table, key: Seq<char>, value: ValueView)
        requires
            before.wf(),
            after.current_level == before.current_level,
            after.next == before.next,
            after.data@.len() == before.data@.len(),
            forall|i: int|
                0 <= i < before.data@.len() && i != before.locate(key) ==> #[trigger] after.data@[i]
                    == before.data@[i],
            spec_lookup(before.buckets()[before.locate(key) as int], key) is None,
            forall|i: int|
                0 <= i < before.buckets()[before.locate(key) as int].len() ==> (
                #[trigger] before.buckets()[before.locate(key) as int][i]).0 != key,
            after.buckets()[before.locate(key) as int] == before.buckets()[before.locate(
                key,
            ) as int].push((key, value)),
        ensures
            after.wf(),
            after@ == before@.insert(key, value),
            !before@.contains_key(key),
    {
        let index = before.locate(key) as int;
        let old_chain = before.buckets()[index];
        let new_chain = after.buckets()[index];
        lemma_locate_at_cursor(key, before.level(), before.split_cursor());
        assert(new_chain.drop_last() =~= old_chain);
        assert forall|i: int| 0 <= i < before.data@.len() && i != index implies (
        #[trigger] after.buckets()[i]) == before.buckets()[i] by {
            assert(after.data@[i] == before.data@[i]);
        }
        assert forall|i: int, j: int|
            0 <= i < after.buckets().len() && 0 <= j < after.buckets()[i].len() implies spec_locate(
            (#[trigger] after.buckets()[i][j]).0,
            after.level(),
            after.split_cursor(),
        ) == i by {
            if i == index && j == old_chain.len() {
            } else {
                assert(before.buckets()[i][j].0 == after.buckets()[i][j].0);
            }
        }
        assert forall|i: int| 0 <= i < after.buckets().len() implies distinct_keys(
            #[trigger] after.buckets()[i],
        ) by {
            assert(distinct_keys(before.buckets()[i]));
            if i == index {
                assert forall|a: int, b: int| 0 <= a < b < new_chain.len() implies (
                #[trigger] new_chain[a]).0 != (#[trigger] new_chain[b]).0 by {
                    assert(new_chain[a] == old_chain[a]);
                    if b < old_chain.len() {
                        assert(new_chain[b] == old_chain[b]);
                    }
                }
            }
        }
        assert forall|other: Seq<char>| other != key implies spec_lookup(
            after.buckets()[spec_locate(other, after.level(), after.split_cursor()) as int],
            other,
        ) == spec_lookup(
            #[trigger] before.buckets()[spec_locate(
                other,
                before.level(),
                before.split_cursor(),
            ) as int],
            other,
        ) by {
            lemma_locate_at_cursor(other, before.level(), before.split_cursor());
        }
        assert(after@ =~= before@.insert(key, value));
    }
}

/// A table taken apart into plain values: what a stored copy holds.
#[derive(Debug, PartialEq)]
pub struct Snapshot {
    /// The buckets in order, each with its keys and values in order.
    pub buckets: Vec<Vec<(String, Value)>>,
    /// The level of the table.
    pub level: usize,
    /// The index of the next bucket to split.
    pub split_cursor: usize,
}

/// A snapshot does not describe a table.
#[derive(Clone, Copy, Debug, PartialEq, Eq, Structural)]
pub struct CorruptSnapshot;

/// The keys and values of one bucket of a snapshot.
pub open spec fn pairs_chain(pairs: Seq<(String, Value)>) -> Chain {
    Seq::new(pairs.len(), |j: int| (pairs[j].0@, pairs[j].1@))
}

/// The chains of the buckets of a snapshot.
pub open spec fn snapshot_chains(buckets: Seq<Vec<(String, Value)>>) -> Seq<Chain> {
    Seq::new(buckets.len(), |i: int| pairs_chain(buckets[i]@))
}

impl Snapshot {
    /// The snapshot is that of a table: its parts satisfy the invariant.
    pub open spec fn valid(&self) -> bool {
        well_formed(
            snapshot_chains(self.buckets@),
            self.level as nat,
            self.split_cursor as nat,
        )
    }
}

/// Tells whether level, cursor and the number of buckets fit together.
fn check_shape(count: usize, level: usize, cursor: usize) -> (ok: bool)
    ensures
        ok == (level < usize::BITS && cursor < pow2(level as nat) && (cursor > 0 ==> level + 1
            < usize::BITS) && count == pow2(level as nat) + cursor),
{
    if level >= usize::BITS as usize {
        return false;
    }
    proof {
        lemma_usize_pow2_no_overflow(level as nat);
        lemma_usize_shl_is_mul(1usize, level);
    }
    let size: usize = 1usize << level;
    if cursor >= size {
        return false;
    }
    if cursor > 0 && level + 1 >= usize::BITS as usize {
        return false;
    }
    count >= size && count - size == cursor
}

/// Tells whether every key of the bucket belongs at `index`, and none occurs
/// twice.
fn check_bucket(pairs: &Vec<(String, Value)>, index: usize, level: usize, cursor: usize) -> (ok:
    bool)
    requires
        level < usize::BITS,
        cursor > 0 ==> level + 1 < usize::BITS,
    ensures
        ok == ((forall|j: int|
            0 <= j < pairs@.len() ==> spec_locate(
                (#[trigger] pairs_chain(pairs@)[j]).0,
                level as nat,
                cursor as nat,
            ) == index) && distinct_keys(pairs_chain(pairs@))),
{
    let ghost chain = pairs_chain(pairs@);
    let mut j: usize = 0;
    while j < pairs.len()
        invariant
            0 <= j <= pairs.len(),
            level < usize::BITS,
            cursor > 0 ==> level + 1 < usize::BITS,
            chain == pairs_chain(pairs@),
            forall|i: int|
                0 <= i < j ==> spec_locate((#[trigger] chain[i]).0, level as nat, cursor as nat)
                    == index,
            forall|a: int, b: int|
                0 <= a < b < j ==> (#[trigger] chain[a]).0 != (#[trigger] chain[b]).0,
        decreases pairs.len() - j,
    {
        if locate(pairs[j].0.as_str(), level, cursor) != index {
            assert(spec_locate(chain[j as int].0, level as nat, cursor as nat) != index);
            return false;
        }
        let mut k: usize = 0;
        while k < j
            invariant
                0 <= k <= j < pairs.len(),
                chain == pairs_chain(pairs@),
                forall|a: int| 0 <= a < k ==> (#[trigger] chain[a]).0 != chain[j as int].0,
            decreases j - k,
        {
            if str_eq(pairs[k].0.as_str(), pairs[j].0.as_str()) {
                assert(chain[k as int].0 == chain[j as int].0);
                return false;
            }
            k = k + 1;
        }
        j = j + 1;
    }
    true
}

impl Table {
    /// The table taken apart, with a copy of every key and value.
    pub fn snapshot(&self) -> (r: Snapshot)
        ensures
            snapshot_chains(r.buckets@) == self.buckets(),
            r.level == self.level(),
            r.split_cursor == self.split_cursor(),
            self.wf() ==> r.valid(),
    {
        let mut buckets: Vec<Vec<(String, Value)>> = Vec::new();
        let mut i: usize = 0;
        while i < self.data.len()
            invariant
                0 <= i <= self.data.len(),
                buckets@.len() == i,
                forall|b: int|
                    0 <= b < i ==> pairs_chain((#[trigger] buckets@[b])@) == chain_of(
                        self.data@[b].entries@,
                    ),
            decreases self.data.len() - i,
        {
            let entries = &self.data[i].entries;
            let mut pairs: Vec<(String, Value)> = Vec::new();
            let mut j: usize = 0;
            while j < entries.len()
                invariant
                    0 <= j <= entries.len(),
                    pairs@.len() == j,
                    forall|e: int|
                        0 <= e < j ==> (#[trigger] pairs@[e]).0@ == entries@[e].key@
                            && pairs@[e].1@ == entries@[e].value@,
                decreases entries.len() - j,
            {
                pairs.push((entries[j].key.clone(), entries[j].value.clone()));
                j = j + 1;
            }
            assert(pairs_chain(pairs@) =~= chain_of(entries@));
            buckets.push(pairs);
            i = i + 1;
        }
        assert(snapshot_chains(buckets@) =~= self.buckets());
        Snapshot { buckets, level: self.current_level, split_cursor: self.next }
    }

    /// The table that a snapshot describes, where it describes one: the
    /// number of buckets must fit level and cursor, every key must be in its
    /// bucket, and no bucket may hold a key twice.
    pub fn from_snapshot(snapshot: Snapshot) -> (r: Result<Table, CorruptSnapshot>)
        ensures
            r is Ok <==> snapshot.valid(),
            r is Ok ==> r->Ok_0.wf() && r->Ok_0.buckets() == snapshot_chains(snapshot.buckets@)
                && r->Ok_0.level() == snapshot.level && r->Ok_0.split_cursor()
                == snapshot.split_cursor,
    {
        let level = snapshot.level;
        let cursor = snapshot.split_cursor;
        let ghost chains = snapshot_chains(snapshot.buckets@);
        if !check_shape(snapshot.buckets.len(), level, cursor) {
            return Err(CorruptSnapshot);
        }
        let mut i: usize = 0;
        while i < snapshot.buckets.len()
            invariant
                0 <= i <= snapshot.buckets.len(),
                level < usize::BITS,
                cursor > 0 ==> level + 1 < usize::BITS,
                level == snapshot.level,
                cursor == snapshot.split_cursor,
                chains == snapshot_chains(snapshot.buckets@),
                forall|b: int, j: int|
                    0 <= b < i && 0 <= j < chains[b].len() ==> spec_locate(
                        (#[trigger] chains[b][j]).0,
                        level as nat,
                        cursor as nat,
                    ) == b,
                forall|b: int| 0 <= b < i ==> distinct_keys(#[trigger] chains[b]),
            decreases snapshot.buckets.len() - i,
        {
            if !check_bucket(&snapshot.buckets[i], i, level, cursor) {
                proof {
                    let chain = chains[i as int];
                    assert(chain == pairs_chain(snapshot.buckets@[i as int]@));
                    if distinct_keys(chain) {
                        let j = choose|j: int|
                            0 <= j < chain.len() && spec_locate(
                                (#[trigger] chain[j]).0,
                                level as nat,
                                cursor as nat,
                            ) != i;
                        assert(spec_locate(chains[i as int][j].0, level as nat, cursor as nat)
                            != i);
                    }
                }
                return Err(CorruptSnapshot);
            }
            i = i + 1;
        }
        let mut data: Vec<Bucket> = Vec::new();
        let ghost source = snapshot.buckets@;
        for pairs in outer: snapshot.buckets
            invariant
                outer.seq() == source,
                data@.len() == outer.index(),
                forall|b: int|
                    0 <= b < data@.len() ==> chain_of((#[trigger] data@[b]).entries@)
                        == pairs_chain(source[b]@),
        {
            let mut entries: Vec<Entry> = Vec::new();
            let ghost items = pairs@;
            for pair in inner: pairs
                invariant
                    inner.seq() == items,
                    entries@.len() == inner.index(),
                    forall|e: int|
                        0 <= e < entries@.len() ==> (#[trigger] entries@[e]).key@ == items[e].0@
                            && entries@[e].value@ == items[e].1@,
            {
                let (key, value) = pair;
                entries.push(Entry { key, value });
            }
            assert(chain_of(entries@) =~= pairs_chain(items));
            data.push(Bucket { entries });
        }
        let table = Table { data, current_level: level, next: cursor };
        assert(table.buckets() =~= chains);
        Ok(table)
    }
}

/// Taking a table apart and putting it together again succeeds, and gives a
/// table with the same buckets, entry by entry, at the same level and cursor:
/// a table that holds what the first one held.
pub proof fn lemma_snapshot_round_trip(table: Table, snapshot: Snapshot, restored: Table)
    requires
        table.wf(),
        snapshot_chains(snapshot.buckets@) == table.buckets(),
        snapshot.level == table.level(),
        snapshot.split_cursor == table.split_cursor(),
        restored.buckets() == snapshot_chains(snapshot.buckets@),
        restored.level() == snapshot.level,
        restored.split_cursor() == snapshot.split_cursor,
    ensures
        snapshot.valid(),
        restored.wf(),
        restored.buckets() == table.buckets(),
        restored.level() == table.level(),
        restored.split_cursor() == table.split_cursor(),
        restored@ == table@,
{
}

/// What a table holds after a sequence of `set` calls on an empty table, in
/// the order of the calls.
pub open spec fn after_sets(ops: Seq<(Seq<char>, ValueView)>) -> Map<Seq<char>, ValueView>
    decreases ops.len(),
{
    if ops.len() == 0 {
        Map::empty()
    } else {
        after_sets(ops.drop_last()).insert(ops.last().0, ops.last().1)
    }
}

/// After any sequence of `set` calls, a key that was never set is absent, and
/// a key that was set has the value of the last call that set it.
pub proof fn lemma_last_set_wins(ops: Seq<(Seq<char>, ValueView)>, key: Seq<char>)
    ensures
        (forall|i: int| 0 <= i < ops.len() ==> (#[trigger] ops[i]).0 != key) ==> !after_sets(
            ops,
        ).contains_key(key),
        forall|i: int|
            0 <= i < ops.len() && (#[trigger] ops[i]).0 == key && (forall|j: int|
                i < j < ops.len() ==> (#[trigger] ops[j]).0 != key) ==> after_sets(
                ops,
            ).contains_key(key) && after_sets(ops)[key] == ops[i].1,
    decreases ops.len(),
{
    if ops.len() > 0 {
        let front = ops.drop_last();
        lemma_last_set_wins(front, key);
        assert forall|i: int|
            0 <= i < ops.len() && (#[trigger] ops[i]).0 == key && (forall|j: int|
                i < j < ops.len() ==> (#[trigger] ops[j]).0 != key) implies after_sets(
            ops,
        ).contains_key(key) && after_sets(ops)[key] == ops[i].1 by {
            if i < ops.len() - 1 {
                assert(ops[ops.len() - 1].0 != key);
                assert(front[i] == ops[i]);
                assert forall|j: int| i < j < front.len() implies (#[trigger] front[j]).0
                    != key by {
                    assert(front[j] == ops[j]);
                }
            }
        }
        if forall|i: int| 0 <= i < ops.len() ==> (#[trigger] ops[i]).0 != key {
            assert(ops[ops.len() - 1].0 != key);
            assert forall|i: int| 0 <= i < front.len() implies (#[trigger] front[i]).0 != key by {
                assert(front[i] == ops[i]);
            }
        }
    }
}

/// In every table there are `2^level + split_cursor` buckets, every entry is
/// in the bucket that `locate` gives for its key, and every key that the
/// table holds has its entry, with its value, in that bucket.
pub proof fn lemma_growth_invariant(table: Table)
    requires
        table.wf(),
    ensures
        table.buckets().len() == pow2(table.level()) + table.split_cursor(),
        table.split_cursor() < pow2(table.level()),
        forall|i: int, j: int|
            0 <= i < table.buckets().len() && 0 <= j < table.buckets()[i].len() ==> table.locate(
                (#[trigger] table.buckets()[i][j]).0,
            ) == i,
        forall|key: Seq<char>| #[trigger] table.locate(key) < table.buckets().len(),
        forall|key: Seq<char>| #[trigger]
            table@.contains_key(key) ==> table.buckets()[table.locate(key) as int].contains(
                (key, table@[key]),
            ),
{
    assert forall|key: Seq<char>| #[trigger] table.locate(key) < table.buckets().len() by {
        lemma_locate_at_cursor(key, table.level(), table.split_cursor());
    }
    assert forall|key: Seq<char>| #[trigger] table@.contains_key(key) implies table.buckets()[(
    table.locate(key)) as int].contains((key, table@[key])) by {
        lemma_lookup_some(table.buckets()[table.locate(key) as int], key);
    }
}

} // verus!
