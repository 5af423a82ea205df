//! The in-memory key/value store with lazy expiry.
//!
//! Time is a plain millisecond count supplied by the caller, so that the
//! store's behaviour is a function of its inputs: `set` records an absolute
//! expiry instant, and `get` hands a value back only while that instant is
//! still in the future.
use vstd::prelude::*;

use crate::text::{clone_string, str_eq};

verus! {

/// The mathematical content of the store: each bound key's value and
/// optional absolute expiry, in milliseconds.
pub type StoreModel = Map<Seq<char>, (Seq<char>, Option<u64>)>;

/// One stored binding: value and optional absolute expiry, in milliseconds.
struct CacheValue {
    value: String,
    expires_at: Option<u64>,
}

struct CacheEntry {
    key: String,
    stored: CacheValue,
}

/// The absolute expiry instant a SET with time-to-live `ttl` at instant
/// `now` records: `now + ttl`, saturating at the largest representable
/// instant; no instant at all when there is no time-to-live.
pub open spec fn spec_expiry(ttl: Option<u64>, now: u64) -> Option<u64> {
    match ttl {
        None => None,
        Some(t) => Some(
            if now + t > u64::MAX {
                u64::MAX
            } else {
                (now + t) as u64
            },
        ),
    }
}

/// True while an entry is observable: it has no expiry, or its expiry is
/// strictly in the future.
pub open spec fn entry_live(entry: (Seq<char>, Option<u64>), now: u64) -> bool {
    match entry.1 {
        None => true,
        Some(exp) => exp > now,
    }
}

/// The first binding for `k` in `entries`, if any.
spec fn lookup(entries: Seq<CacheEntry>, k: Seq<char>) -> Option<(Seq<char>, Option<u64>)>
    decreases entries.len(),
{
    if entries.len() == 0 {
        None
    } else if entries[0].key@ == k {
        Some((entries[0].stored.value@, entries[0].stored.expires_at))
    } else {
        lookup(entries.drop_first(), k)
    }
}

/// The mapping from key to (value, expiry) that the store holds.
pub struct CacheStore {
    entries: Vec<CacheEntry>,
}

impl View for CacheStore {
    type V = Map<Seq<char>, (Seq<char>, Option<u64>)>;

    closed spec fn view(&self) -> Map<Seq<char>, (Seq<char>, Option<u64>)> {
        Map::new(
            |k: Seq<char>| lookup(self.entries@, k) is Some,
            |k: Seq<char>| lookup(self.entries@, k)->0,
        )
    }
}

impl CacheStore {
    /// Every key occurs at most once.
    #[verifier::type_invariant]
    spec fn wf(self) -> bool {
        forall|i: int, j: int|
            0 <= i < j < self.entries@.len() ==> #[trigger] self.entries@[i].key@
                != #[trigger] self.entries@[j].key@
    }

    /// An empty store.
    pub fn new() -> (r: Self)
        ensures
            r@ == Map::<Seq<char>, (Seq<char>, Option<u64>)>::empty(),
    {
        let r = CacheStore { entries: Vec::new() };
        proof {
            assert(r@ =~= Map::<Seq<char>, (Seq<char>, Option<u64>)>::empty());
        }
        r
    }

    /// Binds `key` to `value`, replacing any earlier binding. With a
    /// time-to-live of `expiry` milliseconds the binding lapses `expiry`
    /// after `now`; without one it never does.
    pub fn set(&mut self, key: String, value: String, expiry: Option<u64>, now: u64)
        ensures
            final(self)@ == old(self)@.insert(key@, (value@, spec_expiry(expiry, now))),
    {
        proof {
            use_type_invariant(&*self);
        }
        let expires_at = match expiry {
            Some(t) => Some(if t > u64::MAX - now { u64::MAX } else { now + t }),
            None => None,
        };
        let ghost before = self.entries@;
        let found = self.position_of(&key);
        let mut entries: Vec<CacheEntry> = Vec::new();
        core::mem::swap(&mut self.entries, &mut entries);
        match found {
            Some(i) => {
                let _ = entries.remove(i);
                proof {
                    lemma_lookup_remove(before, i as int);
                    before.remove_ensures(i as int);
                    assert forall|p: int, q: int|
                        0 <= p < q < entries@.len() implies #[trigger] entries@[p].key@
                        != #[trigger] entries@[q].key@ by {
                        if q < i {
                        } else if p < i {
                            assert(entries@[q] == before[q + 1]);
                        } else {
                            assert(entries@[p] == before[p + 1]);
                            assert(entries@[q] == before[q + 1]);
                        }
                    }
                }
            },
            None => {},
        }
        let ghost cleared = entries@;
        assert(lookup(cleared, key@) is None);
        proof {
            lemma_lookup_none_keys(cleared, key@);
        }
        let entry = CacheEntry { key, stored: CacheValue { value, expires_at } };
        let ghost k = entry.key@;
        entries.push(entry);
        proof {
            lemma_lookup_push(cleared, entry);
            assert forall|p: int, q: int|
                0 <= p < q < entries@.len() implies #[trigger] entries@[p].key@
                != #[trigger] entries@[q].key@ by {
                if q == entries@.len() - 1 {
                    assert(entries@[p] == cleared[p]);
                    assert(entries@[q] == entry);
                } else {
                    assert(entries@[p] == cleared[p]);
                    assert(entries@[q] == cleared[q]);
                }
            }
        }
        core::mem::swap(&mut self.entries, &mut entries);
        proof {
            assert(self@ =~= old(self)@.insert(k, (value@, spec_expiry(expiry, now))));
        }
    }

    /// The value bound to `key`, if the binding exists and has not lapsed
    /// by instant `now`. A lapsed binding is invisible, though it may still
    /// sit in memory.
    pub fn get(&self, key: &str, now: u64) -> (r: Option<String>)
        ensures
            r is Some <==> self@.contains_key(key@) && entry_live(self@[key@], now),
            r is Some ==> r->0@ == self@[key@].0,
    {
        match self.find(key) {
            None => None,
            Some(i) => {
                let live = match self.entries[i].stored.expires_at {
                    None => true,
                    Some(exp) => exp > now,
                };
                if live {
                    Some(clone_string(&self.entries[i].stored.value))
                } else {
                    None
                }
            },
        }
    }

    /// The index of the binding for `key`, if any.
    fn find(&self, key: &str) -> (r: Option<usize>)
        ensures
            (match r {
                Some(i) => i < self.entries@.len() && lookup(self.entries@, key@) == Some(
                    (self.entries@[i as int].stored.value@, self.entries@[i as int].stored.expires_at),
                ),
                None => lookup(self.entries@, key@) is None,
            }),
    {
        let mut i: usize = 0;
        while i < self.entries.len()
            invariant
                0 <= i <= self.entries@.len(),
                forall|j: int| 0 <= j < i ==> #[trigger] self.entries@[j].key@ != key@,
            decreases self.entries@.len() - i,
        {
            if str_eq(self.entries[i].key.as_str(), key) {
                proof {
                    lemma_lookup_at_first_match(self.entries@, key@, i as int);
                }
                return Some(i);
            }
            i = i + 1;
        }
        proof {
            lemma_lookup_none(self.entries@, key@);
        }
        None
    }

    /// Like `find`, for a key held as a `String`.
    fn position_of(&self, key: &String) -> (r: Option<usize>)
        ensures
            (match r {
                Some(i) => i < self.entries@.len() && self.entries@[i as int].key@ == key@,
                None => lookup(self.entries@, key@) is None,
            }),
    {
        let mut i: usize = 0;
        while i < self.entries.len()
            invariant
                0 <= i <= self.entries@.len(),
                forall|j: int| 0 <= j < i ==> #[trigger] self.entries@[j].key@ != key@,
            decreases self.entries@.len() - i,
        {
            if str_eq(self.entries[i].key.as_str(), key.as_str()) {
                return Some(i);
            }
            i = i + 1;
        }
        proof {
            lemma_lookup_none(self.entries@, key@);
        }
        None
    }
}

/// A first match at `i`, with no match before it, is what `lookup` returns.
proof fn lemma_lookup_at_first_match(entries: Seq<CacheEntry>, k: Seq<char>, i: int)
    requires
        0 <= i < entries.len(),
        entries[i].key@ == k,
        forall|j: int| 0 <= j < i ==> #[trigger] entries[j].key@ != k,
    ensures
        lookup(entries, k) == Some((entries[i].stored.value@, entries[i].stored.expires_at)),
    decreases i,
{
    if i > 0 {
        lemma_lookup_at_first_match(entries.drop_first(), k, i - 1);
    }
}

/// With no match anywhere, `lookup` returns nothing.
proof fn lemma_lookup_none(entries: Seq<CacheEntry>, k: Seq<char>)
    requires
        forall|j: int| 0 <= j < entries.len() ==> #[trigger] entries[j].key@ != k,
    ensures
        lookup(entries, k) is None,
    decreases entries.len(),
{
    if entries.len() > 0 {
        lemma_lookup_none(entries.drop_first(), k);
    }
}

/// A `lookup` miss means no index holds that key.
proof fn lemma_lookup_none_keys(entries: Seq<CacheEntry>, k: Seq<char>)
    requires
        lookup(entries, k) is None,
    ensures
        forall|j: int| 0 <= j < entries.len() ==> #[trigger] entries[j].key@ != k,
    decreases entries.len(),
{
    if entries.len() > 0 {
        lemma_lookup_none_keys(entries.drop_first(), k);
        assert forall|j: int| 0 <= j < entries.len() implies #[trigger] entries[j].key@ != k by {
            if j > 0 {
                assert(entries[j] == entries.drop_first()[j - 1]);
            }
        }
    }
}

/// Removing the only binding for a key erases that key and nothing else,
/// when keys are pairwise distinct.
proof fn lemma_lookup_remove(entries: Seq<CacheEntry>, i: int)
    requires
        0 <= i < entries.len(),
        forall|p: int, q: int|
            0 <= p < q < entries.len() ==> #[trigger] entries[p].key@ != #[trigger] entries[q].key@,
    ensures
        lookup(entries.remove(i), entries[i].key@) is None,
        forall|k: Seq<char>|
            k != entries[i].key@ ==> #[trigger] lookup(entries.remove(i), k) == lookup(entries, k),
    decreases i,
{
    let removed = entries.remove(i);
    let ki = entries[i].key@;
    entries.remove_ensures(i);
    if i == 0 {
        assert(removed =~= entries.drop_first());
        assert forall|j: int| 0 <= j < removed.len() implies #[trigger] removed[j].key@ != ki by {
            assert(removed[j] == entries[j + 1]);
        }
        lemma_lookup_none(removed, ki);
        assert forall|k: Seq<char>| k != ki implies #[trigger] lookup(removed, k) == lookup(
            entries,
            k,
        ) by {
            assert(lookup(entries, k) == lookup(entries.drop_first(), k));
        }
    } else {
        assert(removed[0] == entries[0]);
        assert(entries.drop_first()[i - 1] == entries[i]);
        assert(removed.drop_first() =~= entries.drop_first().remove(i - 1));
        assert forall|p: int, q: int|
            0 <= p < q < entries.drop_first().len() implies #[trigger] entries.drop_first()[p].key@
            != #[trigger] entries.drop_first()[q].key@ by {
            assert(entries.drop_first()[p] == entries[p + 1]);
            assert(entries.drop_first()[q] == entries[q + 1]);
        }
        lemma_lookup_remove(entries.drop_first(), i - 1);
        assert(removed[0].key@ != ki);
        assert(lookup(removed, ki) == lookup(removed.drop_first(), ki));
        assert forall|k: Seq<char>| k != ki implies #[trigger] lookup(removed, k) == lookup(
            entries,
            k,
        ) by {
            if entries[0].key@ != k {
                assert(lookup(removed, k) == lookup(removed.drop_first(), k));
                assert(lookup(entries, k) == lookup(entries.drop_first(), k));
            }
        }
    }
}

/// Pushing a fresh binding adds exactly that binding, when the key was not
/// bound before.
proof fn lemma_lookup_push(entries: Seq<CacheEntry>, entry: CacheEntry)
    requires
        lookup(entries, entry.key@) is None,
    ensures
        lookup(entries.push(entry), entry.key@) == Some(
            (entry.stored.value@, entry.stored.expires_at),
        ),
        forall|k: Seq<char>|
            k != entry.key@ ==> #[trigger] lookup(entries.push(entry), k) == lookup(entries, k),
    decreases entries.len(),
{
    let pushed = entries.push(entry);
    if entries.len() == 0 {
        assert(pushed[0] == entry);
        assert forall|k: Seq<char>| k != entry.key@ implies #[trigger] lookup(pushed, k) == lookup(
            entries,
            k,
        ) by {
            assert(pushed.drop_first() =~= Seq::<CacheEntry>::empty());
            assert(lookup(pushed, k) == lookup(pushed.drop_first(), k));
        }
    } else {
        assert(pushed[0] == entries[0]);
        assert(pushed.drop_first() =~= entries.drop_first().push(entry));
        lemma_lookup_push(entries.drop_first(), entry);
        assert(lookup(pushed, entry.key@) == Some(
            (entry.stored.value@, entry.stored.expires_at),
        ));
        assert forall|k: Seq<char>| k != entry.key@ implies #[trigger] lookup(pushed, k) == lookup(
            entries,
            k,
        ) by {
            if entries[0].key@ != k {
                assert(lookup(pushed, k) == lookup(pushed.drop_first(), k));
                assert(lookup(entries, k) == lookup(entries.drop_first(), k));
            }
        }
    }
}

/// After SET binds `k` to `v` at instant `set_now`, GET at instant
/// `get_now` with no intervening SET on `k` is owed exactly `v`: always when
/// the SET carried no time-to-live, and otherwise precisely while `get_now`
/// lies before the recorded expiry.
pub proof fn lemma_set_then_get(
    m: Map<Seq<char>, (Seq<char>, Option<u64>)>,
    k: Seq<char>,
    v: Seq<char>,
    ttl: Option<u64>,
    set_now: u64,
    get_now: u64,
)
    ensures
        m.insert(k, (v, spec_expiry(ttl, set_now))).contains_key(k),
        m.insert(k, (v, spec_expiry(ttl, set_now)))[k].0 == v,
        ttl is None ==> entry_live(m.insert(k, (v, spec_expiry(ttl, set_now)))[k], get_now),
        ttl is Some && set_now + ttl->0 <= u64::MAX ==> (entry_live(
            m.insert(k, (v, spec_expiry(ttl, set_now)))[k],
            get_now,
        ) <==> get_now < set_now + ttl->0),
{
}

} // verus!
