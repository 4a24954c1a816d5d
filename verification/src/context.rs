//! A store of prepared contexts by key, with a bound on how many it holds.
//! When the bound is reached, the entry that came first makes room.

use vstd::prelude::*;
use vstd::string::StringExecFns;

verus! {

/// How many contexts a store holds at most.
pub const MAX_CONTEXTS: usize = 100;

/// Where the entry with the key `key` stands, if there is one.
pub open spec fn position_of<T>(entries: Seq<(Seq<char>, T)>, key: Seq<char>) -> Option<int> {
    if exists|i: int| 0 <= i < entries.len() && (#[trigger] entries[i]).0 == key {
        Some(choose|i: int| 0 <= i < entries.len() && (#[trigger] entries[i]).0 == key)
    } else {
        None
    }
}

/// Whether no two entries have the same key.
pub open spec fn keys_distinct<T>(entries: Seq<(Seq<char>, T)>) -> bool {
    forall|i: int, j: int|
        0 <= i < j < entries.len() ==> (#[trigger] entries[i]).0 != (#[trigger] entries[j]).0
}

/// The entries after room was made: the first entry is gone if the store
/// was full.
pub open spec fn with_room<T>(entries: Seq<(Seq<char>, T)>, max_size: nat) -> Seq<(Seq<char>, T)> {
    if entries.len() > 0 && entries.len() >= max_size {
        entries.skip(1)
    } else {
        entries
    }
}

/// The entries after `value` was stored under `key`: room is made first;
/// then the value takes the place of the entry with that key, or joins at
/// the end.
pub open spec fn stored<T>(entries: Seq<(Seq<char>, T)>, max_size: nat, key: Seq<char>, value: T) -> Seq<
    (Seq<char>, T),
> {
    let kept = with_room(entries, max_size);
    match position_of(kept, key) {
        Some(i) => kept.update(i, (key, value)),
        None => kept.push((key, value)),
    }
}

/// The value stored under `key`, if there is one.
pub open spec fn lookup<T>(entries: Seq<(Seq<char>, T)>, key: Seq<char>) -> Option<T> {
    match position_of(entries, key) {
        Some(i) => Some(entries[i].1),
        None => None,
    }
}

/// What was stored last under a key is what a lookup finds.
pub proof fn lemma_stored_is_found<T>(entries: Seq<(Seq<char>, T)>, max_size: nat, key: Seq<char>, value: T)
    requires
        keys_distinct(entries),
    ensures
        keys_distinct(stored(entries, max_size, key, value)),
        lookup(stored(entries, max_size, key, value), key) == Some(value),
        max_size > 0 && entries.len() <= max_size ==> stored(entries, max_size, key, value).len()
            <= max_size,
{
    let kept = with_room(entries, max_size);
    let out = stored(entries, max_size, key, value);
    assert(keys_distinct(kept)) by {
        assert forall|i: int, j: int| 0 <= i < j < kept.len() implies (#[trigger] kept[i]).0 != (
        #[trigger] kept[j]).0 by {
            if kept.len() < entries.len() {
                assert(kept[i] == entries[i + 1] && kept[j] == entries[j + 1]);
            }
        }
    }
    match position_of(kept, key) {
        Some(p) => {
            assert(out[p].0 == key);
            assert forall|i: int, j: int| 0 <= i < j < out.len() implies (#[trigger] out[i]).0 != (
            #[trigger] out[j]).0 by {
                assert(out[i].0 == kept[i].0 && out[j].0 == kept[j].0);
            }
        },
        None => {
            assert(out[out.len() - 1].0 == key);
            assert forall|i: int, j: int| 0 <= i < j < out.len() implies (#[trigger] out[i]).0 != (
            #[trigger] out[j]).0 by {
                if j == kept.len() {
                    assert(out[i] == kept[i]);
                } else {
                    assert(out[i] == kept[i] && out[j] == kept[j]);
                }
            }
        },
    }
    let q = position_of(out, key)->0;
    assert(out[q].0 == key);
    match position_of(kept, key) {
        Some(p) => {
            if q != p {
                if q < p {
                    assert(out[q].0 != out[p].0);
                } else {
                    assert(out[p].0 != out[q].0);
                }
            }
        },
        None => {
            if q != out.len() - 1 {
                assert(out[q].0 != out[out.len() - 1].0);
            }
        },
    }
}

/// The store.
pub struct ContextStore<T> {
    entries: Vec<(String, T)>,
    max_size: usize,
}

impl<T> View for ContextStore<T> {
    type V = Seq<(Seq<char>, T)>;

    closed spec fn view(&self) -> Seq<(Seq<char>, T)> {
        Seq::new(self.entries@.len(), |i: int| (self.entries@[i].0@, self.entries@[i].1))
    }
}

impl<T> ContextStore<T> {
    /// The store's invariant.
    pub closed spec fn wf(&self) -> bool {
        &&& keys_distinct(self@)
        &&& self@.len() <= self.max_size
        &&& self.max_size == MAX_CONTEXTS
    }

    /// In every state no key comes twice and the bound holds.
    pub proof fn lemma_store_ok(&self)
        requires
            self.wf(),
        ensures
            keys_distinct(self@),
            self@.len() <= MAX_CONTEXTS,
    {
    }

    /// An empty store.
    pub fn new() -> (r: Self)
        ensures
            r.wf(),
            r@ == Seq::<(Seq<char>, T)>::empty(),
    {
        let r = ContextStore { entries: Vec::new(), max_size: MAX_CONTEXTS };
        proof {
            assert(r@ =~= Seq::<(Seq<char>, T)>::empty());
        }
        r
    }

    /// Where the entry with the key `key` stands.
    fn find(&self, key: &String) -> (r: Option<usize>)
        requires
            keys_distinct(self@),
        ensures
            match r {
                Some(i) => position_of(self@, key@) == Some(i as int) && i < self@.len(),
                None => position_of(self@, key@) is None,
            },
    {
        let mut i: usize = 0;
        while i < self.entries.len()
            invariant
                i <= self.entries@.len(),
                keys_distinct(self@),
                forall|k: int| 0 <= k < i ==> (#[trigger] self@[k]).0 != key@,
            decreases self.entries@.len() - i,
        {
            if self.entries[i].0 == *key {
                proof {
                    assert(self@[i as int].0 == key@);
                    let p = position_of(self@, key@)->0;
                    assert(self@[p].0 == key@);
                    if p < i {
                        assert(self@[p].0 != self@[i as int].0);
                    } else if i < p {
                        assert(self@[i as int].0 != self@[p].0);
                    }
                }
                return Some(i);
            }
            i = i + 1;
        }
        None
    }

    /// Stores `context` under `key`.
    pub fn cache(&mut self, key: String, context: T)
        requires
            old(self).wf(),
        ensures
            final(self).wf(),
            final(self)@ == stored(old(self)@, MAX_CONTEXTS as nat, key@, context),
    {
        let ghost before = self@;
        proof {
            lemma_stored_is_found(before, MAX_CONTEXTS as nat, key@, context);
        }
        if self.entries.len() >= self.max_size {
            let _ = self.entries.remove(0);
            proof {
                assert(self@ =~= before.skip(1));
            }
        }
        let ghost kept = self@;
        proof {
            assert(kept == with_room(before, MAX_CONTEXTS as nat));
            assert forall|i: int, j: int| 0 <= i < j < kept.len() implies (#[trigger] kept[i]).0 != (
            #[trigger] kept[j]).0 by {
                if kept.len() < before.len() {
                    assert(kept[i] == before[i + 1] && kept[j] == before[j + 1]);
                }
            }
        }
        match self.find(&key) {
            Some(i) => {
                self.entries[i] = (key, context);
                proof {
                    assert(self@ =~= kept.update(i as int, (key@, context)));
                }
            },
            None => {
                self.entries.push((key, context));
                proof {
                    assert(self@ =~= kept.push((key@, context)));
                }
            },
        }
    }

    /// The context stored under `key`, if there is one.
    pub fn get(&self, key: &str) -> (r: Option<&T>)
        requires
            self.wf(),
        ensures
            match r {
                Some(v) => lookup(self@, key@) == Some(*v),
                None => lookup(self@, key@) is None,
            },
    {
        let key = String::from_str(key);
        match self.find(&key) {
            Some(i) => Some(&self.entries[i].1),
            None => None,
        }
    }

    /// The number of contexts stored.
    pub fn len(&self) -> (r: usize)
        ensures
            r == self@.len(),
    {
        self.entries.len()
    }
}

} // verus!
