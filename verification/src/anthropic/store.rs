//! The store of prompt-cache entries: a map from cache key to the token
//! count cached under it and the time at which it expires.

use vstd::prelude::*;

verus! {

/// One cached prefix: its key, its cumulative token count and its expiry time.
pub struct StoreEntry {
    key: Vec<u8>,
    tokens: i32,
    expires_at: u64,
}

/// What a cache key maps to: the token count and the expiry time.
pub type EntryView = (i32, u64);

/// The abstract contents of a run of entries; a later entry for a key
/// replaces an earlier one.
spec fn entries_view(s: Seq<StoreEntry>) -> Map<Seq<u8>, EntryView>
    decreases s.len(),
{
    if s.len() == 0 {
        Map::empty()
    } else {
        entries_view(s.drop_last()).insert(
            s.last().key@,
            (s.last().tokens, s.last().expires_at),
        )
    }
}

/// Keys are distinct and every token count is non-negative.
spec fn entries_wf(s: Seq<StoreEntry>) -> bool {
    &&& forall|i: int, j: int| 0 <= i < j < s.len() ==> s[i].key@ != s[j].key@
    &&& forall|i: int| 0 <= i < s.len() ==> s[i].tokens >= 0
}

/// The entries of `m` that have not expired at `now`.
pub open spec fn unexpired(m: Map<Seq<u8>, EntryView>, now: u64) -> Map<Seq<u8>, EntryView> {
    Map::new(|k: Seq<u8>| m.dom().contains(k) && m[k].1 > now, |k: Seq<u8>| m[k])
}

/// A map from cache keys to cached token counts and expiry times.
pub struct CacheStore {
    entries: Vec<StoreEntry>,
}

impl View for CacheStore {
    type V = Map<Seq<u8>, EntryView>;

    closed spec fn view(&self) -> Map<Seq<u8>, EntryView> {
        entries_view(self.entries@)
    }
}

proof fn lemma_view_dom(s: Seq<StoreEntry>, k: Seq<u8>)
    ensures
        entries_view(s).dom().contains(k) <==> exists|i: int| 0 <= i < s.len() && s[i].key@ == k,
    decreases s.len(),
{
    if s.len() > 0 {
        lemma_view_dom(s.drop_last(), k);
        if entries_view(s.drop_last()).dom().contains(k) {
            let i = choose|i: int| 0 <= i < s.drop_last().len() && s.drop_last()[i].key@ == k;
            assert(s[i].key@ == k);
        }
        if exists|i: int| 0 <= i < s.len() && s[i].key@ == k {
            let i = choose|i: int| 0 <= i < s.len() && s[i].key@ == k;
            if i < s.len() - 1 {
                assert(s.drop_last()[i].key@ == k);
            }
        }
    }
}

proof fn lemma_view_at(s: Seq<StoreEntry>, i: int)
    requires
        entries_wf(s),
        0 <= i < s.len(),
    ensures
        entries_view(s).dom().contains(s[i].key@),
        entries_view(s)[s[i].key@] == (s[i].tokens, s[i].expires_at),
    decreases s.len(),
{
    if i < s.len() - 1 {
        assert(entries_wf(s.drop_last()));
        lemma_view_at(s.drop_last(), i);
    }
}

proof fn lemma_view_update(s: Seq<StoreEntry>, i: int, e: StoreEntry)
    requires
        entries_wf(s),
        0 <= i < s.len(),
        e.key@ == s[i].key@,
    ensures
        entries_view(s.update(i, e)) =~= entries_view(s).insert(e.key@, (e.tokens, e.expires_at)),
    decreases s.len(),
{
    let t = s.update(i, e);
    if i == s.len() - 1 {
        assert(t.drop_last() =~= s.drop_last());
        lemma_view_dom(s.drop_last(), e.key@);
        if entries_view(s.drop_last()).dom().contains(e.key@) {
            let j = choose|j: int| 0 <= j < s.drop_last().len() && s.drop_last()[j].key@ == e.key@;
            assert(s[j].key@ == s[i].key@);
        }
    } else {
        assert(t.drop_last() =~= s.drop_last().update(i, e));
        assert(entries_wf(s.drop_last()));
        lemma_view_update(s.drop_last(), i, e);
        assert(s.last().key@ != e.key@);
    }
}

proof fn lemma_view_push(s: Seq<StoreEntry>, e: StoreEntry)
    ensures
        entries_view(s.push(e)) =~= entries_view(s).insert(e.key@, (e.tokens, e.expires_at)),
{
    assert(s.push(e).drop_last() =~= s);
}

/// Whether two byte strings are equal.
pub fn bytes_eq(a: &[u8], b: &[u8]) -> (res: bool)
    ensures
        res == (a@ == b@),
{
    if a.len() != b.len() {
        return false;
    }
    let mut i: usize = 0;
    while i < a.len()
        invariant
            a@.len() == b@.len(),
            i <= a@.len(),
            forall|k: int| 0 <= k < i ==> a@[k] == b@[k],
        decreases a@.len() - i,
    {
        if a[i] != b[i] {
            return false;
        }
        i = i + 1;
    }
    assert(a@ =~= b@);
    true
}

impl CacheStore {
    /// The store's invariant: keys are distinct and token counts non-negative.
    pub closed spec fn wf(&self) -> bool {
        entries_wf(self.entries@)
    }

    /// An empty store.
    pub fn new() -> (res: Self)
        ensures
            res.wf(),
            res@ == Map::<Seq<u8>, EntryView>::empty(),
    {
        let res = CacheStore { entries: Vec::new() };
        assert(res@ =~= Map::<Seq<u8>, EntryView>::empty());
        res
    }

    fn find(&self, key: &[u8]) -> (res: Option<usize>)
        requires
            self.wf(),
        ensures
            match res {
                Some(i) => i < self.entries@.len() && self.entries@[i as int].key@ == key@,
                None => !self@.dom().contains(key@),
            },
    {
        let mut i: usize = 0;
        while i < self.entries.len()
            invariant
                i <= self.entries@.len(),
                forall|j: int| 0 <= j < i ==> self.entries@[j].key@ != key@,
            decreases self.entries@.len() - i,
        {
            if bytes_eq(self.entries[i].key.as_slice(), key) {
                return Some(i);
            }
            i = i + 1;
        }
        proof {
            lemma_view_dom(self.entries@, key@);
        }
        None
    }

    /// The token count and expiry time stored under `key`, if any.
    pub fn get(&self, key: &[u8]) -> (res: Option<(i32, u64)>)
        requires
            self.wf(),
        ensures
            match res {
                Some(v) => self@.dom().contains(key@) && self@[key@] == v && v.0 >= 0,
                None => !self@.dom().contains(key@),
            },
    {
        match self.find(key) {
            Some(i) => {
                proof {
                    lemma_view_at(self.entries@, i as int);
                }
                Some((self.entries[i].tokens, self.entries[i].expires_at))
            },
            None => None,
        }
    }

    /// Stores `tokens` and `expires_at` under `key`, replacing what was there.
    pub fn insert(&mut self, key: &[u8], tokens: i32, expires_at: u64)
        requires
            old(self).wf(),
            tokens >= 0,
        ensures
            final(self).wf(),
            final(self)@ == old(self)@.insert(key@, (tokens, expires_at)),
    {
        let mut k: Vec<u8> = Vec::new();
        k.extend_from_slice(key);
        assert(k@ =~= key@);
        let e = StoreEntry { key: k, tokens, expires_at };
        match self.find(key) {
            Some(i) => {
                proof {
                    lemma_view_update(self.entries@, i as int, e);
                }
                let ghost s = self.entries@;
                self.entries.set(i, e);
                assert(self.entries@ =~= s.update(i as int, e));
                assert forall|a: int, b: int| 0 <= a < b < self.entries@.len() implies self.entries@[a].key@ != self.entries@[b].key@ by {
                    assert(s[a].key@ != s[b].key@);
                }
            },
            None => {
                proof {
                    lemma_view_push(self.entries@, e);
                    lemma_view_dom(self.entries@, key@);
                }
                let ghost s = self.entries@;
                self.entries.push(e);
                assert forall|a: int, b: int| 0 <= a < b < self.entries@.len() implies self.entries@[a].key@ != self.entries@[b].key@ by {
                    if b == s.len() {
                        assert(self.entries@[a] == s[a]);
                    } else {
                        assert(s[a].key@ != s[b].key@);
                    }
                }
            },
        }
    }

    /// Removes every entry whose expiry time is not after `now`.
    pub fn retain_unexpired(&mut self, now: u64)
        requires
            old(self).wf(),
        ensures
            final(self).wf(),
            final(self)@ == unexpired(old(self)@, now),
    {
        let ghost s = self.entries@;
        let mut kept: Vec<StoreEntry> = Vec::new();
        let n = self.entries.len();
        let mut i: usize = 0;
        while i < n
            invariant
                n == s.len(),
                s == self.entries@,
                i <= n,
                entries_wf(s),
                entries_wf(kept@),
                forall|j: int| 0 <= j < kept@.len() ==> exists|t: int| 0 <= t < i && #[trigger] kept@[j].key@ == s[t].key@,
                entries_view(kept@) =~= unexpired(entries_view(s.take(i as int)), now),
            decreases n - i,
        {
            let src = &self.entries[i];
            assert(s.take(i + 1).drop_last() =~= s.take(i as int));
            assert(s.take(i + 1).last() == s[i as int]);
            proof {
                lemma_view_dom(s.take(i as int), src.key@);
                if entries_view(s.take(i as int)).dom().contains(src.key@) {
                    let t = choose|t: int| 0 <= t < s.take(i as int).len() && s.take(i as int)[t].key@ == src.key@;
                    assert(s[t].key@ == s[i as int].key@);
                }
            }
            if src.expires_at > now {
                let mut k: Vec<u8> = Vec::new();
                k.extend_from_slice(src.key.as_slice());
                assert(k@ =~= src.key@);
                let e = StoreEntry { key: k, tokens: src.tokens, expires_at: src.expires_at };
                proof {
                    lemma_view_push(kept@, e);
                    assert forall|j: int| 0 <= j < kept@.len() implies kept@[j].key@ != e.key@ by {
                        let t = choose|t: int| 0 <= t < i && kept@[j].key@ == s[t].key@;
                        assert(s[t].key@ != s[i as int].key@);
                    }
                }
                let ghost kept_before = kept@;
                kept.push(e);
                assert(forall|j: int| 0 <= j < kept_before.len() ==> kept@[j] == kept_before[j]);
                assert(kept@[kept_before.len() as int].key@ == s[i as int].key@);
            }
            i = i + 1;
        }
        assert(s.take(n as int) =~= s);
        self.entries = kept;
    }

    /// Removes every entry.
    pub fn clear(&mut self)
        ensures
            final(self).wf(),
            final(self)@ == Map::<Seq<u8>, EntryView>::empty(),
    {
        self.entries = Vec::new();
        assert(self@ =~= Map::<Seq<u8>, EntryView>::empty());
    }
}

} // verus!
