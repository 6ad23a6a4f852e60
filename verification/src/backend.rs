use vstd::prelude::*;

verus! {

/// One stored binding: a value and an optional absolute deadline (in
/// seconds) after which the binding no longer answers reads.
pub struct Entry {
    pub key: Vec<u8>,
    pub val: Vec<u8>,
    pub expires: Option<u64>,
}

/// Model of one binding.
pub struct EntryS {
    pub val: Seq<u8>,
    pub expires: Option<u64>,
}

/// Whether a binding still answers at time `now`.
pub open spec fn live(e: EntryS, now: u64) -> bool {
    match e.expires {
        None => true,
        Some(d) => now < d,
    }
}

/// What a read of `k` at time `now` yields from the model `m`.
pub open spec fn lookup(m: Map<Seq<u8>, EntryS>, k: Seq<u8>, now: u64) -> Option<Seq<u8>> {
    if m.contains_key(k) && live(m[k], now) {
        Some(m[k].val)
    } else {
        None
    }
}

pub open spec fn entry_model(e: Entry) -> EntryS {
    EntryS { val: e.val@, expires: e.expires }
}

/// Model of a run of bindings: later bindings would win, though the
/// store never holds a key twice.
pub open spec fn store_map(entries: Seq<Entry>) -> Map<Seq<u8>, EntryS>
    decreases entries.len(),
{
    if entries.len() == 0 {
        Map::empty()
    } else {
        store_map(entries.drop_last()).insert(
            entries.last().key@,
            entry_model(entries.last()),
        )
    }
}

/// No key appears twice.
pub open spec fn keys_unique(entries: Seq<Entry>) -> bool {
    forall|i: int, j: int| 0 <= i < j < entries.len() ==> (#[trigger] entries[i]).key@ != (
    #[trigger] entries[j]).key@
}

/// The shared key-value store: a mapping from byte-string keys to
/// byte-string values with optional expiry. One instance serves every
/// connection; the surrounding process guards it with whatever
/// synchronization its runtime offers, so each operation here is one
/// atomic step of the model.
pub struct Backend {
    entries: Vec<Entry>,
}

impl View for Backend {
    type V = Map<Seq<u8>, EntryS>;

    closed spec fn view(&self) -> Map<Seq<u8>, EntryS> {
        store_map(self.entries@)
    }
}

/// The model's domain is exactly the keys on hand, and under unique
/// keys each binding is its own key's image.
proof fn lemma_store_map(entries: Seq<Entry>)
    requires
        keys_unique(entries),
    ensures
        forall|k: Seq<u8>| store_map(entries).contains_key(k) <==> exists|i: int|
            0 <= i < entries.len() && (#[trigger] entries[i]).key@ == k,
        forall|i: int| 0 <= i < entries.len() ==> store_map(entries)[(
        #[trigger] entries[i]).key@] == entry_model(entries[i]),
    decreases entries.len(),
{
    if entries.len() > 0 {
        let head = entries.drop_last();
        assert(keys_unique(head)) by {
            assert(forall|i: int| 0 <= i < head.len() ==> #[trigger] head[i] == entries[i]);
        }
        lemma_store_map(head);
        assert forall|k: Seq<u8>| store_map(entries).contains_key(k) implies exists|i: int|
            0 <= i < entries.len() && (#[trigger] entries[i]).key@ == k by {
            if k == entries.last().key@ {
                assert(entries[entries.len() - 1].key@ == k);
            } else {
                let i = choose|i: int| 0 <= i < head.len() && (#[trigger] head[i]).key@ == k;
                assert(entries[i].key@ == k);
            }
        }
        assert forall|k: Seq<u8>|
            (exists|i: int| 0 <= i < entries.len() && (#[trigger] entries[i]).key@
                == k) implies store_map(entries).contains_key(k) by {
            let i = choose|i: int| 0 <= i < entries.len() && (#[trigger] entries[i]).key@ == k;
            if i < entries.len() - 1 {
                assert(head[i].key@ == k);
            }
        }
        assert forall|i: int| 0 <= i < entries.len() implies store_map(entries)[(
        #[trigger] entries[i]).key@] == entry_model(entries[i]) by {
            if i < entries.len() - 1 {
                assert(head[i] == entries[i]);
                assert(entries[i].key@ != entries.last().key@);
            }
        }
    }
}

/// Copies a byte string.
pub fn copy_bytes(v: &Vec<u8>) -> (out: Vec<u8>)
    ensures
        out@ == v@,
{
    let mut out: Vec<u8> = Vec::new();
    let mut j: usize = 0;
    while j < v.len()
        invariant
            j <= v@.len(),
            out@ == v@.take(j as int),
        decreases v@.len() - j,
    {
        out.push(v[j]);
        assert(out@ =~= v@.take(j as int + 1));
        j = j + 1;
    }
    assert(v@.take(j as int) =~= v@);
    out
}

/// Whether two byte strings hold the same bytes.
pub fn eq_bytes(a: &Vec<u8>, b: &Vec<u8>) -> (r: bool)
    ensures
        r == (a@ == b@),
{
    if a.len() != b.len() {
        return false;
    }
    let mut j: usize = 0;
    while j < a.len()
        invariant
            a@.len() == b@.len(),
            j <= a@.len(),
            forall|i: int| 0 <= i < j ==> a@[i] == #[trigger] b@[i],
        decreases a@.len() - j,
    {
        if a[j] != b[j] {
            return false;
        }
        j = j + 1;
    }
    assert(a@ =~= b@);
    true
}

impl Backend {
    /// The empty store.
    pub fn new() -> (r: Backend)
        ensures
            r.wf(),
            r@ == Map::<Seq<u8>, EntryS>::empty(),
    {
        Backend { entries: Vec::new() }
    }

    /// Every key is held at most once.
    pub closed spec fn wf(&self) -> bool {
        keys_unique(self.entries@)
    }

    /// Index of the binding for `k`, if one is held.
    fn find(&self, k: &Vec<u8>) -> (r: Option<usize>)
        ensures
            match r {
                Some(i) => i < self.entries@.len() && self.entries@[i as int].key@ == k@,
                None => forall|j: int| 0 <= j < self.entries@.len() ==> (
                #[trigger] self.entries@[j]).key@ != k@,
            },
    {
        let mut j: usize = 0;
        while j < self.entries.len()
            invariant
                j <= self.entries@.len(),
                forall|i: int| 0 <= i < j ==> (#[trigger] self.entries@[i]).key@ != k@,
            decreases self.entries@.len() - j,
        {
            if eq_bytes(&self.entries[j].key, k) {
                return Some(j);
            }
            j = j + 1;
        }
        None
    }

    /// Reads `k` at time `now`: the stored value while the binding is
    /// held and not expired, nothing otherwise.
    pub fn get(&self, k: &Vec<u8>, now: u64) -> (r: Option<Vec<u8>>)
        requires
            self.wf(),
        ensures
            match r {
                Some(v) => lookup(self@, k@, now) == Some(v@),
                None => lookup(self@, k@, now) == None::<Seq<u8>>,
            },
    {
        proof {
            lemma_store_map(self.entries@);
        }
        match self.find(k) {
            None => {
                assert(!self@.contains_key(k@));
                None
            },
            Some(i) => {
                let e = &self.entries[i];
                assert(self@[k@] == entry_model(self.entries@[i as int]));
                match e.expires {
                    None => Some(copy_bytes(&e.val)),
                    Some(d) => if now < d {
                        Some(copy_bytes(&e.val))
                    } else {
                        None
                    },
                }
            },
        }
    }

    /// Removes the binding for `k`, reporting whether a live one was
    /// held at time `now`.
    pub fn del(&mut self, k: &Vec<u8>, now: u64) -> (removed: bool)
        requires
            old(self).wf(),
        ensures
            final(self).wf(),
            final(self)@ == old(self)@.remove(k@),
            removed == (lookup(old(self)@, k@, now) is Some),
    {
        proof {
            lemma_store_map(self.entries@);
        }
        match self.find(k) {
            None => {
                assert(!self@.contains_key(k@));
                assert(self@.remove(k@) =~= self@);
                false
            },
            Some(i) => {
                assert(self@[k@] == entry_model(self.entries@[i as int]));
                let ghost before = self.entries@;
                let e = self.entries.remove(i);
                proof {
                    lemma_remove_commutes(before, i as int);
                    assert(keys_unique(self.entries@)) by {
                        lemma_unique_remove(before, i as int);
                    }
                }
                match e.expires {
                    None => true,
                    Some(d) => now < d,
                }
            },
        }
    }

    /// Binds `k` to `v` with the given absolute deadline, replacing any
    /// older binding; reports the value a read at `now` would have
    /// yielded just before.
    pub fn set(&mut self, k: &Vec<u8>, v: Vec<u8>, expires: Option<u64>, now: u64) -> (prev:
        Option<Vec<u8>>)
        requires
            old(self).wf(),
        ensures
            final(self).wf(),
            final(self)@ == old(self)@.insert(k@, EntryS { val: v@, expires }),
            match prev {
                Some(p) => lookup(old(self)@, k@, now) == Some(p@),
                None => lookup(old(self)@, k@, now) == None::<Seq<u8>>,
            },
    {
        let prev = self.get(k, now);
        let ghost mid = self@;
        let _ = self.del(k, now);
        assert(self@ == mid.remove(k@));
        let ghost after_del = self.entries@;
        let key = copy_bytes(k);
        self.entries.push(Entry { key, val: v, expires });
        proof {
            let pushed = self.entries@;
            let e = EntryS { val: v@, expires };
            assert(pushed.drop_last() =~= after_del);
            assert(store_map(pushed) == store_map(after_del).insert(k@, e));
            assert(mid.remove(k@).insert(k@, e) =~= mid.insert(k@, e));
            lemma_store_map(after_del);
            assert(!store_map(after_del).contains_key(k@));
            assert(keys_unique(pushed)) by {
                assert forall|i: int, j: int| 0 <= i < j < pushed.len() implies (
                #[trigger] pushed[i]).key@ != (#[trigger] pushed[j]).key@ by {
                    if j == pushed.len() - 1 {
                        assert(pushed[i] == after_del[i]);
                        assert(pushed[j].key@ == k@);
                        if after_del[i].key@ == k@ {
                            assert(store_map(after_del).contains_key(k@));
                        }
                    } else {
                        assert(pushed[i] == after_del[i] && pushed[j] == after_del[j]);
                    }
                }
            }
        }
        prev
    }
}

/// Dropping one binding drops exactly its key from the model.
proof fn lemma_remove_commutes(entries: Seq<Entry>, i: int)
    requires
        keys_unique(entries),
        0 <= i < entries.len(),
    ensures
        store_map(entries.remove(i)) == store_map(entries).remove(entries[i].key@),
    decreases entries.len(),
{
    let k = entries[i].key@;
    let head = entries.drop_last();
    assert(keys_unique(head)) by {
        assert(forall|n: int| 0 <= n < head.len() ==> #[trigger] head[n] == entries[n]);
    }
    if i == entries.len() - 1 {
        assert(entries.remove(i) =~= head);
        lemma_store_map(head);
        assert(!store_map(head).contains_key(k));
        assert(store_map(entries).remove(k) =~= store_map(head));
    } else {
        lemma_remove_commutes(head, i);
        assert(entries.remove(i).drop_last() =~= head.remove(i));
        assert(entries.remove(i).last() == entries.last());
        assert(store_map(entries.remove(i)) == store_map(head.remove(i)).insert(
            entries.last().key@,
            entry_model(entries.last()),
        ));
        assert(k != entries.last().key@);
        assert(store_map(head).remove(k).insert(
            entries.last().key@,
            entry_model(entries.last()),
        ) =~= store_map(head).insert(
            entries.last().key@,
            entry_model(entries.last()),
        ).remove(k));
    }
}

/// Dropping a binding keeps the remaining keys unique.
proof fn lemma_unique_remove(entries: Seq<Entry>, i: int)
    requires
        keys_unique(entries),
        0 <= i < entries.len(),
    ensures
        keys_unique(entries.remove(i)),
{
    let r = entries.remove(i);
    assert forall|a: int, b: int| 0 <= a < b < r.len() implies (#[trigger] r[a]).key@ != (
    #[trigger] r[b]).key@ by {
        let a0 = if a < i {
            a
        } else {
            a + 1
        };
        let b0 = if b < i {
            b
        } else {
            b + 1
        };
        assert(r[a] == entries[a0] && r[b] == entries[b0]);
    }
}

} // verus!
