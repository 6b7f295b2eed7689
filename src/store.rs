use vstd::prelude::*;

verus! {

/// Copies `v[lo..hi]` into a fresh vector.
pub fn copy_range(v: &Vec<u8>, lo: usize, hi: usize) -> (r: Vec<u8>)
    requires
        lo <= hi <= v@.len(),
    ensures
        r@ == v@.subrange(lo as int, hi as int),
{
    let mut r: Vec<u8> = Vec::with_capacity(hi - lo);
    let mut i: usize = lo;
    while i < hi
        invariant
            lo <= i <= hi <= v@.len(),
            r@ == v@.subrange(lo as int, i as int),
        decreases hi - i,
    {
        r.push(v[i]);
        i = i + 1;
        assert(r@ =~= v@.subrange(lo as int, i as int));
    }
    r
}

/// One published payload: the bytes offered for one target.
struct Payload {
    pub target: u32,
    pub data: Vec<u8>,
}

/// The payloads published under one selection, one per target, in the
/// order in which the targets were first published.
pub struct TargetTable {
    entries: Vec<Payload>,
}

impl TargetTable {
    /// The targets, in order.
    pub closed spec fn targets(&self) -> Seq<u32> {
        self.entries@.map_values(|p: Payload| p.target)
    }

    /// The bytes published for `target`, if any.
    pub closed spec fn lookup(&self, target: u32) -> Option<Seq<u8>> {
        if exists|i: int| 0 <= i < self.entries@.len() && self.entries@[i].target == target {
            let i = choose|i: int| 0 <= i < self.entries@.len() && self.entries@[i].target == target;
            Some(self.entries@[i].data@)
        } else {
            None
        }
    }

    /// No target appears twice.
    pub closed spec fn wf(&self) -> bool {
        forall|i: int, j: int|
            0 <= i < j < self.entries@.len() ==> self.entries@[i].target != self.entries@[j].target
    }

    proof fn lemma_lookup_iff_listed(&self, target: u32)
        requires
            self.wf(),
        ensures
            self.lookup(target) is Some <==> self.targets().contains(target),
            self.targets().no_duplicates(),
    {
        assert forall|i: int, j: int|
            0 <= i < self.targets().len() && 0 <= j < self.targets().len() && i != j implies self.targets()[i]
            != self.targets()[j] by {
            if i < j {
                assert(self.entries@[i].target != self.entries@[j].target);
            } else {
                assert(self.entries@[j].target != self.entries@[i].target);
            }
        }
        if self.lookup(target) is Some {
            let i = choose|i: int| 0 <= i < self.entries@.len() && self.entries@[i].target == target;
            assert(self.targets()[i] == target);
        }
        if self.targets().contains(target) {
            let i = choose|i: int| 0 <= i < self.targets().len() && self.targets()[i] == target;
            assert(self.entries@[i].target == target);
        }
    }

    proof fn lemma_lookup_at(&self, i: int)
        requires
            self.wf(),
            0 <= i < self.entries@.len(),
        ensures
            self.lookup(self.entries@[i].target) == Some(self.entries@[i].data@),
    {
        let t = self.entries@[i].target;
        let j = choose|j: int| 0 <= j < self.entries@.len() && self.entries@[j].target == t;
        assert(i == j);
    }

    /// A table with no targets.
    pub fn new() -> (r: TargetTable)
        ensures
            r.wf(),
            r.targets() == Seq::<u32>::empty(),
            forall|t: u32| r.lookup(t) is None,
    {
        let r = TargetTable { entries: Vec::new() };
        assert(r.targets() =~= Seq::<u32>::empty());
        r
    }

    fn find(&self, target: u32) -> (r: Option<usize>)
        requires
            self.wf(),
        ensures
            match r {
                Some(i) => i < self.entries@.len() && self.entries@[i as int].target == target,
                None => forall|i: int| 0 <= i < self.entries@.len() ==> self.entries@[i].target != target,
            },
    {
        let mut i: usize = 0;
        while i < self.entries.len()
            invariant
                i <= self.entries@.len(),
                forall|k: int| 0 <= k < i ==> self.entries@[k].target != target,
            decreases self.entries@.len() - i,
        {
            if self.entries[i].target == target {
                return Some(i);
            }
            i = i + 1;
        }
        None
    }

    /// The bytes published for `target`.
    pub fn get(&self, target: u32) -> (r: Option<&Vec<u8>>)
        requires
            self.wf(),
        ensures
            match r {
                Some(v) => self.lookup(target) == Some(v@),
                None => self.lookup(target) is None,
            },
    {
        match self.find(target) {
            Some(i) => {
                proof { self.lemma_lookup_at(i as int); }
                Some(&self.entries[i].data)
            },
            None => None,
        }
    }

    /// Publishes `data` for `target`, replacing what was there. A new target
    /// goes to the end of the list.
    pub fn set(&mut self, target: u32, data: Vec<u8>)
        requires
            old(self).wf(),
        ensures
            final(self).wf(),
            final(self).lookup(target) == Some(data@),
            forall|t: u32| t != target ==> final(self).lookup(t) == old(self).lookup(t),
            old(self).lookup(target) is Some ==> final(self).targets() == old(self).targets(),
            old(self).lookup(target) is None ==> final(self).targets() == old(self).targets().push(target),
    {
        let ghost d = data@;
        match self.find(target) {
            Some(i) => {
                proof { old(self).lemma_lookup_at(i as int); }
                self.entries.set(i, Payload { target, data });
                assert(self.targets() =~= old(self).targets());
                proof {
                    self.lemma_lookup_at(i as int);
                    assert forall|t: u32| t != target implies self.lookup(t) == old(self).lookup(t) by {
                        if old(self).lookup(t) is Some {
                            let j = choose|j: int| 0 <= j < old(self).entries@.len() && old(self).entries@[j].target == t;
                            old(self).lemma_lookup_at(j);
                            self.lemma_lookup_at(j);
                        }
                        if self.lookup(t) is Some {
                            let j = choose|j: int| 0 <= j < self.entries@.len() && self.entries@[j].target == t;
                            self.lemma_lookup_at(j);
                        }
                    }
                }
            },
            None => {
                self.entries.push(Payload { target, data });
                assert(self.targets() =~= old(self).targets().push(target));
                proof {
                    let n = old(self).entries@.len() as int;
                    self.lemma_lookup_at(n);
                    assert forall|t: u32| t != target implies self.lookup(t) == old(self).lookup(t) by {
                        if old(self).lookup(t) is Some {
                            let j = choose|j: int| 0 <= j < old(self).entries@.len() && old(self).entries@[j].target == t;
                            old(self).lemma_lookup_at(j);
                            self.lemma_lookup_at(j);
                        }
                        if self.lookup(t) is Some {
                            let j = choose|j: int| 0 <= j < self.entries@.len() && self.entries@[j].target == t;
                            self.lemma_lookup_at(j);
                        }
                    }
                }
            },
        }
    }

    /// The listed targets, in order.
    pub fn target_list(&self) -> (r: Vec<u32>)
        ensures
            r@ == self.targets(),
    {
        let mut r: Vec<u32> = Vec::new();
        let mut i: usize = 0;
        while i < self.entries.len()
            invariant
                i <= self.entries@.len(),
                r@ == self.targets().subrange(0, i as int),
            decreases self.entries@.len() - i,
        {
            r.push(self.entries[i].target);
            i = i + 1;
            assert(r@ =~= self.targets().subrange(0, i as int));
        }
        assert(r@ =~= self.targets());
        r
    }
}

/// The payloads published under one selection.
struct Selection {
    pub selection: u32,
    pub table: TargetTable,
}

/// Everything published, by selection and then by target.
pub struct Store {
    selections: Vec<Selection>,
}

impl Store {
    /// The table published under `selection`, if this store holds it.
    pub closed spec fn table_of(&self, selection: u32) -> Option<TargetTable> {
        if exists|i: int| 0 <= i < self.selections@.len() && self.selections@[i].selection == selection {
            let i = choose|i: int|
                0 <= i < self.selections@.len() && self.selections@[i].selection == selection;
            Some(self.selections@[i].table)
        } else {
            None
        }
    }

    /// The bytes published for `target` under `selection`.
    pub open spec fn lookup(&self, selection: u32, target: u32) -> Option<Seq<u8>> {
        match self.table_of(selection) {
            Some(t) => t.lookup(target),
            None => None,
        }
    }

    /// No selection appears twice, and each table is well formed.
    pub closed spec fn wf(&self) -> bool {
        &&& forall|i: int, j: int|
            0 <= i < j < self.selections@.len() ==> self.selections@[i].selection
                != self.selections@[j].selection
        &&& forall|i: int| 0 <= i < self.selections@.len() ==> (#[trigger] self.selections@[i]).table.wf()
    }

    proof fn lemma_table_at(&self, i: int)
        requires
            self.wf(),
            0 <= i < self.selections@.len(),
        ensures
            self.table_of(self.selections@[i].selection) == Some(self.selections@[i].table),
    {
        let s = self.selections@[i].selection;
        let j = choose|j: int| 0 <= j < self.selections@.len() && self.selections@[j].selection == s;
        assert(i == j);
    }

    /// The answer to a supported-targets request for `selection` lists
    /// exactly the targets that have a payload under it, each once, and then
    /// the pseudo-target `pseudo`, whatever targets were published.
    pub proof fn lemma_listed_targets(&self, selection: u32, pseudo: u32)
        requires
            self.wf(),
            self.table_of(selection) is Some,
        ensures
            forall|x: u32|
                #[trigger] self.table_of(selection).unwrap().targets().push(pseudo).contains(x) <==> (
                x == pseudo || self.lookup(selection, x) is Some),
            self.table_of(selection).unwrap().targets().no_duplicates(),
            self.table_of(selection).unwrap().targets().push(pseudo).last() == pseudo,
    {
        let t = self.table_of(selection).unwrap();
        let i = choose|i: int|
            0 <= i < self.selections@.len() && self.selections@[i].selection == selection;
        assert(t.wf());
        let listed = t.targets().push(pseudo);
        assert forall|x: u32| #[trigger] listed.contains(x) <==> (x == pseudo || t.lookup(x) is Some) by {
            t.lemma_lookup_iff_listed(x);
            if listed.contains(x) && x != pseudo {
                let k = choose|k: int| 0 <= k < listed.len() && listed[k] == x;
                assert(k < t.targets().len());
                assert(t.targets()[k] == x);
            }
            if t.targets().contains(x) {
                let k = choose|k: int| 0 <= k < t.targets().len() && t.targets()[k] == x;
                assert(listed[k] == x);
            }
            if x == pseudo {
                assert(listed[listed.len() - 1] == x);
            }
        }
        t.lemma_lookup_iff_listed(pseudo);
    }

    /// A store that holds no selection.
    pub fn new() -> (r: Store)
        ensures
            r.wf(),
            forall|s: u32| r.table_of(s) is None,
    {
        Store { selections: Vec::new() }
    }

    fn find(&self, selection: u32) -> (r: Option<usize>)
        ensures
            match r {
                Some(i) => i < self.selections@.len() && self.selections@[i as int].selection == selection,
                None => forall|i: int|
                    0 <= i < self.selections@.len() ==> self.selections@[i].selection != selection,
            },
    {
        let mut i: usize = 0;
        while i < self.selections.len()
            invariant
                i <= self.selections@.len(),
                forall|k: int| 0 <= k < i ==> self.selections@[k].selection != selection,
            decreases self.selections@.len() - i,
        {
            if self.selections[i].selection == selection {
                return Some(i);
            }
            i = i + 1;
        }
        None
    }

    /// The table published under `selection`.
    pub fn get(&self, selection: u32) -> (r: Option<&TargetTable>)
        requires
            self.wf(),
        ensures
            match r {
                Some(t) => self.table_of(selection) == Some(*t) && t.wf(),
                None => self.table_of(selection) is None,
            },
    {
        match self.find(selection) {
            Some(i) => {
                proof { self.lemma_table_at(i as int); }
                Some(&self.selections[i].table)
            },
            None => None,
        }
    }

    /// Publishes `data` for `target` under `selection`, replacing what was
    /// there and leaving every other entry as it was.
    pub fn set(&mut self, selection: u32, target: u32, data: Vec<u8>)
        requires
            old(self).wf(),
        ensures
            final(self).wf(),
            final(self).lookup(selection, target) == Some(data@),
            forall|s: u32, t: u32|
                (s, t) != (selection, target) ==> final(self).lookup(s, t) == old(self).lookup(s, t),
            forall|s: u32| s != selection ==> final(self).table_of(s) == old(self).table_of(s),
            final(self).table_of(selection) is Some,
    {
        let ghost d = data@;
        match self.find(selection) {
            Some(i) => {
                proof { old(self).lemma_table_at(i as int); }
                let mut e = self.selections.remove(i);
                let ghost t0 = e.table;
                e.table.set(target, data);
                self.selections.insert(i, e);
                proof {
                    assert(self.selections@ =~= old(self).selections@.update(i as int, e));
                    self.lemma_table_at(i as int);
                    assert forall|s: u32| s != selection implies self.table_of(s) == old(self).table_of(s) by {
                        if old(self).table_of(s) is Some {
                            let j = choose|j: int| 0 <= j < old(self).selections@.len() && old(self).selections@[j].selection == s;
                            old(self).lemma_table_at(j);
                            self.lemma_table_at(j);
                        }
                        if self.table_of(s) is Some {
                            let j = choose|j: int| 0 <= j < self.selections@.len() && self.selections@[j].selection == s;
                            self.lemma_table_at(j);
                        }
                    }
                }
            },
            None => {
                let mut table = TargetTable::new();
                table.set(target, data);
                self.selections.push(Selection { selection, table });
                proof {
                    let n = old(self).selections@.len() as int;
                    self.lemma_table_at(n);
                    assert forall|s: u32| s != selection implies self.table_of(s) == old(self).table_of(s) by {
                        if old(self).table_of(s) is Some {
                            let j = choose|j: int| 0 <= j < old(self).selections@.len() && old(self).selections@[j].selection == s;
                            old(self).lemma_table_at(j);
                            self.lemma_table_at(j);
                        }
                        if self.table_of(s) is Some {
                            let j = choose|j: int| 0 <= j < self.selections@.len() && self.selections@[j].selection == s;
                            self.lemma_table_at(j);
                        }
                    }
                }
            },
        }
    }

    /// Forgets everything published under `selection`.
    pub fn remove(&mut self, selection: u32)
        requires
            old(self).wf(),
        ensures
            final(self).wf(),
            final(self).table_of(selection) is None,
            forall|s: u32| s != selection ==> final(self).table_of(s) == old(self).table_of(s),
    {
        match self.find(selection) {
            Some(i) => {
                self.selections.remove(i);
                proof {
                    assert forall|k: int| 0 <= k < self.selections@.len() implies self.selections@[k].selection != selection by {
                        if k < i {
                            assert(self.selections@[k] == old(self).selections@[k]);
                        } else {
                            assert(self.selections@[k] == old(self).selections@[k + 1]);
                        }
                    }
                    assert forall|s: u32| s != selection implies self.table_of(s) == old(self).table_of(s) by {
                        if old(self).table_of(s) is Some {
                            let j = choose|j: int| 0 <= j < old(self).selections@.len() && old(self).selections@[j].selection == s;
                            old(self).lemma_table_at(j);
                            let k = if j < i { j } else { j - 1 };
                            assert(self.selections@[k] == old(self).selections@[j]);
                            self.lemma_table_at(k);
                        }
                        if self.table_of(s) is Some {
                            let k = choose|k: int| 0 <= k < self.selections@.len() && self.selections@[k].selection == s;
                            self.lemma_table_at(k);
                            let j = if k < i { k } else { k + 1 };
                            assert(self.selections@[k] == old(self).selections@[j]);
                            old(self).lemma_table_at(j);
                        }
                    }
                }
            },
            None => {},
        }
    }
}

} // verus!
