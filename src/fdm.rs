use vstd::prelude::*;

verus! {

/// One cached file: its path, how many users hold it, and when it was last handed out.
#[derive(Debug)]
pub struct FdEntry {
    pub path: String,
    pub in_use: u64,
    pub last_used: u64,
}

/// What the owner of the handles has to do after `get`.
#[derive(Debug, PartialEq, Eq, Structural)]
pub enum FdAction {
    /// The handle in this slot is already open: use it.
    Reuse(usize),
    /// Open the file into this new slot, after the others.
    Open(usize),
    /// Close the idle handle in this slot and open the file in its place.
    Replace(usize),
}

/// The bookkeeping of a bounded cache of open files: which slot holds which
/// path, who uses it, and which idle one was used least recently. A handle in
/// use is never evicted; when all are in use the cache grows past its bound
/// and shrinks back as handles are released.
#[derive(Debug)]
pub struct FileDescriptorManager {
    pub max_open: usize,
    pub entries: Vec<FdEntry>,
    pub clock: u64,
}

impl FileDescriptorManager {
    /// Paths are unique and every use time is in the past.
    pub open spec fn wf(&self) -> bool {
        &&& forall|i: int, j: int|
            0 <= i < j < self.entries@.len() ==> #[trigger] self.entries@[i].path@
                != #[trigger] self.entries@[j].path@
        &&& forall|i: int|
            0 <= i < self.entries@.len() ==> #[trigger] self.entries@[i].last_used < self.clock
    }

    /// Slot of `path`, if cached.
    pub open spec fn slot_of(&self, path: Seq<char>) -> Option<int> {
        if exists|i: int| 0 <= i < self.entries@.len() && #[trigger] self.entries@[i].path@ == path {
            Some(choose|i: int| 0 <= i < self.entries@.len() && #[trigger] self.entries@[i].path@ == path)
        } else {
            None
        }
    }

    /// Slot `j` is idle and no idle slot was used before it.
    pub open spec fn least_recent_idle(&self, j: int) -> bool {
        &&& 0 <= j < self.entries@.len()
        &&& self.entries@[j].in_use == 0
        &&& forall|i: int|
            0 <= i < self.entries@.len() && #[trigger] self.entries@[i].in_use == 0
                ==> self.entries@[j].last_used <= self.entries@[i].last_used
    }

    /// An empty cache of at most `max_open` idle handles.
    pub fn new(max_open: usize) -> (r: Self)
        ensures
            r.wf(),
            r.max_open == max_open,
            r.entries@.len() == 0,
    {
        FileDescriptorManager { max_open, entries: Vec::new(), clock: 0 }
    }

    /// Hands out the handle for `path`, telling the owner what to do: reuse the
    /// cached slot, open a new slot while under the bound, or else replace the
    /// least recently used idle slot; with every slot in use, a new slot is
    /// opened past the bound. The slot's user count goes up by one.
    pub fn get(&mut self, path: &String) -> (r: FdAction)
        requires
            old(self).wf(),
            old(self).clock < u64::MAX,
            forall|i: int|
                0 <= i < old(self).entries@.len() ==> #[trigger] old(self).entries@[i].in_use
                    < u64::MAX,
        ensures
            final(self).wf(),
            final(self).max_open == old(self).max_open,
            final(self).clock == old(self).clock + 1,
            match r {
                FdAction::Reuse(i) => {
                    &&& old(self).slot_of(path@) == Some(i as int)
                    &&& final(self).entries@.len() == old(self).entries@.len()
                    &&& final(self).entries@[i as int].in_use == old(self).entries@[i as int].in_use + 1
                },
                FdAction::Open(i) => {
                    &&& old(self).slot_of(path@) is None
                    &&& i == old(self).entries@.len()
                    &&& (old(self).entries@.len() < old(self).max_open || forall|k: int|
                        0 <= k < old(self).entries@.len() ==> (#[trigger] old(self).entries@[k]).in_use > 0)
                    &&& final(self).entries@.len() == old(self).entries@.len() + 1
                },
                FdAction::Replace(i) => {
                    &&& old(self).slot_of(path@) is None
                    &&& old(self).entries@.len() >= old(self).max_open
                    &&& old(self).least_recent_idle(i as int)
                    &&& final(self).entries@.len() == old(self).entries@.len()
                },
            },
            ({
                let i = match r {
                    FdAction::Reuse(i) => i,
                    FdAction::Open(i) => i,
                    FdAction::Replace(i) => i,
                };
                &&& i < final(self).entries@.len()
                &&& final(self).entries@[i as int].path@ == path@
                &&& final(self).entries@[i as int].last_used == old(self).clock
                &&& r is Open || r is Replace ==> final(self).entries@[i as int].in_use == 1
                &&& forall|k: int|
                    0 <= k < old(self).entries@.len() && k != i ==> #[trigger] final(self).entries@[k]
                        == old(self).entries@[k]
            }),
    {
        let now = self.clock;
        let mut i: usize = 0;
        while i < self.entries.len()
            invariant
                self.wf(),
                *self == *old(self),
                now == old(self).clock,
                old(self).clock < u64::MAX,
                forall|k: int|
                    0 <= k < old(self).entries@.len() ==> #[trigger] old(self).entries@[k].in_use
                        < u64::MAX,
                i <= self.entries@.len(),
                forall|k: int| 0 <= k < i ==> #[trigger] self.entries@[k].path@ != path@,
            decreases self.entries@.len() - i,
        {
            if self.entries[i].path == *path {
                let entry = FdEntry {
                    path: self.entries[i].path.clone(),
                    in_use: self.entries[i].in_use + 1,
                    last_used: now,
                };
                proof {
                    let k = self.slot_of(path@)->0;
                    assert(self.entries@[i as int].path@ == path@);
                    if k < i {
                        assert(self.entries@[k].path@ != self.entries@[i as int].path@);
                    } else if k > i {
                        assert(self.entries@[i as int].path@ != self.entries@[k].path@);
                    }
                }
                self.entries.set(i, entry);
                self.clock = now + 1;
                proof {
                    self.lemma_after_update(*old(self), i as int);
                }
                return FdAction::Reuse(i);
            }
            i = i + 1;
        }
        let entry = FdEntry { path: path.clone(), in_use: 1, last_used: now };
        if self.entries.len() < self.max_open {
            self.entries.push(entry);
            self.clock = now + 1;
            proof {
                self.lemma_after_push(*old(self));
            }
            return FdAction::Open(self.entries.len() - 1);
        }
        match self.least_recent_idle_slot() {
            Some(j) => {
                self.entries.set(j, entry);
                self.clock = now + 1;
                proof {
                    self.lemma_after_update(*old(self), j as int);
                }
                FdAction::Replace(j)
            },
            None => {
                self.entries.push(entry);
                self.clock = now + 1;
                proof {
                    self.lemma_after_push(*old(self));
                }
                FdAction::Open(self.entries.len() - 1)
            },
        }
    }

    /// The idle slot used least recently, if any slot is idle.
    fn least_recent_idle_slot(&self) -> (r: Option<usize>)
        ensures
            r matches Some(j) ==> self.least_recent_idle(j as int),
            r is None ==> forall|k: int|
                0 <= k < self.entries@.len() ==> #[trigger] self.entries@[k].in_use > 0,
    {
        let mut best: Option<usize> = None;
        let mut i: usize = 0;
        while i < self.entries.len()
            invariant
                i <= self.entries@.len(),
                best matches Some(j) ==> j < i && self.entries@[j as int].in_use == 0,
                best matches Some(j) ==> forall|k: int|
                    0 <= k < i && #[trigger] self.entries@[k].in_use == 0
                        ==> self.entries@[j as int].last_used <= self.entries@[k].last_used,
                best is None ==> forall|k: int| 0 <= k < i ==> #[trigger] self.entries@[k].in_use > 0,
            decreases self.entries@.len() - i,
        {
            if self.entries[i].in_use == 0 {
                match best {
                    Some(j) => {
                        if self.entries[i].last_used < self.entries[j].last_used {
                            best = Some(i);
                        }
                    },
                    None => {
                        best = Some(i);
                    },
                }
            }
            i = i + 1;
        }
        best
    }

    /// Gives back one use of slot `i`. Returns true when the owner must now
    /// close that handle and drop the slot, moving the last slot into it: the
    /// handle is idle and the cache is over its bound.
    pub fn release(&mut self, i: usize) -> (r: bool)
        requires
            old(self).wf(),
            i < old(self).entries@.len(),
            old(self).entries@[i as int].in_use > 0,
        ensures
            final(self).wf(),
            final(self).max_open == old(self).max_open,
            final(self).clock == old(self).clock,
            r == (old(self).entries@[i as int].in_use == 1 && old(self).entries@.len()
                > old(self).max_open),
            !r ==> final(self).entries@.len() == old(self).entries@.len() && final(self).entries@[i as int].in_use == old(self).entries@[i as int].in_use - 1 && forall|k: int|
                0 <= k < old(self).entries@.len() && k != i ==> #[trigger] final(self).entries@[k]
                    == old(self).entries@[k],
            r ==> final(self).entries@ == old(self).entries@.update(
                i as int,
                old(self).entries@.last(),
            ).drop_last(),
    {
        let in_use = self.entries[i].in_use - 1;
        if in_use == 0 && self.entries.len() > self.max_open {
            let ghost before = self.entries@;
            self.entries.swap_remove(i);
            proof {
                assert(self.entries@ =~= before.update(i as int, before.last()).drop_last());
                assert forall|a: int, b: int|
                    0 <= a < b < self.entries@.len() implies #[trigger] self.entries@[a].path@
                    != #[trigger] self.entries@[b].path@ by {
                    let a0 = if a == i { before.len() - 1 } else { a };
                    let b0 = if b == i { before.len() - 1 } else { b };
                    assert(self.entries@[a] == before[a0] && self.entries@[b] == before[b0]);
                    if a0 < b0 {
                        assert(before[a0].path@ != before[b0].path@);
                    } else {
                        assert(before[b0].path@ != before[a0].path@);
                    }
                }
            }
            true
        } else {
            let entry = FdEntry {
                path: self.entries[i].path.clone(),
                in_use,
                last_used: self.entries[i].last_used,
            };
            self.entries.set(i, entry);
            proof {
                assert forall|a: int, b: int|
                    0 <= a < b < self.entries@.len() implies #[trigger] self.entries@[a].path@
                    != #[trigger] self.entries@[b].path@ by {
                    assert(old(self).entries@[a].path@ != old(self).entries@[b].path@);
                }
            }
            false
        }
    }

    proof fn lemma_after_update(&self, old: FileDescriptorManager, i: int)
        requires
            old.wf(),
            0 <= i < old.entries@.len(),
            self.entries@.len() == old.entries@.len(),
            self.clock == old.clock + 1,
            self.entries@[i].last_used == old.clock,
            forall|k: int| 0 <= k < old.entries@.len() && k != i ==> #[trigger] self.entries@[k] == old.entries@[k],
            forall|k: int|
                0 <= k < old.entries@.len() && k != i ==> #[trigger] old.entries@[k].path@
                    != self.entries@[i].path@,
        ensures
            self.wf(),
    {
        assert forall|a: int, b: int|
            0 <= a < b < self.entries@.len() implies #[trigger] self.entries@[a].path@
            != #[trigger] self.entries@[b].path@ by {
            if a != i && b != i {
                assert(old.entries@[a].path@ != old.entries@[b].path@);
            }
        }
        assert forall|k: int| 0 <= k < self.entries@.len() implies #[trigger] self.entries@[k].last_used
            < self.clock by {
            if k != i {
                assert(old.entries@[k].last_used < old.clock);
            }
        }
    }

    proof fn lemma_after_push(&self, old: FileDescriptorManager)
        requires
            old.wf(),
            self.entries@.len() == old.entries@.len() + 1,
            self.clock == old.clock + 1,
            self.entries@.last().last_used == old.clock,
            forall|k: int| 0 <= k < old.entries@.len() ==> #[trigger] self.entries@[k] == old.entries@[k],
            forall|k: int|
                0 <= k < old.entries@.len() ==> #[trigger] old.entries@[k].path@
                    != self.entries@.last().path@,
        ensures
            self.wf(),
    {
        let n = old.entries@.len() as int;
        assert forall|a: int, b: int|
            0 <= a < b < self.entries@.len() implies #[trigger] self.entries@[a].path@
            != #[trigger] self.entries@[b].path@ by {
            if b < n {
                assert(old.entries@[a].path@ != old.entries@[b].path@);
            } else {
                assert(old.entries@[a].path@ != self.entries@[n].path@);
            }
        }
        assert forall|k: int| 0 <= k < self.entries@.len() implies #[trigger] self.entries@[k].last_used
            < self.clock by {
            if k < n {
                assert(old.entries@[k].last_used < old.clock);
            }
        }
    }
}

} // verus!
