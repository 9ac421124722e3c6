//! Models of the loader's two collaborators: the inactive page table the
//! kernel is mapped into, and the boot-stage frame allocator.  Both are
//! exact: the page table is an association list of page-to-frame mappings
//! viewed as a `Map`, the allocator hands out a caller-supplied list of
//! fresh frames in order.

use vstd::prelude::*;

verus! {

/// Permission bits attached to a mapped page.
#[derive(Clone, Copy, Debug, PartialEq, Eq, Structural)]
pub struct PageFlags {
    pub present: bool,
    pub writable: bool,
    pub no_execute: bool,
}

/// What a page is mapped to: a frame base address and the flags.
#[derive(Clone, Copy, Debug, PartialEq, Eq, Structural)]
pub struct MapTarget {
    pub frame: u64,
    pub flags: PageFlags,
}

/// True when some entry of `s` maps page `p`.
pub open spec fn table_keyed(s: Seq<(u64, MapTarget)>, p: u64) -> bool {
    exists|i: int| 0 <= i < s.len() && s[i].0 == p
}

/// The mapping stored for page `p` (meaningful when `table_keyed`).
pub open spec fn table_value(s: Seq<(u64, MapTarget)>, p: u64) -> MapTarget {
    s[choose|i: int| 0 <= i < s.len() && s[i].0 == p].1
}

/// The association list as a map from pages to targets.
pub open spec fn table_map(s: Seq<(u64, MapTarget)>) -> Map<u64, MapTarget> {
    Map::new(|p: u64| table_keyed(s, p), |p: u64| table_value(s, p))
}

/// No page occurs twice.
pub open spec fn table_distinct(s: Seq<(u64, MapTarget)>) -> bool {
    forall|i: int, j: int| 0 <= i < j < s.len() ==> s[i].0 != s[j].0
}

proof fn lemma_table_index(s: Seq<(u64, MapTarget)>, i: int)
    requires
        table_distinct(s),
        0 <= i < s.len(),
    ensures
        table_map(s).contains_key(s[i].0),
        table_map(s)[s[i].0] == s[i].1,
{
    let p = s[i].0;
    assert(table_keyed(s, p));
    let j = choose|j: int| 0 <= j < s.len() && s[j].0 == p;
    assert(j == i);
}

proof fn lemma_table_push(s: Seq<(u64, MapTarget)>, p: u64, t: MapTarget)
    requires
        table_distinct(s),
        !table_keyed(s, p),
    ensures
        table_distinct(s.push((p, t))),
        table_map(s.push((p, t))) == table_map(s).insert(p, t),
{
    let s2 = s.push((p, t));
    assert forall|i: int, j: int| 0 <= i < j < s2.len() implies s2[i].0 != s2[j].0 by {
        if j == s.len() {
            assert(s2[i] == s[i]);
        }
    }
    assert forall|q: u64| #[trigger] table_keyed(s2, q) implies
        q == p || table_keyed(s, q) by {
        let i = choose|i: int| 0 <= i < s2.len() && s2[i].0 == q;
        if i < s.len() {
            assert(s[i].0 == q);
        }
    }
    assert forall|q: u64| q == p || table_keyed(s, q) implies
        #[trigger] table_keyed(s2, q) by {
        if q == p {
            assert(s2[s.len() as int].0 == p);
        } else {
            let i = choose|i: int| 0 <= i < s.len() && s[i].0 == q;
            assert(s2[i].0 == q);
        }
    }
    assert forall|q: u64| table_keyed(s2, q) implies
        #[trigger] table_map(s2)[q] == table_map(s).insert(p, t)[q] by {
        let i = choose|i: int| 0 <= i < s2.len() && s2[i].0 == q;
        if q == p {
            assert(table_distinct(s2));
            assert(s2[s.len() as int].0 == p);
            assert(i == s.len());
            assert(table_value(s2, q) == t);
        } else {
            assert(i < s.len() && s[i].0 == q);
            lemma_table_index(s, i);
            assert(table_distinct(s2));
            assert(s2[i].0 == q);
            let j = choose|j: int| 0 <= j < s2.len() && s2[j].0 == q;
            assert(j == i);
            assert(table_value(s2, q) == s[i].1);
        }
    }
    assert(table_map(s2) =~= table_map(s).insert(p, t));
}

proof fn lemma_table_remove(s: Seq<(u64, MapTarget)>, i: int)
    requires
        table_distinct(s),
        0 <= i < s.len(),
    ensures
        table_distinct(s.remove(i)),
        table_map(s.remove(i)) == table_map(s).remove(s[i].0),
{
    let p = s[i].0;
    let s2 = s.remove(i);
    assert forall|a: int, b: int| 0 <= a < b < s2.len() implies s2[a].0 != s2[b].0 by {
        let a0: int = if a < i { a } else { a + 1 };
        let b0: int = if b < i { b } else { b + 1 };
        assert(s2[a] == s[a0] && s2[b] == s[b0]);
    }
    assert forall|q: u64| #[trigger] table_keyed(s2, q) implies
        table_keyed(s, q) && q != p by {
        let j = choose|j: int| 0 <= j < s2.len() && s2[j].0 == q;
        let j0: int = if j < i { j } else { j + 1 };
        assert(s2[j] == s[j0]);
        assert(s[j0].0 == q);
        assert(j0 != i);
    }
    assert forall|q: u64| table_keyed(s, q) && q != p implies
        #[trigger] table_keyed(s2, q) by {
        let j = choose|j: int| 0 <= j < s.len() && s[j].0 == q;
        assert(j != i);
        let j2: int = if j < i { j } else { j - 1 };
        assert(s2[j2] == s[j]);
    }
    assert forall|q: u64| table_keyed(s2, q) implies
        #[trigger] table_map(s2)[q] == table_map(s).remove(p)[q] by {
        let j = choose|j: int| 0 <= j < s2.len() && s2[j].0 == q;
        let j0: int = if j < i { j } else { j + 1 };
        assert(s2[j] == s[j0]);
        lemma_table_index(s, j0);
        assert(table_distinct(s2));
        let jj = choose|jj: int| 0 <= jj < s2.len() && s2[jj].0 == q;
        assert(jj == j);
        assert(table_value(s2, q) == s[j0].1);
    }
    assert(table_map(s2) =~= table_map(s).remove(p));
}

/// The inactive page table under construction.  The loader never activates
/// or flushes it; it only installs and replaces 4 KiB mappings.
pub struct KernelPageTable {
    entries: Vec<(u64, MapTarget)>,
}

impl View for KernelPageTable {
    type V = Map<u64, MapTarget>;

    closed spec fn view(&self) -> Map<u64, MapTarget> {
        table_map(self.entries@)
    }
}

impl KernelPageTable {
    /// No page is recorded twice.
    pub closed spec fn wf(&self) -> bool {
        table_distinct(self.entries@)
    }

    /// A freshly constructed, empty address space.
    pub fn new() -> (r: Self)
        ensures
            r.wf(),
            r@ == Map::<u64, MapTarget>::empty(),
    {
        let r = KernelPageTable { entries: Vec::new() };
        proof {
            assert(r@ =~= Map::<u64, MapTarget>::empty());
        }
        r
    }

    fn find(&self, page: u64) -> (r: Option<usize>)
        requires
            self.wf(),
        ensures
            match r {
                Some(i) => i < self.entries@.len() && self.entries@[i as int].0 == page
                    && self@.contains_key(page) && self@[page] == self.entries@[i as int].1,
                None => !self@.contains_key(page),
            },
    {
        let n = self.entries.len();
        let mut i: usize = 0;
        while i < n
            invariant
                self.wf(),
                n == self.entries@.len(),
                i <= n,
                forall|j: int| 0 <= j < i ==> self.entries@[j].0 != page,
            decreases n - i,
        {
            if self.entries[i].0 == page {
                proof {
                    lemma_table_index(self.entries@, i as int);
                }
                return Some(i);
            }
            i += 1;
        }
        assert(!table_keyed(self.entries@, page));
        None
    }

    /// Install a mapping of `page` to `frame` with `flags`.  Rejected when
    /// `page` is already mapped (a pre-existing conflict).
    pub fn map_to(&mut self, page: u64, frame: u64, flags: PageFlags) -> (r: Result<(), ()>)
        requires
            old(self).wf(),
        ensures
            final(self).wf(),
            r is Ok <==> !old(self)@.contains_key(page),
            r is Ok ==> final(self)@ == old(self)@.insert(
                page,
                MapTarget { frame, flags },
            ),
            r is Err ==> final(self)@ == old(self)@,
    {
        match self.find(page) {
            Some(_) => Err(()),
            None => {
                proof {
                    lemma_table_push(self.entries@, page, MapTarget { frame, flags });
                }
                self.entries.push((page, MapTarget { frame, flags }));
                Ok(())
            },
        }
    }

    /// Remove the mapping of `page`, returning what it was mapped to.
    /// Rejected when `page` is not mapped.
    pub fn unmap(&mut self, page: u64) -> (r: Result<MapTarget, ()>)
        requires
            old(self).wf(),
        ensures
            final(self).wf(),
            r is Ok <==> old(self)@.contains_key(page),
            r matches Ok(t) ==> t == old(self)@[page]
                && final(self)@ == old(self)@.remove(page),
            r is Err ==> final(self)@ == old(self)@,
    {
        match self.find(page) {
            Some(i) => {
                let t = self.entries[i].1;
                proof {
                    lemma_table_remove(self.entries@, i as int);
                }
                self.entries.remove(i);
                Ok(t)
            },
            None => Err(()),
        }
    }

    /// Look up the mapping of `page`, if any.
    pub fn translate(&self, page: u64) -> (r: Option<MapTarget>)
        requires
            self.wf(),
        ensures
            match r {
                Some(t) => self@.contains_key(page) && t == self@[page],
                None => !self@.contains_key(page),
            },
    {
        match self.find(page) {
            Some(i) => Some(self.entries[i].1),
            None => None,
        }
    }
}

/// The boot-stage frame allocator: a caller-supplied pool of fresh physical
/// frames, handed out back to front.
pub struct BootFrames {
    free: Vec<u64>,
}

impl View for BootFrames {
    type V = Seq<u64>;

    closed spec fn view(&self) -> Seq<u64> {
        self.free@
    }
}

impl BootFrames {
    /// An allocator over the given pool of frame base addresses.
    pub fn new(free: Vec<u64>) -> (r: Self)
        ensures
            r@ == free@,
    {
        BootFrames { free }
    }

    /// Hand out the next fresh frame; `None` when the pool is exhausted.
    pub fn allocate(&mut self) -> (r: Option<u64>)
        ensures
            old(self)@.len() == 0 ==> r is None && final(self)@ == old(self)@,
            old(self)@.len() > 0 ==> r == Some(old(self)@.last())
                && final(self)@ == old(self)@.drop_last(),
    {
        self.free.pop()
    }
}

/// The contents the loader wrote into one freshly allocated frame.  Callers
/// running under an identity mapping apply these with plain stores.
pub struct FrameContents {
    pub frame: u64,
    pub bytes: Vec<u8>,
}

/// True when some record of `s` describes frame `f`.
pub open spec fn fresh_keyed(s: Seq<FrameContents>, f: u64) -> bool {
    exists|i: int| 0 <= i < s.len() && s[i].frame == f
}

/// The bytes recorded for frame `f` (meaningful when `fresh_keyed`).
pub open spec fn fresh_bytes(s: Seq<FrameContents>, f: u64) -> Seq<u8> {
    s[choose|i: int| 0 <= i < s.len() && s[i].frame == f].bytes@
}

/// No frame is recorded twice.
pub open spec fn fresh_distinct(s: Seq<FrameContents>) -> bool {
    forall|i: int, j: int| 0 <= i < j < s.len() ==> s[i].frame != s[j].frame
}

/// Appending a record for a new frame keeps every old record readable and
/// makes the new frame's bytes readable.
pub proof fn lemma_fresh_push(s: Seq<FrameContents>, f: u64, b: Seq<u8>, s2: Seq<FrameContents>)
    requires
        fresh_distinct(s),
        !fresh_keyed(s, f),
        s2.len() == s.len() + 1,
        forall|i: int| 0 <= i < s.len() ==> s2[i] == s[i],
        s2.last().frame == f,
        s2.last().bytes@ == b,
    ensures
        fresh_distinct(s2),
        fresh_keyed(s2, f),
        fresh_bytes(s2, f) == b,
        forall|g: u64| g != f ==> (#[trigger] fresh_keyed(s2, g) <==> fresh_keyed(s, g)),
        forall|g: u64| g != f && fresh_keyed(s, g) ==>
            #[trigger] fresh_bytes(s2, g) == fresh_bytes(s, g),
{
    assert forall|i: int, j: int| 0 <= i < j < s2.len() implies s2[i].frame != s2[j].frame by {
        if j == s.len() {
            assert(s2[i] == s[i]);
            assert(!(s[i].frame == f)) by {
                if s[i].frame == f {
                    assert(fresh_keyed(s, f));
                }
            }
        }
    }
    assert(s2[s.len() as int].frame == f);
    let i = choose|i: int| 0 <= i < s2.len() && s2[i].frame == f;
    assert(i == s.len());
    assert forall|g: u64| g != f implies
        (#[trigger] fresh_keyed(s2, g) <==> fresh_keyed(s, g)) by {
        if fresh_keyed(s2, g) {
            let j = choose|j: int| 0 <= j < s2.len() && s2[j].frame == g;
            assert(j < s.len());
            assert(s[j].frame == g);
        }
        if fresh_keyed(s, g) {
            let j = choose|j: int| 0 <= j < s.len() && s[j].frame == g;
            assert(s2[j].frame == g);
        }
    }
    assert forall|g: u64| g != f && fresh_keyed(s, g) implies
        #[trigger] fresh_bytes(s2, g) == fresh_bytes(s, g) by {
        let j = choose|j: int| 0 <= j < s.len() && s[j].frame == g;
        assert(s2[j].frame == g);
        let j2 = choose|j2: int| 0 <= j2 < s2.len() && s2[j2].frame == g;
        assert(j2 < s.len() && s[j2].frame == g);
        let j1 = choose|j1: int| 0 <= j1 < s.len() && s[j1].frame == g;
        assert(j1 == j2);
    }
}

} // verus!
