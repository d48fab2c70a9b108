//! The live-object index: an ordered registry of every heap object the
//! runtime has told the collector about.
//!
//! Entries are kept in three index-aligned parallel vectors (address, owning
//! context, space classifier) with the canonical addresses strictly sorted,
//! which supports binary-search insertion, removal and floor lookup. A
//! relocate-and-prune pass rewrites the whole index once per collection; a
//! single-cursor traversal walks the current contents for whole-heap
//! diagnostic dumps.

use vstd::prelude::*;

use crate::tagged_address::{is_canonical, strip, untag};

verus! {

/// One registered object: its canonical address, the owning context the
/// runtime attributes it to, and the heap-region class fixed at insertion.
#[derive(Clone, Copy, Debug, PartialEq, Eq, Structural)]
pub struct ArchiveEntry {
    pub addr: usize,
    pub owner: usize,
    pub classifier: u8,
}

/// Entry addresses are strictly increasing: sorted, hence unique.
pub open spec fn sorted_entries(s: Seq<ArchiveEntry>) -> bool {
    forall|i: int, j: int| 0 <= i < j < s.len() ==> s[i].addr < s[j].addr
}

/// Every entry address is canonical (tag-bit-clear).
pub open spec fn canonical_entries(s: Seq<ArchiveEntry>) -> bool {
    forall|i: int| 0 <= i < s.len() ==> is_canonical(#[trigger] s[i].addr)
}

/// Whether some entry has address `a`.
pub open spec fn contains_addr(s: Seq<ArchiveEntry>, a: usize) -> bool {
    exists|i: int| 0 <= i < s.len() && s[i].addr == a
}

/// How many entries hold an address below `a`; in a sorted sequence this is
/// the position where an entry with address `a` belongs.
pub open spec fn count_below(s: Seq<ArchiveEntry>, a: usize) -> int
    decreases s.len(),
{
    if s.len() == 0 {
        0
    } else {
        count_below(s.drop_last(), a) + if s.last().addr < a {
            1int
        } else {
            0int
        }
    }
}

/// Sorted insertion of `e`, a no-op when an entry with the same address is
/// already present.
pub open spec fn sorted_insert_spec(s: Seq<ArchiveEntry>, e: ArchiveEntry) -> Seq<ArchiveEntry> {
    if contains_addr(s, e.addr) {
        s
    } else {
        s.insert(count_below(s, e.addr), e)
    }
}

/// The post-collection address of an entry: its forwarded location when one
/// was recorded, otherwise its old address.
pub open spec fn forwarded_addr(a: usize, f: Option<usize>) -> usize {
    match f {
        Some(n) => n,
        None => a,
    }
}

/// An entry rewritten to its post-collection address; owner and classifier
/// metadata move with it.
pub open spec fn forwarded_entry(e: ArchiveEntry, f: Option<usize>) -> ArchiveEntry {
    ArchiveEntry { addr: forwarded_addr(e.addr, f), owner: e.owner, classifier: e.classifier }
}

/// Whether an entry is kept by the prune pass: it was found reachable, or
/// its classifier exempts it from liveness tracing.
pub open spec fn survives(e: ArchiveEntry, reachable: bool, retained: u8) -> bool {
    reachable || e.classifier == retained
}

/// The surviving entries of one relocate-and-prune pass, in scan order,
/// each rewritten to its post-collection address. `ks` and `fs` give, per
/// index, the reachability verdict and the recorded forwarding.
pub open spec fn survivors_spec(
    s: Seq<ArchiveEntry>,
    ks: Seq<bool>,
    fs: Seq<Option<usize>>,
    retained: u8,
) -> Seq<ArchiveEntry>
    decreases s.len(),
{
    if s.len() == 0 {
        Seq::empty()
    } else {
        let prior = survivors_spec(s.drop_last(), ks, fs, retained);
        if survives(s.last(), ks[s.len() - 1], retained) {
            prior.push(forwarded_entry(s.last(), fs[s.len() - 1]))
        } else {
            prior
        }
    }
}

/// Rebuilds the sorted structure from the survivors in scan order. When two
/// survivors coincide after forwarding — a collapse of variants of one
/// logical object — the first one encountered in scan order wins.
pub open spec fn rebuild_spec(s: Seq<ArchiveEntry>) -> Seq<ArchiveEntry>
    decreases s.len(),
{
    if s.len() == 0 {
        Seq::empty()
    } else {
        sorted_insert_spec(rebuild_spec(s.drop_last()), s.last())
    }
}

/// The contents of the index after one relocate-and-prune pass.
pub open spec fn relocate_spec(
    s: Seq<ArchiveEntry>,
    ks: Seq<bool>,
    fs: Seq<Option<usize>>,
    retained: u8,
) -> Seq<ArchiveEntry> {
    rebuild_spec(survivors_spec(s, ks, fs, retained))
}

/// In a sequence split by `a` at position `k` (addresses below `a` before it,
/// the rest at or above), exactly `k` entries lie below `a`.
proof fn lemma_count_below_partition(s: Seq<ArchiveEntry>, a: usize, k: int)
    requires
        0 <= k <= s.len(),
        forall|i: int| 0 <= i < k ==> s[i].addr < a,
        forall|i: int| k <= i < s.len() ==> s[i].addr >= a,
    ensures
        count_below(s, a) == k,
    decreases s.len(),
{
    if s.len() == 0 {
    } else if k == s.len() {
        lemma_count_below_partition(s.drop_last(), a, k - 1);
    } else {
        lemma_count_below_partition(s.drop_last(), a, k);
    }
}

/// Sorted entries have pairwise distinct addresses: after every operation
/// that preserves `sorted_entries`, the address list is sorted and unique.
pub proof fn lemma_sorted_entries_unique(s: Seq<ArchiveEntry>)
    requires
        sorted_entries(s),
    ensures
        forall|i: int, j: int|
            0 <= i < s.len() && 0 <= j < s.len() && i != j ==> s[i].addr != s[j].addr,
{
}

/// Reachability verdicts and forwardings do not disturb a shorter prefix:
/// the survivors of `s` only read the verdicts at indices below `s.len()`.
proof fn lemma_survivors_spec_extend(
    s: Seq<ArchiveEntry>,
    ks: Seq<bool>,
    fs: Seq<Option<usize>>,
    retained: u8,
    b: bool,
    f: Option<usize>,
)
    requires
        s.len() <= ks.len(),
        s.len() <= fs.len(),
    ensures
        survivors_spec(s, ks.push(b), fs.push(f), retained) == survivors_spec(
            s,
            ks,
            fs,
            retained,
        ),
    decreases s.len(),
{
    if s.len() > 0 {
        lemma_survivors_spec_extend(s.drop_last(), ks, fs, retained, b, f);
        assert(ks.push(b)[s.len() - 1] == ks[s.len() - 1]);
        assert(fs.push(f)[s.len() - 1] == fs[s.len() - 1]);
    }
}

/// `e` is the forwarded image of an old entry that the pass kept: one
/// found reachable or exempted by the retained classifier, with its owner
/// and classifier carried over unchanged.
pub open spec fn relocated_from(
    s: Seq<ArchiveEntry>,
    ks: Seq<bool>,
    fs: Seq<Option<usize>>,
    retained: u8,
    e: ArchiveEntry,
) -> bool {
    exists|i: int|
        0 <= i < s.len() && survives(s[i], ks[i], retained) && e == #[trigger] forwarded_entry(
            s[i],
            fs[i],
        )
}

/// One element of a sorted insertion is the inserted entry or one of the
/// original entries.
proof fn lemma_sorted_insert_member_at(t: Seq<ArchiveEntry>, e: ArchiveEntry, j: int)
    requires
        0 <= j < sorted_insert_spec(t, e).len(),
    ensures
        sorted_insert_spec(t, e)[j] == e || t.contains(sorted_insert_spec(t, e)[j]),
{
    let r = sorted_insert_spec(t, e);
    if contains_addr(t, e.addr) {
        assert(t[j] == r[j]);
    } else {
        let k = count_below(t, e.addr);
        lemma_count_below_range(t, e.addr);
        t.insert_ensures(k, e);
        if j < k {
            assert(t[j] == r[j]);
        } else if j > k {
            assert(t[j - 1] == r[j]);
        }
    }
}

/// Every element of a sorted insertion is the inserted entry or one of the
/// original entries.
proof fn lemma_sorted_insert_membership(t: Seq<ArchiveEntry>, e: ArchiveEntry)
    ensures
        forall|j: int|
            0 <= j < sorted_insert_spec(t, e).len() ==> #[trigger] sorted_insert_spec(t, e)[j] == e
                || t.contains(sorted_insert_spec(t, e)[j]),
{
    assert forall|j: int|
        0 <= j < sorted_insert_spec(t, e).len() implies #[trigger] sorted_insert_spec(t, e)[j] == e
        || t.contains(sorted_insert_spec(t, e)[j]) by {
        lemma_sorted_insert_member_at(t, e, j);
    }
}

/// `count_below` is a position within the sequence.
proof fn lemma_count_below_range(s: Seq<ArchiveEntry>, a: usize)
    ensures
        0 <= count_below(s, a) <= s.len(),
    decreases s.len(),
{
    if s.len() > 0 {
        lemma_count_below_range(s.drop_last(), a);
    }
}

/// Every element of the rebuilt structure is one of the survivors.
proof fn lemma_rebuild_justified(s: Seq<ArchiveEntry>)
    ensures
        forall|j: int|
            0 <= j < rebuild_spec(s).len() ==> s.contains(#[trigger] rebuild_spec(s)[j]),
    decreases s.len(),
{
    if s.len() > 0 {
        let prior = rebuild_spec(s.drop_last());
        lemma_rebuild_justified(s.drop_last());
        lemma_sorted_insert_membership(prior, s.last());
        assert forall|j: int|
            0 <= j < rebuild_spec(s).len() implies s.contains(#[trigger] rebuild_spec(s)[j]) by {
            let x = rebuild_spec(s)[j];
            assert(sorted_insert_spec(prior, s.last())[j] == x);
            if x == s.last() {
                assert(s[s.len() - 1] == x);
            } else {
                let i1 = choose|i1: int| 0 <= i1 < prior.len() && prior[i1] == x;
                assert(rebuild_spec(s.drop_last())[i1] == x);
                let i2 = choose|i2: int| 0 <= i2 < s.drop_last().len() && s.drop_last()[i2] == x;
                assert(s[i2] == x);
            }
        }
    }
}

/// Every survivor is justified: it is the forwarded image of an old entry
/// that was found reachable or was classifier-retained.
proof fn lemma_survivors_justified(
    s: Seq<ArchiveEntry>,
    ks: Seq<bool>,
    fs: Seq<Option<usize>>,
    retained: u8,
)
    requires
        s.len() <= ks.len(),
        s.len() <= fs.len(),
    ensures
        forall|j: int|
            0 <= j < survivors_spec(s, ks, fs, retained).len() ==> relocated_from(
                s,
                ks,
                fs,
                retained,
                #[trigger] survivors_spec(s, ks, fs, retained)[j],
            ),
    decreases s.len(),
{
    if s.len() > 0 {
        lemma_survivors_justified(s.drop_last(), ks, fs, retained);
        assert forall|j: int|
            0 <= j < survivors_spec(s, ks, fs, retained).len() implies relocated_from(
            s,
            ks,
            fs,
            retained,
            #[trigger] survivors_spec(s, ks, fs, retained)[j],
        ) by {
            let sv = survivors_spec(s, ks, fs, retained);
            let prior = survivors_spec(s.drop_last(), ks, fs, retained);
            if j < prior.len() {
                assert(sv[j] == prior[j]);
                let i1 = choose|i1: int|
                    0 <= i1 < s.drop_last().len() && survives(s.drop_last()[i1], ks[i1], retained)
                        && prior[j] == #[trigger] forwarded_entry(s.drop_last()[i1], fs[i1]);
                assert(s[i1] == s.drop_last()[i1]);
                assert(sv[j] == forwarded_entry(s[i1], fs[i1]));
            } else {
                assert(sv[j] == forwarded_entry(s[s.len() - 1], fs[s.len() - 1]));
                assert(survives(s[s.len() - 1], ks[s.len() - 1], retained));
            }
        }
    }
}

/// Relocate-and-prune justification: every entry that remains after the
/// pass is the forwarded image of an old entry that was found reachable or
/// carried the retained classifier, owner and classifier moving with it.
pub proof fn lemma_relocate_entries_justified(
    s: Seq<ArchiveEntry>,
    ks: Seq<bool>,
    fs: Seq<Option<usize>>,
    retained: u8,
)
    requires
        ks.len() == s.len(),
        fs.len() == s.len(),
    ensures
        forall|j: int|
            0 <= j < relocate_spec(s, ks, fs, retained).len() ==> relocated_from(
                s,
                ks,
                fs,
                retained,
                #[trigger] relocate_spec(s, ks, fs, retained)[j],
            ),
{
    let sv = survivors_spec(s, ks, fs, retained);
    lemma_survivors_justified(s, ks, fs, retained);
    lemma_rebuild_justified(sv);
    assert forall|j: int|
        0 <= j < relocate_spec(s, ks, fs, retained).len() implies relocated_from(
        s,
        ks,
        fs,
        retained,
        #[trigger] relocate_spec(s, ks, fs, retained)[j],
    ) by {
        let x = relocate_spec(s, ks, fs, retained)[j];
        assert(rebuild_spec(sv)[j] == x);
        let j1 = choose|j1: int| 0 <= j1 < sv.len() && sv[j1] == x;
        assert(survivors_spec(s, ks, fs, retained)[j1] == x);
        assert(relocated_from(s, ks, fs, retained, x));
    }
}

/// The relocate-and-prune pass answered by the injected capabilities:
/// `ks` and `fs` record, per old entry, a reachability verdict the
/// `is_reachable` capability may give and a forwarding the `forward`
/// capability may give, and `result` is the index contents rebuilt from
/// exactly those answers.
pub open spec fn relocate_witness<F: Fn(usize) -> bool, G: Fn(usize) -> Option<usize>>(
    s: Seq<ArchiveEntry>,
    ks: Seq<bool>,
    fs: Seq<Option<usize>>,
    is_reachable: F,
    forward: G,
    retained: u8,
    result: Seq<ArchiveEntry>,
) -> bool {
    &&& ks.len() == s.len()
    &&& fs.len() == s.len()
    &&& forall|i: int| 0 <= i < s.len() ==> call_ensures(is_reachable, (s[i].addr,), #[trigger] ks[i])
    &&& forall|i: int| 0 <= i < s.len() ==> call_ensures(forward, (s[i].addr,), #[trigger] fs[i])
    &&& result == relocate_spec(s, ks, fs, retained)
}

/// `e` descends from an old entry that the injected capabilities allowed
/// the pass to keep: the reachability capability could answer true for its
/// address (or its classifier is the retained one), and its address is one
/// the forwarding capability could give for that entry — the old address
/// when it reported none.
pub open spec fn update_justifies<F: Fn(usize) -> bool, G: Fn(usize) -> Option<usize>>(
    s: Seq<ArchiveEntry>,
    is_reachable: F,
    forward: G,
    retained: u8,
    e: ArchiveEntry,
) -> bool {
    exists|i: int, f: Option<usize>|
        0 <= i < s.len() && (call_ensures(is_reachable, (s[i].addr,), true) || s[i].classifier
            == retained) && call_ensures(forward, (s[i].addr,), f) && e == #[trigger] forwarded_entry(
            s[i],
            f,
        )
}

/// The relocate-and-prune law over the injected capabilities: whatever they
/// answered during `update`, every entry that remains is justified by some
/// old entry — reachable or classifier-retained — rewritten to an address
/// the forwarding capability could report for it, owner and classifier
/// carried over.
pub proof fn lemma_update_entries_justified<F: Fn(usize) -> bool, G: Fn(usize) -> Option<usize>>(
    s: Seq<ArchiveEntry>,
    ks: Seq<bool>,
    fs: Seq<Option<usize>>,
    is_reachable: F,
    forward: G,
    retained: u8,
    result: Seq<ArchiveEntry>,
)
    requires
        relocate_witness(s, ks, fs, is_reachable, forward, retained, result),
    ensures
        forall|j: int|
            0 <= j < result.len() ==> update_justifies(
                s,
                is_reachable,
                forward,
                retained,
                #[trigger] result[j],
            ),
{
    lemma_relocate_entries_justified(s, ks, fs, retained);
    assert forall|j: int| 0 <= j < result.len() implies update_justifies(
        s,
        is_reachable,
        forward,
        retained,
        #[trigger] result[j],
    ) by {
        assert(relocate_spec(s, ks, fs, retained)[j] == result[j]);
        let i1 = choose|i1: int|
            0 <= i1 < s.len() && survives(s[i1], ks[i1], retained) && relocate_spec(
                s,
                ks,
                fs,
                retained,
            )[j] == #[trigger] forwarded_entry(s[i1], fs[i1]);
        assert(call_ensures(forward, (s[i1].addr,), fs[i1]));
        if ks[i1] {
            assert(call_ensures(is_reachable, (s[i1].addr,), true));
        }
        assert(result[j] == forwarded_entry(s[i1], fs[i1]));
    }
}

/// The ordered, externally queryable registry of live objects.
pub struct ObjectArchive {
    untagged_objects: Vec<usize>,
    owners: Vec<usize>,
    classifiers: Vec<u8>,
    iter_pos: usize,
    iter_len: usize,
}

impl ObjectArchive {
    /// The registered entries, in address order.
    pub closed spec fn entries(self) -> Seq<ArchiveEntry> {
        Seq::new(
            self.untagged_objects@.len(),
            |i: int|
                ArchiveEntry {
                    addr: self.untagged_objects@[i],
                    owner: self.owners@[i],
                    classifier: self.classifiers@[i],
                },
        )
    }

    /// Numeric position of the single-cursor traversal.
    pub closed spec fn iter_cursor(self) -> int {
        self.iter_pos as int
    }

    /// The entry count the traversal last observed.
    pub closed spec fn iter_limit(self) -> int {
        self.iter_len as int
    }

    /// The metadata vectors are index-aligned with the address vector.
    pub closed spec fn vectors_aligned(self) -> bool {
        self.owners@.len() == self.untagged_objects@.len()
            && self.classifiers@.len() == self.untagged_objects@.len()
    }

    /// Index invariant: aligned metadata and strictly sorted canonical
    /// addresses.
    pub open spec fn well_formed(self) -> bool {
        self.vectors_aligned() && sorted_entries(self.entries()) && canonical_entries(
            self.entries(),
        )
    }

    /// An empty index with the traversal cursor at its start.
    pub fn new() -> (r: ObjectArchive)
        ensures
            r.well_formed(),
            r.entries() == Seq::<ArchiveEntry>::empty(),
            r.iter_cursor() == 0,
            r.iter_limit() == 0,
    {
        let r = ObjectArchive {
            untagged_objects: Vec::new(),
            owners: Vec::new(),
            classifiers: Vec::new(),
            iter_pos: 0,
            iter_len: 0,
        };
        proof {
            assert(r.entries() =~= Seq::<ArchiveEntry>::empty());
        }
        r
    }

    /// Binary search for the first position whose address is at or above
    /// `key`: the sorted insertion point for `key`.
    fn lower_bound(&self, key: usize) -> (k: usize)
        requires
            self.well_formed(),
        ensures
            k <= self.entries().len(),
            forall|i: int| 0 <= i < k ==> self.entries()[i].addr < key,
            forall|i: int| k <= i < self.entries().len() ==> self.entries()[i].addr >= key,
            k == count_below(self.entries(), key),
    {
        let mut lo: usize = 0;
        let mut hi: usize = self.untagged_objects.len();
        while lo < hi
            invariant
                lo <= hi <= self.untagged_objects.len(),
                self.well_formed(),
                forall|i: int| 0 <= i < lo ==> self.entries()[i].addr < key,
                forall|i: int| hi <= i < self.entries().len() ==> self.entries()[i].addr >= key,
            decreases hi - lo,
        {
            let mid = lo + (hi - lo) / 2;
            assert(self.entries()[mid as int].addr == self.untagged_objects@[mid as int]);
            if self.untagged_objects[mid] < key {
                lo = mid + 1;
            } else {
                hi = mid;
            }
        }
        proof {
            lemma_count_below_partition(self.entries(), key, lo as int);
        }
        lo
    }

    /// Sorted insertion of one entry with a canonical address; reports
    /// whether the entry was new.
    fn insert_canonical(&mut self, e: ArchiveEntry) -> (ok: bool)
        requires
            old(self).well_formed(),
            is_canonical(e.addr),
        ensures
            final(self).well_formed(),
            final(self).entries() == sorted_insert_spec(old(self).entries(), e),
            ok == !contains_addr(old(self).entries(), e.addr),
            final(self).iter_cursor() == old(self).iter_cursor(),
            final(self).iter_limit() == old(self).iter_limit(),
    {
        let k = self.lower_bound(e.addr);
        if k < self.untagged_objects.len() && self.untagged_objects[k] == e.addr {
            proof {
                assert(self.entries()[k as int].addr == e.addr);
            }
            return false;
        }
        proof {
            assert forall|i: int| 0 <= i < self.entries().len() implies self.entries()[i].addr
                != e.addr by {
                if i > k {
                    assert(self.entries()[k as int].addr < self.entries()[i].addr);
                }
            }
        }
        let ghost oe = self.entries();
        let ghost ki = k as int;
        self.untagged_objects.insert(k, e.addr);
        self.owners.insert(k, e.owner);
        self.classifiers.insert(k, e.classifier);
        proof {
            old(self).untagged_objects@.insert_ensures(ki, e.addr);
            old(self).owners@.insert_ensures(ki, e.owner);
            old(self).classifiers@.insert_ensures(ki, e.classifier);
            oe.insert_ensures(ki, e);
            assert(self.entries() =~= oe.insert(ki, e));
            let ne = self.entries();
            assert forall|i: int, j: int| 0 <= i < j < ne.len() implies ne[i].addr
                < ne[j].addr by {
                if i < ki && j > ki {
                    assert(ne[i].addr == oe[i].addr && oe[i].addr < e.addr);
                    assert(ne[j].addr == oe[j - 1].addr && oe[j - 1].addr >= e.addr);
                    assert(oe[j - 1].addr != e.addr);
                } else if i == ki && j > ki {
                    assert(ne[j].addr == oe[j - 1].addr && oe[j - 1].addr >= e.addr);
                    assert(oe[j - 1].addr != e.addr);
                } else if i < ki && j == ki {
                    assert(ne[i].addr == oe[i].addr && oe[i].addr < e.addr);
                }
            }
            assert forall|i: int| 0 <= i < ne.len() implies is_canonical(#[trigger] ne[i].addr) by {
                if i < ki {
                    assert(ne[i] == oe[i]);
                } else if i > ki {
                    assert(ne[i] == oe[i - 1]);
                }
            }
        }
        true
    }

    /// Registers a freshly allocated object under the canonical form of
    /// `addr`. Duplicate registration is a caller error, not a crash
    /// condition: the index is left unchanged and `false` is returned.
    pub fn insert_object(&mut self, addr: usize, owner: usize, classifier: u8) -> (ok: bool)
        requires
            old(self).well_formed(),
        ensures
            final(self).well_formed(),
            ok == !contains_addr(old(self).entries(), untag(addr)),
            final(self).entries() == sorted_insert_spec(
                old(self).entries(),
                (ArchiveEntry { addr: untag(addr), owner: owner, classifier: classifier }),
            ),
            final(self).iter_cursor() == old(self).iter_cursor(),
            final(self).iter_limit() == old(self).iter_limit(),
    {
        let canonical = strip(addr).0;
        self.insert_canonical(ArchiveEntry { addr: canonical, owner, classifier })
    }

    /// Whether the canonical form of `addr` is registered.
    pub fn has_object(&self, addr: usize) -> (r: bool)
        requires
            self.well_formed(),
        ensures
            r == contains_addr(self.entries(), untag(addr)),
    {
        let canonical = strip(addr).0;
        let k = self.lower_bound(canonical);
        if k < self.untagged_objects.len() && self.untagged_objects[k] == canonical {
            proof {
                assert(self.entries()[k as int].addr == canonical);
            }
            true
        } else {
            proof {
                assert forall|i: int| 0 <= i < self.entries().len() implies self.entries()[i].addr
                    != canonical by {
                    if i > k {
                        assert(self.entries()[k as int].addr < self.entries()[i].addr);
                    }
                }
            }
            false
        }
    }

    /// Deregisters the canonical form of `addr`. Removing an address that
    /// was never registered is a runtime protocol violation, excluded by
    /// precondition; callers guard with `has_object` and fail loudly.
    pub fn remove_object(&mut self, addr: usize)
        requires
            old(self).well_formed(),
            contains_addr(old(self).entries(), untag(addr)),
        ensures
            final(self).well_formed(),
            ({
                let i = count_below(old(self).entries(), untag(addr));
                old(self).entries()[i].addr == untag(addr)
                    && final(self).entries() == old(self).entries().remove(i)
            }),
            final(self).iter_cursor() == old(self).iter_cursor(),
            final(self).iter_limit() == old(self).iter_limit(),
    {
        let canonical = strip(addr).0;
        let k = self.lower_bound(canonical);
        proof {
            let oe = self.entries();
            let w = choose|i: int| 0 <= i < oe.len() && oe[i].addr == canonical;
            assert(w >= k);
            if oe[k as int].addr != canonical {
                assert(w > k);
                assert(oe[k as int].addr < oe[w].addr);
                assert(false);
            }
        }
        let ghost oe = self.entries();
        let ghost ki = k as int;
        self.untagged_objects.remove(k);
        self.owners.remove(k);
        self.classifiers.remove(k);
        proof {
            old(self).untagged_objects@.remove_ensures(ki);
            old(self).owners@.remove_ensures(ki);
            old(self).classifiers@.remove_ensures(ki);
            oe.remove_ensures(ki);
            assert(self.entries() =~= oe.remove(ki));
            let ne = self.entries();
            assert forall|i: int, j: int| 0 <= i < j < ne.len() implies ne[i].addr
                < ne[j].addr by {
                if i < ki && j >= ki {
                    assert(ne[i].addr == oe[i].addr);
                    assert(ne[j].addr == oe[j + 1].addr);
                } else if i >= ki {
                    assert(ne[i].addr == oe[i + 1].addr);
                    assert(ne[j].addr == oe[j + 1].addr);
                }
            }
            assert forall|i: int| 0 <= i < ne.len() implies is_canonical(#[trigger] ne[i].addr) by {
                if i < ki {
                    assert(ne[i] == oe[i]);
                } else {
                    assert(ne[i] == oe[i + 1]);
                }
            }
        }
    }

    /// Binary search for the greatest position whose address is at or below
    /// `query`; the caller guarantees one exists.
    fn floor_index(&self, query: usize) -> (k: usize)
        requires
            self.well_formed(),
            self.entries().len() > 0,
            self.entries()[0].addr <= query,
        ensures
            k < self.entries().len(),
            self.entries()[k as int].addr <= query,
            forall|i: int| k < i < self.entries().len() ==> self.entries()[i].addr > query,
    {
        let mut lo: usize = 0;
        let mut hi: usize = self.untagged_objects.len();
        while hi - lo > 1
            invariant
                lo < hi <= self.untagged_objects.len(),
                self.well_formed(),
                self.entries()[lo as int].addr <= query,
                forall|i: int| hi <= i < self.entries().len() ==> self.entries()[i].addr > query,
            decreases hi - lo,
        {
            let mid = lo + (hi - lo) / 2;
            assert(self.entries()[mid as int].addr == self.untagged_objects@[mid as int]);
            if self.untagged_objects[mid] <= query {
                lo = mid;
            } else {
                hi = mid;
            }
        }
        lo
    }

    /// The lowest registered address, or `None` when the index is empty.
    /// Callers of the floor lookups test their preconditions with this.
    pub fn first_address(&self) -> (r: Option<usize>)
        ensures
            r matches Some(a) ==> self.entries().len() > 0 && a == self.entries()[0].addr,
            (r is None) <==> self.entries().len() == 0,
    {
        if self.untagged_objects.len() > 0 {
            Some(self.untagged_objects[0])
        } else {
            None
        }
    }

    /// Floor lookup: maps a possibly interior address to the greatest
    /// indexed address at or below it, the start of its containing object.
    /// Querying below the first entry is a documented precondition
    /// violation; callers assert rather than wrap.
    pub fn inner_addr_to_object(&self, inner_addr: usize) -> (r: usize)
        requires
            self.well_formed(),
            self.entries().len() > 0,
            self.entries()[0].addr <= inner_addr,
        ensures
            contains_addr(self.entries(), r),
            r <= inner_addr,
            forall|i: int|
                0 <= i < self.entries().len() && self.entries()[i].addr <= inner_addr
                    ==> self.entries()[i].addr <= r,
            is_canonical(r),
    {
        let k = self.floor_index(inner_addr);
        proof {
            let fa = self.untagged_objects@[k as int];
            assert(self.entries()[k as int].addr == fa);
            assert forall|i: int|
                0 <= i < self.entries().len() && self.entries()[i].addr
                    <= inner_addr implies self.entries()[i].addr <= fa by {
                if i > k {
                    assert(self.entries()[i].addr > inner_addr);
                } else if i < k {
                    assert(self.entries()[i].addr < self.entries()[k as int].addr);
                }
            }
        }
        self.untagged_objects[k]
    }

    /// Floor-lookup variant returning the stored space classifier of the
    /// containing object.
    pub fn object_to_classifier(&self, addr: usize) -> (r: u8)
        requires
            self.well_formed(),
            self.entries().len() > 0,
            self.entries()[0].addr <= addr,
        ensures
            exists|i: int|
                0 <= i < self.entries().len() && self.entries()[i].addr <= addr && (forall|j: int|
                    i < j < self.entries().len() ==> self.entries()[j].addr > addr) && r == self.entries()[i].classifier,
    {
        let k = self.floor_index(addr);
        proof {
            assert(self.classifiers@[k as int] == self.entries()[k as int].classifier);
        }
        self.classifiers[k]
    }

    /// The once-per-collection relocate-and-prune pass, run while the world
    /// is stopped. An entry is kept when the collector's reachability
    /// capability answers true for its address or its classifier equals
    /// `retained_classifier`; each kept entry is rewritten to the address
    /// the forwarding capability reports (unchanged when it reports none),
    /// metadata moving under the new key, and the sorted structure is
    /// rebuilt in one pass. Addresses that coincide after forwarding — a
    /// collapse of variants of one logical object — keep the entry that
    /// comes first in scan order.
    pub fn update<F: Fn(usize) -> bool, G: Fn(usize) -> Option<usize>>(
        &mut self,
        is_reachable: F,
        forward: G,
        retained_classifier: u8,
    )
        requires
            old(self).well_formed(),
            forall|p: int|
                0 <= p < old(self).entries().len() ==> call_requires(
                    is_reachable,
                    (old(self).entries()[p].addr,),
                ),
            forall|p: int|
                0 <= p < old(self).entries().len() ==> call_requires(
                    forward,
                    (old(self).entries()[p].addr,),
                ),
            forall|a: usize, r: Option<usize>|
                #[trigger] call_ensures(forward, (a,), r) ==> (r matches Some(na) ==> is_canonical(
                    na,
                )),
        ensures
            final(self).well_formed(),
            final(self).iter_cursor() == old(self).iter_cursor(),
            final(self).iter_limit() == old(self).iter_limit(),
            exists|ks: Seq<bool>, fs: Seq<Option<usize>>|
                relocate_witness(
                    old(self).entries(),
                    ks,
                    fs,
                    is_reachable,
                    forward,
                    retained_classifier,
                    final(self).entries(),
                ),
    {
        let ghost oe = old(self).entries();
        let mut survivors: Vec<ArchiveEntry> = Vec::new();
        let ghost mut ks = Seq::<bool>::empty();
        let ghost mut fs = Seq::<Option<usize>>::empty();
        let n = self.untagged_objects.len();
        let mut i: usize = 0;
        while i < n
            invariant
                *self == *old(self),
                self.well_formed(),
                n == self.untagged_objects@.len(),
                oe == self.entries(),
                i <= n,
                ks.len() == i,
                fs.len() == i,
                forall|p: int| 0 <= p < oe.len() ==> call_requires(is_reachable, (oe[p].addr,)),
                forall|p: int| 0 <= p < oe.len() ==> call_requires(forward, (oe[p].addr,)),
                forall|a: usize, r: Option<usize>|
                    #[trigger] call_ensures(forward, (a,), r) ==> (r matches Some(na)
                        ==> is_canonical(na)),
                forall|p: int|
                    0 <= p < i ==> call_ensures(is_reachable, (oe[p].addr,), #[trigger] ks[p]),
                forall|p: int|
                    0 <= p < i ==> call_ensures(forward, (oe[p].addr,), #[trigger] fs[p]),
                survivors@ == survivors_spec(oe.take(i as int), ks, fs, retained_classifier),
                canonical_entries(survivors@),
            decreases n - i,
        {
            let addr = self.untagged_objects[i];
            let owner = self.owners[i];
            let classifier = self.classifiers[i];
            proof {
                assert(oe[i as int].addr == addr);
                assert(oe[i as int].owner == owner);
                assert(oe[i as int].classifier == classifier);
                assert(is_canonical(oe[i as int].addr));
            }
            let keep = is_reachable(addr);
            let fwd = forward(addr);
            let ghost prev_ks = ks;
            let ghost prev_fs = fs;
            proof {
                ks = ks.push(keep);
                fs = fs.push(fwd);
                lemma_survivors_spec_extend(
                    oe.take(i as int),
                    prev_ks,
                    prev_fs,
                    retained_classifier,
                    keep,
                    fwd,
                );
            }
            if keep || classifier == retained_classifier {
                let new_addr = match fwd {
                    Some(na) => na,
                    None => addr,
                };
                proof {
                    assert(is_canonical(new_addr));
                    assert((ArchiveEntry { addr: new_addr, owner, classifier })
                        == forwarded_entry(oe[i as int], fs[i as int]));
                }
                survivors.push(ArchiveEntry { addr: new_addr, owner, classifier });
            }
            proof {
                assert(oe.take(i as int + 1).drop_last() =~= oe.take(i as int));
                assert(oe.take(i as int + 1).last() == oe[i as int]);
                assert(survivors@ == survivors_spec(
                    oe.take(i as int + 1),
                    ks,
                    fs,
                    retained_classifier,
                ));
            }
            i = i + 1;
        }
        proof {
            assert(oe.take(n as int) =~= oe);
        }
        self.untagged_objects.clear();
        self.owners.clear();
        self.classifiers.clear();
        proof {
            assert(self.entries() =~= Seq::<ArchiveEntry>::empty());
            assert(survivors@.take(0) =~= Seq::<ArchiveEntry>::empty());
        }
        let m = survivors.len();
        let mut j: usize = 0;
        while j < m
            invariant
                m == survivors@.len(),
                j <= m,
                self.well_formed(),
                canonical_entries(survivors@),
                self.entries() == rebuild_spec(survivors@.take(j as int)),
                self.iter_cursor() == old(self).iter_cursor(),
                self.iter_limit() == old(self).iter_limit(),
            decreases m - j,
        {
            let e = survivors[j];
            proof {
                assert(is_canonical(survivors@[j as int].addr));
            }
            let _dup = self.insert_canonical(e);
            proof {
                assert(survivors@.take(j as int + 1).drop_last() =~= survivors@.take(j as int));
                assert(survivors@.take(j as int + 1).last() == survivors@[j as int]);
            }
            j = j + 1;
        }
        proof {
            assert(survivors@.take(m as int) =~= survivors@);
            assert(self.entries() == relocate_spec(oe, ks, fs, retained_classifier));
            assert(relocate_witness(
                oe,
                ks,
                fs,
                is_reachable,
                forward,
                retained_classifier,
                self.entries(),
            ));
        }
    }

    /// Drain law for the traversal. `reset_iterator` puts the cursor at 0
    /// and `next_object` yields `entries()[cursor].addr` advancing the
    /// cursor, then the terminal sentinel (their contracts); this lemma adds
    /// that for a well-formed index those addresses are strictly ascending
    /// and pairwise distinct, so one full drain yields exactly the current
    /// sorted contents, each address once, in ascending order.
    pub proof fn lemma_traversal_yields_sorted_contents_once(self)
        requires
            self.well_formed(),
        ensures
            forall|p: int, q: int|
                0 <= p < q < self.entries().len() ==> self.entries()[p].addr < self.entries()[q].addr,
            forall|p: int, q: int|
                0 <= p < self.entries().len() && 0 <= q < self.entries().len() && p != q
                    ==> self.entries()[p].addr != self.entries()[q].addr,
    {
        lemma_sorted_entries_unique(self.entries());
    }

    /// Begins a traversal: cursor to the start, snapshot of the current
    /// entry count.
    pub fn reset_iterator(&mut self)
        ensures
            final(self).entries() == old(self).entries(),
            final(self).well_formed() == old(self).well_formed(),
            final(self).iter_cursor() == 0,
            final(self).iter_limit() == old(self).entries().len(),
    {
        self.iter_pos = 0;
        self.iter_len = self.untagged_objects.len();
    }

    /// Whether the index changed size since the traversal last observed it;
    /// the walk is best effort, so callers warn and continue.
    pub fn iterator_stale(&self) -> (r: bool)
        ensures
            r == (self.iter_limit() != self.entries().len()),
    {
        self.iter_len != self.untagged_objects.len()
    }

    /// Yields the next address of the traversal in ascending order, or
    /// `None` as the terminal sentinel. A size change is absorbed by
    /// re-recording the length and continuing from the numeric position.
    pub fn next_object(&mut self) -> (r: Option<usize>)
        ensures
            final(self).entries() == old(self).entries(),
            final(self).well_formed() == old(self).well_formed(),
            final(self).iter_limit() == old(self).entries().len(),
            (if old(self).iter_cursor() < old(self).entries().len() {
                r == Some(old(self).entries()[old(self).iter_cursor()].addr)
                    && final(self).iter_cursor() == old(self).iter_cursor() + 1
            } else {
                r == None::<usize> && final(self).iter_cursor() == old(self).iter_cursor()
            }),
    {
        if self.iter_len != self.untagged_objects.len() {
            self.iter_len = self.untagged_objects.len();
        }
        if self.iter_pos < self.untagged_objects.len() {
            let o = self.untagged_objects[self.iter_pos];
            self.iter_pos = self.iter_pos + 1;
            Some(o)
        } else {
            None
        }
    }
}

} // verus!
