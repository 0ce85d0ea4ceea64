use crate::bytes_order::{lex_le, push_all};
use crate::errors::StoreError;
use crate::store::{
    map_after_batch, store_commit_batch, store_map, store_open, store_read_all, StoreHandle,
};
use vstd::bytes::{
    lemma_auto_spec_u64_to_from_le_bytes, spec_u64_from_le_bytes, spec_u64_to_le_bytes,
    u64_from_le_bytes, u64_to_le_bytes,
};
use vstd::multiset::Multiset;
use vstd::prelude::*;

verus! {

/// How the deep view of a vector of byte-vector pairs reads element-wise.
pub proof fn lemma_entry_deep_view(v: Vec<(Vec<u8>, Vec<u8>)>)
    ensures
        v.deep_view().len() == v@.len(),
        forall|i: int|
            0 <= i < v@.len() ==> v.deep_view()[i] == ((#[trigger] v@[i]).0@, v@[i].1@),
{
    assert forall|i: int| 0 <= i < v@.len() implies v.deep_view()[i] == ((#[trigger] v@[i]).0@,
        v@[i].1@) by {
        assert(v@[i].deep_view() == (v@[i].0.deep_view(), v@[i].1.deep_view()));
        assert(v@[i].0.deep_view() =~= v@[i].0@);
        assert(v@[i].1.deep_view() =~= v@[i].1@);
    }
}

/// Bytes one staged entry accounts against the capacity ceiling: its key,
/// its value, and the fixed framing overhead.
pub open spec fn entry_cost(k: Seq<u8>, v: Seq<u8>) -> int {
    k.len() + v.len() + 8int
}

/// Cumulative size of a sequence of staged entries.
pub open spec fn total_cost(s: Seq<(Seq<u8>, Seq<u8>)>) -> int
    decreases s.len(),
{
    if s.len() == 0 {
        0
    } else {
        total_cost(s.drop_last()) + entry_cost(s.last().0, s.last().1)
    }
}

/// The key actually written to the store for the `i`-th staged entry: the
/// join key followed by the fixed-width arrival number, which keeps
/// duplicate join keys distinct in the store.
pub open spec fn frame_key(k: Seq<u8>, i: u64) -> Seq<u8> {
    k + spec_u64_to_le_bytes(i)
}

/// The staged entries as they stand in the store, in arrival order.
pub open spec fn framed(s: Seq<(Seq<u8>, Seq<u8>)>) -> Seq<(Seq<u8>, Seq<u8>)> {
    Seq::new(s.len(), |i: int| (frame_key(s[i].0, i as u64), s[i].1))
}

/// The committed store contents for a fully committed stager.
pub open spec fn map_of_frames(s: Seq<(Seq<u8>, Seq<u8>)>) -> Map<Seq<u8>, Seq<u8>> {
    map_after_batch(Map::<Seq<u8>, Seq<u8>>::empty(), framed(s))
}

/// Two distinct arrival numbers, or two distinct join keys, give distinct
/// store keys.
pub proof fn lemma_frame_key_injective(k1: Seq<u8>, i1: u64, k2: Seq<u8>, i2: u64)
    requires
        frame_key(k1, i1) == frame_key(k2, i2),
    ensures
        k1 == k2,
        i1 == i2,
{
    lemma_auto_spec_u64_to_from_le_bytes();
    let f1 = frame_key(k1, i1);
    let f2 = frame_key(k2, i2);
    assert(f1.len() == k1.len() + 8);
    assert(f2.len() == k2.len() + 8);
    assert(k1.len() == k2.len());
    assert(k1 =~= f1.subrange(0, k1.len() as int));
    assert(k2 =~= f2.subrange(0, k2.len() as int));
    assert(spec_u64_to_le_bytes(i1) =~= f1.subrange(k1.len() as int, f1.len() as int));
    assert(spec_u64_to_le_bytes(i2) =~= f2.subrange(k2.len() as int, f2.len() as int));
    assert(spec_u64_from_le_bytes(spec_u64_to_le_bytes(i1)) == i1);
    assert(spec_u64_from_le_bytes(spec_u64_to_le_bytes(i2)) == i2);
}

/// What `map_of_frames` holds: exactly one pair per staged entry.
pub proof fn lemma_map_of_frames(s: Seq<(Seq<u8>, Seq<u8>)>)
    requires
        s.len() <= u64::MAX,
    ensures
        map_of_frames(s).dom().finite(),
        map_of_frames(s).dom().len() == s.len(),
        forall|k: Seq<u8>, v: Seq<u8>|
            #[trigger] map_of_frames(s).contains_pair(k, v) <==> exists|i: int|
                0 <= i < s.len() && k == frame_key((#[trigger] s[i]).0, i as u64) && v == s[i].1,
    decreases s.len(),
{
    if s.len() == 0 {
        assert(framed(s).len() == 0);
        assert(map_of_frames(s) == Map::<Seq<u8>, Seq<u8>>::empty());
    } else {
        let prefix = s.drop_last();
        lemma_map_of_frames(prefix);
        let n = s.len() - 1;
        let fk = frame_key(s[n].0, n as u64);
        assert(framed(s).drop_last() =~= framed(prefix));
        assert(framed(s).last() == (fk, s[n].1));
        assert(map_of_frames(s) == map_of_frames(prefix).insert(fk, s[n].1));
        // The new frame is not among the old ones: its arrival number is new.
        assert(!map_of_frames(prefix).dom().contains(fk)) by {
            if map_of_frames(prefix).dom().contains(fk) {
                let v0 = map_of_frames(prefix)[fk];
                assert(map_of_frames(prefix).contains_pair(fk, v0));
                let i = choose|i: int|
                    0 <= i < prefix.len() && fk == frame_key((#[trigger] prefix[i]).0, i as u64)
                        && v0 == prefix[i].1;
                lemma_frame_key_injective(prefix[i].0, i as u64, s[n].0, n as u64);
            }
        }
        assert(map_of_frames(s).dom() =~= map_of_frames(prefix).dom().insert(fk));
        assert forall|k: Seq<u8>, v: Seq<u8>| #[trigger]
            map_of_frames(s).contains_pair(k, v) implies exists|i: int|
            0 <= i < s.len() && k == frame_key((#[trigger] s[i]).0, i as u64) && v == s[i].1 by {
            if k == fk {
                assert(v == s[n].1);
                assert(0 <= n < s.len() && k == frame_key(s[n].0, n as u64) && v == s[n].1);
            } else {
                assert(map_of_frames(prefix).contains_pair(k, v));
                let i = choose|i: int|
                    0 <= i < prefix.len() && k == frame_key((#[trigger] prefix[i]).0, i as u64)
                        && v == prefix[i].1;
                assert(0 <= i < s.len() && k == frame_key(s[i].0, i as u64) && v == s[i].1);
            }
        }
        assert forall|k: Seq<u8>, v: Seq<u8>|
            (exists|i: int|
                0 <= i < s.len() && k == frame_key((#[trigger] s[i]).0, i as u64) && v
                    == s[i].1) implies #[trigger] map_of_frames(s).contains_pair(k, v) by {
            let i = choose|i: int|
                0 <= i < s.len() && k == frame_key((#[trigger] s[i]).0, i as u64) && v == s[i].1;
            if i == n {
            } else {
                assert(prefix[i] == s[i]);
                assert(map_of_frames(prefix).contains_pair(k, v));
                if k == fk {
                    lemma_frame_key_injective(s[i].0, i as u64, s[n].0, n as u64);
                    assert(false);
                }
            }
        }
    }
}

/// Write-once-per-record, read-many keyed staging area over a durable store.
/// Records staged through it become visible atomically at `commit`, and
/// `iterate_from_start` then returns them in ascending key-byte order,
/// duplicates in arrival order.
pub struct Stager {
    store: StoreHandle,
    pending: Vec<(Vec<u8>, Vec<u8>)>,
    used: u64,
    ceiling: u64,
    committed: bool,
    poisoned: bool,
    staged: Ghost<Seq<(Seq<u8>, Seq<u8>)>>,
}

impl Stager {
    /// The entries staged so far, as (join key, value) pairs in arrival
    /// order.
    pub closed spec fn staged(&self) -> Seq<(Seq<u8>, Seq<u8>)> {
        self.staged@
    }

    /// Whether the one write transaction of this stager has committed.
    pub closed spec fn is_committed(&self) -> bool {
        self.committed
    }

    /// Whether a failed commit has poisoned this stager: the store may then
    /// hold either the old or the new contents, so the stager refuses
    /// further use rather than read through the broken handle.
    pub closed spec fn is_poisoned(&self) -> bool {
        self.poisoned
    }

    /// The configured capacity ceiling, in bytes.
    pub closed spec fn capacity(&self) -> u64 {
        self.ceiling
    }

    /// The capacity ceiling bounds how many entries can be staged.
    pub proof fn lemma_staged_len_bounded(&self)
        requires
            self.wf(),
        ensures
            8 * self.staged().len() <= self.capacity(),
    {
        lemma_total_cost_lower_bound(self.staged@);
    }

    pub closed spec fn wf(&self) -> bool {
        &&& self.used == total_cost(self.staged@)
        &&& self.used <= self.ceiling
        &&& (self.poisoned ==> !self.committed)
        &&& (!self.poisoned ==> (if self.committed {
            &&& self.pending@.len() == 0
            &&& store_map(self.store) == map_of_frames(self.staged@)
        } else {
            &&& self.pending.deep_view() == framed(self.staged@)
            &&& store_map(self.store) == Map::<Seq<u8>, Seq<u8>>::empty()
        }))
    }

    /// Opens a stager over a fresh store at `path` with the given capacity
    /// ceiling in bytes. The location is created if absent; one that
    /// already holds staged data is refused rather than silently reused.
    /// The ceiling bounds growth, while space is consumed only in
    /// proportion to data actually staged.
    pub fn open_fresh(path: &str, ceiling: u64) -> (r: Result<Stager, StoreError>)
        ensures
            match r {
                Ok(st) => st.wf() && st.staged() == Seq::<(Seq<u8>, Seq<u8>)>::empty()
                    && !st.is_committed() && !st.is_poisoned() && st.capacity() == ceiling,
                Err(e) => e == StoreError::IoFailure,
            },
    {
        let store = store_open(path)?;
        let st = Stager {
            store,
            pending: Vec::new(),
            used: 0,
            ceiling,
            committed: false,
            poisoned: false,
            staged: Ghost(Seq::empty()),
        };
        proof {
            assert(framed(st.staged@) =~= Seq::<(Seq<u8>, Seq<u8>)>::empty());
            assert(st.pending.deep_view() =~= Seq::<(Seq<u8>, Seq<u8>)>::empty());
        }
        Ok(st)
    }

    /// Stages one keyed record. Fails with `AlreadyCommitted` after the
    /// stager's transaction has committed, and with `CapacityExceeded`
    /// exactly when the entry would push the cumulative size over the
    /// ceiling, leaving the staged data unchanged in either case.
    pub fn stage(&mut self, key: Vec<u8>, value: Vec<u8>) -> (r: Result<(), StoreError>)
        requires
            old(self).wf(),
            !old(self).is_poisoned(),
        ensures
            final (self).wf(),
            !final (self).is_poisoned(),
            final (self).capacity() == old(self).capacity(),
            final (self).is_committed() == old(self).is_committed(),
            if old(self).is_committed() {
                r == Err::<(), StoreError>(StoreError::AlreadyCommitted) && final (self).staged()
                    == old(self).staged()
            } else if total_cost(old(self).staged()) + entry_cost(key@, value@) > old(
                self,
            ).capacity() {
                r == Err::<(), StoreError>(StoreError::CapacityExceeded) && final (self).staged()
                    == old(self).staged()
            } else {
                r == Ok::<(), StoreError>(()) && final (self).staged() == old(self).staged().push(
                    (key@, value@),
                )
            },
    {
        if self.committed {
            return Err(StoreError::AlreadyCommitted);
        }
        let cost128: u128 = key.len() as u128 + value.len() as u128 + 8;
        if cost128 > (self.ceiling as u128) - (self.used as u128) {
            return Err(StoreError::CapacityExceeded);
        }
        let cost: u64 = cost128 as u64;
        let seqno: u64 = self.pending.len() as u64;
        proof {
            assert(self.pending.deep_view().len() == self.pending@.len());
            assert(framed(self.staged@).len() == self.staged@.len());
            // Every staged entry costs at least 8 bytes, so the count fits.
            lemma_total_cost_lower_bound(self.staged@);
        }
        let mut fk: Vec<u8> = Vec::new();
        push_all(&mut fk, &key);
        let tail = u64_to_le_bytes(seqno);
        push_all(&mut fk, &tail);
        proof {
            lemma_auto_spec_u64_to_from_le_bytes();
            assert(fk@ =~= frame_key(key@, seqno));
        }
        self.pending.push((fk, value));
        proof {
            self.staged@ = self.staged@.push((key@, value@));
            assert(self.staged@.drop_last() =~= old(self).staged@);
            lemma_entry_deep_view(self.pending);
            lemma_entry_deep_view(old(self).pending);
            assert(self.pending.deep_view() =~= framed(self.staged@)) by {
                let n = old(self).staged@.len();
                assert(old(self).pending@.len() == n);
                assert(self.pending@.len() == n + 1);
                assert forall|i: int| 0 <= i < n + 1 implies self.pending.deep_view()[i] == (
                #[trigger] framed(self.staged@)[i]) by {
                    if i < n {
                        assert(self.pending@[i] == old(self).pending@[i]);
                        assert(old(self).pending.deep_view()[i] == framed(old(self).staged@)[i]);
                        assert(self.staged@[i] == old(self).staged@[i]);
                    } else {
                        assert(self.pending@[i] == (fk, value));
                        assert(self.staged@[i] == (key@, value@));
                    }
                }
            }
        }
        self.used = self.used + cost;
        Ok(())
    }

    /// Commits every staged record as one transaction. On success the whole
    /// batch becomes visible atomically and further writes are refused. On
    /// failure the underlying store may be left holding either the old or
    /// the new contents, so the stager poisons itself and refuses further
    /// use: the in-flight transaction is never left silently open.
    pub fn commit(&mut self) -> (r: Result<(), StoreError>)
        requires
            old(self).wf(),
            !old(self).is_poisoned(),
        ensures
            final (self).wf(),
            final (self).staged() == old(self).staged(),
            final (self).capacity() == old(self).capacity(),
            if old(self).is_committed() {
                r == Err::<(), StoreError>(StoreError::AlreadyCommitted)
                    && final (self).is_committed() && !final (self).is_poisoned()
            } else {
                match r {
                    Ok(_) => final (self).is_committed() && !final (self).is_poisoned(),
                    Err(e) => !final (self).is_committed() && final (self).is_poisoned() && (e
                        == StoreError::IoFailure || e == StoreError::WriterContention),
                }
            },
    {
        if self.committed {
            return Err(StoreError::AlreadyCommitted);
        }
        match store_commit_batch(&mut self.store, &self.pending) {
            Ok(_) => {
                self.pending = Vec::new();
                self.committed = true;
                Ok(())
            },
            Err(e) => {
                self.poisoned = true;
                Err(e)
            },
        }
    }

    /// Ordered iteration over the committed store, from the start: exactly
    /// the staged entries, in ascending key-byte order, entries with equal
    /// keys in arrival order. Readers see the committed snapshot only.
    ///
    /// The store iterates in the byte order of its own keys, which are the
    /// framed keys: a join key followed by its fixed-width arrival tag. That
    /// order does not always agree with (join key, arrival) order — the
    /// tag's byte order diverges from its numeric order, and a join key
    /// that is a prefix of another interleaves with the tag bytes — so the
    /// required order is established here by a proved sort over the read
    /// snapshot rather than assumed of the store.
    pub fn iterate_from_start(&self) -> (r: Result<Vec<(Vec<u8>, Vec<u8>)>, StoreError>)
        requires
            self.wf(),
            self.is_committed(),
        ensures
            match r {
                Ok(v) => v.deep_view() == ordered_entries(self.staged()),
                Err(e) => e == StoreError::IoFailure,
            },
    {
        let ghost staged = self.staged@;
        let raw = match store_read_all(&self.store) {
            Ok(v) => v,
            Err(e) => {
                return Err(e);
            },
        };
        proof {
            lemma_total_cost_lower_bound(staged);
            lemma_map_of_frames(staged);
            lemma_entry_deep_view(raw);
        }
        let mut triples: Vec<(Vec<u8>, u64, Vec<u8>)> = Vec::new();
        let mut i: usize = 0;
        while i < raw.len()
            invariant
                0 <= i <= raw@.len(),
                triples@.len() == i,
                staged == self.staged@,
                staged.len() <= u64::MAX,
                self.wf(),
                self.is_committed(),
                forall|t: int|
                    0 <= t < raw@.len() ==> store_map(self.store).contains_pair(
                        ((#[trigger] raw@[t]).0)@,
                        (raw@[t].1)@,
                    ),
                forall|t: int|
                    0 <= t < i ==> tv(#[trigger] triples@[t]) == unframe(
                        (raw@[t].0)@,
                        (raw@[t].1)@,
                    ),
            decreases raw@.len() - i,
        {
            proof {
                lemma_map_of_frames(staged);
                assert(store_map(self.store).contains_pair((raw@[i as int].0)@, (raw@[
                i as int].1)@));
                let j = choose|j: int|
                    0 <= j < staged.len() && (raw@[i as int].0)@ == frame_key(
                        (#[trigger] staged[j]).0,
                        j as u64,
                    ) && (raw@[i as int].1)@ == staged[j].1;
                lemma_unframe_frame(staged[j].0, j as u64, staged[j].1);
                assert((raw@[i as int].0)@.len() >= 8);
            }
            let fk_len = raw[i].0.len();
            let klen = fk_len - 8;
            let key = vstd::slice::slice_to_vec(
                vstd::slice::slice_subrange(raw[i].0.as_slice(), 0, klen),
            );
            let tail = vstd::slice::slice_subrange(raw[i].0.as_slice(), klen, fk_len);
            let seqno = u64_from_le_bytes(tail);
            let value = vstd::slice::slice_to_vec(raw[i].1.as_slice());
            triples.push((key, seqno, value));
            i = i + 1;
        }
        proof {
            lemma_map_of_frames(staged);
            lemma_entry_deep_view(raw);
            let tw = tviews(triples@);
            let ind = indexed(staged);
            assert(raw@.len() == staged.len()) by {
                assert(raw.deep_view().len() == store_map(self.store).dom().len());
            }
            // Every collected triple is one of the staged indexed entries.
            assert forall|t: int| 0 <= t < tw.len() implies ind.contains(#[trigger] tw[t]) by {
                assert(store_map(self.store).contains_pair((raw@[t].0)@, (raw@[t].1)@)) by {
                    assert(raw.deep_view()[t] == ((raw@[t].0)@, (raw@[t].1)@));
                }
                let j = choose|j: int|
                    0 <= j < staged.len() && (raw@[t].0)@ == frame_key(
                        (#[trigger] staged[j]).0,
                        j as u64,
                    ) && (raw@[t].1)@ == staged[j].1;
                lemma_unframe_frame(staged[j].0, j as u64, staged[j].1);
                assert(tw[t] == ind[j]);
            }
            // No duplicates on either side.
            assert(tw.no_duplicates()) by {
                assert forall|t1: int, t2: int|
                    0 <= t1 < tw.len() && 0 <= t2 < tw.len() && t1 != t2 implies #[trigger] tw[t1]
                    != #[trigger] tw[t2] by {
                    let j1 = choose|j: int|
                        0 <= j < staged.len() && (raw@[t1].0)@ == frame_key(
                            (#[trigger] staged[j]).0,
                            j as u64,
                        ) && (raw@[t1].1)@ == staged[j].1;
                    let j2 = choose|j: int|
                        0 <= j < staged.len() && (raw@[t2].0)@ == frame_key(
                            (#[trigger] staged[j]).0,
                            j as u64,
                        ) && (raw@[t2].1)@ == staged[j].1;
                    assert(store_map(self.store).contains_pair((raw@[t1].0)@, (raw@[t1].1)@));
                    assert(store_map(self.store).contains_pair((raw@[t2].0)@, (raw@[t2].1)@));
                    lemma_unframe_frame(staged[j1].0, j1 as u64, staged[j1].1);
                    lemma_unframe_frame(staged[j2].0, j2 as u64, staged[j2].1);
                    assert(raw.deep_view()[t1].0 == (raw@[t1].0)@);
                    assert(raw.deep_view()[t2].0 == (raw@[t2].0)@);
                    assert((raw@[t1].0)@ != (raw@[t2].0)@);
                    if tw[t1] == tw[t2] {
                        assert(tw[t1] == ind[j1]);
                        assert(tw[t2] == ind[j2]);
                        assert(j1 as u64 == j2 as u64);
                        assert(j1 == j2);
                        assert(false);
                    }
                }
            }
            assert(ind.no_duplicates()) by {
                assert forall|t1: int, t2: int|
                    0 <= t1 < ind.len() && 0 <= t2 < ind.len() && t1 != t2 implies #[trigger] ind[t1]
                    != #[trigger] ind[t2] by {
                    assert(ind[t1].1 == t1 as u64);
                    assert(ind[t2].1 == t2 as u64);
                }
            }
            lemma_no_dup_same_multiset(tw, ind);
        }
        let sorted = sort_triples(triples);
        proof {
            let leq = triple_leq();
            lemma_triple_total_ordering();
            indexed(staged).lemma_sort_by_ensures(leq);
            vstd::seq_lib::lemma_sorted_unique(tviews(sorted@), indexed(staged).sort_by(leq), leq);
            assert(tviews(sorted@) == indexed(staged).sort_by(leq));
        }
        let mut out: Vec<(Vec<u8>, Vec<u8>)> = Vec::new();
        let mut i: usize = 0;
        while i < sorted.len()
            invariant
                0 <= i <= sorted@.len(),
                out@.len() == i,
                forall|t: int|
                    0 <= t < i ==> (#[trigger] out@[t]).0@ == tv(sorted@[t]).0 && out@[t].1@ == tv(
                        sorted@[t],
                    ).2,
            decreases sorted@.len() - i,
        {
            let key = vstd::slice::slice_to_vec(sorted[i].0.as_slice());
            let value = vstd::slice::slice_to_vec(sorted[i].2.as_slice());
            out.push((key, value));
            i = i + 1;
        }
        proof {
            lemma_entry_deep_view(out);
            assert(out.deep_view() =~= ordered_entries(staged)) by {
                let target = indexed(staged).sort_by(triple_leq()).map_values(
                    |t: (Seq<u8>, u64, Seq<u8>)| (t.0, t.2),
                );
                assert(out.deep_view().len() == target.len());
                assert forall|t: int| 0 <= t < target.len() implies out.deep_view()[t] == target[t] by {
                    assert(tviews(sorted@)[t] == indexed(staged).sort_by(triple_leq())[t]);
                    assert(out.deep_view()[t] == ((out@[t].0)@, (out@[t].1)@));
                }
            }
        }
        Ok(out)
    }
}

/// Each staged entry accounts at least its framing overhead, so the count of
/// staged entries is bounded by the cumulative size.
pub proof fn lemma_total_cost_lower_bound(s: Seq<(Seq<u8>, Seq<u8>)>)
    ensures
        total_cost(s) >= 8 * s.len(),
    decreases s.len(),
{
    if s.len() > 0 {
        lemma_total_cost_lower_bound(s.drop_last());
    }
}

/// Order on (join key, arrival number, value) triples: by key bytes, then by
/// arrival, then by value bytes. A total ordering.
pub open spec fn triple_le(a: (Seq<u8>, u64, Seq<u8>), b: (Seq<u8>, u64, Seq<u8>)) -> bool {
    if a.0 != b.0 {
        lex_le(a.0, b.0)
    } else if a.1 != b.1 {
        a.1 < b.1
    } else {
        lex_le(a.2, b.2)
    }
}

/// The triple order as a first-class relation, for sorting.
pub open spec fn triple_leq() -> spec_fn((Seq<u8>, u64, Seq<u8>), (Seq<u8>, u64, Seq<u8>)) -> bool {
    |a: (Seq<u8>, u64, Seq<u8>), b: (Seq<u8>, u64, Seq<u8>)| triple_le(a, b)
}

pub proof fn lemma_triple_le_total(a: (Seq<u8>, u64, Seq<u8>), b: (Seq<u8>, u64, Seq<u8>))
    ensures
        triple_le(a, b) || triple_le(b, a),
        triple_le(a, b) && triple_le(b, a) ==> a == b,
{
    crate::bytes_order::lemma_lex_le_total(a.0, b.0);
    crate::bytes_order::lemma_lex_le_total(a.2, b.2);
    if triple_le(a, b) && triple_le(b, a) {
        if a.0 != b.0 {
            crate::bytes_order::lemma_lex_le_antisymmetric(a.0, b.0);
        } else if a.1 == b.1 {
            crate::bytes_order::lemma_lex_le_antisymmetric(a.2, b.2);
        }
    }
}

pub proof fn lemma_triple_le_trans(
    a: (Seq<u8>, u64, Seq<u8>),
    b: (Seq<u8>, u64, Seq<u8>),
    c: (Seq<u8>, u64, Seq<u8>),
)
    requires
        triple_le(a, b),
        triple_le(b, c),
    ensures
        triple_le(a, c),
{
    crate::bytes_order::lemma_lex_le_total(a.0, b.0);
    crate::bytes_order::lemma_lex_le_total(b.0, c.0);
    if a.0 != b.0 && b.0 != c.0 {
        crate::bytes_order::lemma_lex_le_transitive(a.0, b.0, c.0);
        if a.0 == c.0 {
            crate::bytes_order::lemma_lex_le_antisymmetric(a.0, b.0);
        }
    } else if a.0 == b.0 && b.0 == c.0 {
        if a.1 == b.1 && b.1 == c.1 {
            crate::bytes_order::lemma_lex_le_transitive(a.2, b.2, c.2);
        }
    }
}

pub proof fn lemma_triple_total_ordering()
    ensures
        vstd::relations::total_ordering(triple_leq()),
{
    let leq = triple_leq();
    assert forall|a: (Seq<u8>, u64, Seq<u8>)| #[trigger] leq(a, a) by {
        lemma_triple_le_total(a, a);
    }
    assert forall|a: (Seq<u8>, u64, Seq<u8>), b: (Seq<u8>, u64, Seq<u8>)| #[trigger]
        leq(a, b) && #[trigger] leq(b, a) implies a == b by {
        lemma_triple_le_total(a, b);
    }
    assert forall|a: (Seq<u8>, u64, Seq<u8>), b: (Seq<u8>, u64, Seq<u8>), c: (Seq<u8>, u64, Seq<u8>)|
        #[trigger] leq(a, b) && #[trigger] leq(b, c) implies leq(a, c) by {
        lemma_triple_le_trans(a, b, c);
    }
    assert forall|a: (Seq<u8>, u64, Seq<u8>), b: (Seq<u8>, u64, Seq<u8>)| #[trigger]
        leq(a, b) || #[trigger] leq(b, a) by {
        lemma_triple_le_total(a, b);
    }
}

/// The staged entries tagged with their arrival numbers.
pub open spec fn indexed(s: Seq<(Seq<u8>, Seq<u8>)>) -> Seq<(Seq<u8>, u64, Seq<u8>)> {
    Seq::new(s.len(), |i: int| (s[i].0, i as u64, s[i].1))
}

/// What ordered iteration of a committed stager returns: the staged entries
/// sorted by key bytes, entries with equal keys kept in arrival order.
pub open spec fn ordered_entries(s: Seq<(Seq<u8>, Seq<u8>)>) -> Seq<(Seq<u8>, Seq<u8>)> {
    indexed(s).sort_by(triple_leq()).map_values(|t: (Seq<u8>, u64, Seq<u8>)| (t.0, t.2))
}

/// Spec view of one executable triple.
pub open spec fn tv(t: (Vec<u8>, u64, Vec<u8>)) -> (Seq<u8>, u64, Seq<u8>) {
    (t.0@, t.1, t.2@)
}

/// Spec views of a vector of executable triples.
pub open spec fn tviews(s: Seq<(Vec<u8>, u64, Vec<u8>)>) -> Seq<(Seq<u8>, u64, Seq<u8>)> {
    Seq::new(s.len(), |i: int| tv(s[i]))
}

/// Executable triple comparison, proved equivalent to `triple_le`.
fn triple_le_exec(a: &(Vec<u8>, u64, Vec<u8>), b: &(Vec<u8>, u64, Vec<u8>)) -> (r: bool)
    ensures
        r == triple_le(tv(*a), tv(*b)),
{
    if !crate::bytes_order::bytes_eq(&a.0, &b.0) {
        crate::bytes_order::bytes_le(&a.0, &b.0)
    } else if a.1 != b.1 {
        a.1 < b.1
    } else {
        crate::bytes_order::bytes_le(&a.2, &b.2)
    }
}

/// Inserting an element anywhere adds exactly it to the sequence's multiset.
proof fn lemma_insert_multiset<A>(s: Seq<A>, p: int, e: A)
    requires
        0 <= p <= s.len(),
    ensures
        s.insert(p, e).to_multiset() == s.to_multiset().insert(e),
{
    broadcast use vstd::seq_lib::group_to_multiset_ensures;

    assert(s.insert(p, e) =~= s.take(p) + seq![e] + s.skip(p));
    vstd::seq_lib::lemma_multiset_commutative(s.take(p) + seq![e], s.skip(p));
    vstd::seq_lib::lemma_multiset_commutative(s.take(p), seq![e]);
    assert(seq![e].to_multiset() =~= Multiset::<A>::empty().insert(e)) by {
        assert(seq![e] =~= Seq::<A>::empty().push(e));
        assert(Seq::<A>::empty().to_multiset() =~= Multiset::<A>::empty());
    }
    vstd::seq_lib::lemma_multiset_commutative(s.take(p), s.skip(p));
    assert(s.take(p) + s.skip(p) =~= s);
    assert(s.insert(p, e).to_multiset() =~= s.to_multiset().insert(e));
}

/// Two duplicate-free sequences of the same length, the first contained in
/// the second element-wise, carry the same multiset.
proof fn lemma_no_dup_same_multiset<A>(x: Seq<A>, y: Seq<A>)
    requires
        x.no_duplicates(),
        y.no_duplicates(),
        x.len() == y.len(),
        forall|e: A| x.contains(e) ==> y.contains(e),
    ensures
        x.to_multiset() == y.to_multiset(),
{
    broadcast use vstd::seq_lib::group_to_multiset_ensures;

    x.unique_seq_to_set();
    y.unique_seq_to_set();
    assert(x.to_set().subset_of(y.to_set()));
    assert(x.to_set() =~= y.to_set()) by {
        if x.to_set() != y.to_set() {
            let e = choose|e: A| y.to_set().contains(e) && !x.to_set().contains(e);
            assert(y.to_set().contains(e) && !x.to_set().contains(e)) by {
                assert(exists|e: A| y.to_set().contains(e) && !x.to_set().contains(e)) by {
                    vstd::set_lib::lemma_len_subset(x.to_set(), y.to_set());
                    if forall|e: A| y.to_set().contains(e) ==> x.to_set().contains(e) {
                        assert(y.to_set() =~= x.to_set());
                    }
                }
            }
            assert(x.to_set().subset_of(y.to_set().remove(e)));
            vstd::set_lib::lemma_len_subset(x.to_set(), y.to_set().remove(e));
            assert(y.to_set().remove(e).len() == y.to_set().len() - 1);
            assert(false);
        }
    }
    x.lemma_multiset_has_no_duplicates();
    y.lemma_multiset_has_no_duplicates();
    assert(x.to_multiset() =~= y.to_multiset()) by {
        assert forall|e: A| x.to_multiset().count(e) == #[trigger] y.to_multiset().count(e) by {
            assert(x.contains(e) <==> x.to_set().contains(e));
            assert(y.contains(e) <==> y.to_set().contains(e));
            assert(x.contains(e) <==> x.to_multiset().count(e) > 0);
            assert(y.contains(e) <==> y.to_multiset().count(e) > 0);
            if x.contains(e) {
                assert(x.to_multiset().count(e) == 1);
                assert(y.to_multiset().count(e) == 1);
            } else {
                assert(x.to_multiset().count(e) == 0);
                assert(y.to_multiset().count(e) == 0);
            }
        }
    }
}

/// Ordering law: ordered iteration returns keys in non-decreasing byte
/// order, whatever was staged.
pub proof fn lemma_ordered_entries_sorted(s: Seq<(Seq<u8>, Seq<u8>)>)
    ensures
        forall|i: int, j: int|
            0 <= i < j < ordered_entries(s).len() ==> lex_le(
                (#[trigger] ordered_entries(s)[i]).0,
                (#[trigger] ordered_entries(s)[j]).0,
            ),
{
    let leq = triple_leq();
    lemma_triple_total_ordering();
    indexed(s).lemma_sort_by_ensures(leq);
    let sorted = indexed(s).sort_by(leq);
    assert forall|i: int, j: int| 0 <= i < j < ordered_entries(s).len() implies lex_le(
        (#[trigger] ordered_entries(s)[i]).0,
        (#[trigger] ordered_entries(s)[j]).0,
    ) by {
        assert(leq(sorted[i], sorted[j]));
        assert(triple_le(sorted[i], sorted[j]));
        if sorted[i].0 == sorted[j].0 {
            crate::bytes_order::lemma_lex_le_total(sorted[i].0, sorted[j].0);
        }
        assert(ordered_entries(s)[i] == (sorted[i].0, sorted[i].2));
        assert(ordered_entries(s)[j] == (sorted[j].0, sorted[j].2));
    }
}

/// Round-trip law: ordered iteration yields exactly one row per staged
/// entry, and every staged (key, value) pair appears among them, payload
/// byte for byte.
pub proof fn lemma_ordered_entries_round_trip(s: Seq<(Seq<u8>, Seq<u8>)>, i: int)
    requires
        0 <= i < s.len(),
    ensures
        ordered_entries(s).len() == s.len(),
        exists|j: int|
            0 <= j < ordered_entries(s).len() && #[trigger] ordered_entries(s)[j] == (
            s[i].0,
            s[i].1,
            ),
{
    broadcast use vstd::seq_lib::group_to_multiset_ensures;

    let leq = triple_leq();
    lemma_triple_total_ordering();
    let ind = indexed(s);
    ind.lemma_sort_by_ensures(leq);
    let sorted = ind.sort_by(leq);
    assert(sorted.len() == ind.len()) by {
        assert(sorted.to_multiset().len() == sorted.len());
        assert(ind.to_multiset().len() == ind.len());
    }
    assert(ind.contains(ind[i]));
    assert(ind.to_multiset().contains(ind[i]));
    assert(sorted.to_multiset().contains(ind[i]));
    assert(sorted.contains(ind[i]));
    let j = choose|j: int| 0 <= j < sorted.len() && sorted[j] == ind[i];
    assert(ordered_entries(s)[j] == (sorted[j].0, sorted[j].2));
    assert(ordered_entries(s)[j] == (s[i].0, s[i].1));
}

/// Stability law: two staged entries with the same join key keep their
/// arrival order in ordered iteration; no other order is defined between
/// duplicates.
pub proof fn lemma_ordered_entries_stable(s: Seq<(Seq<u8>, Seq<u8>)>, i1: int, i2: int)
    requires
        0 <= i1 < i2 < s.len(),
        s.len() <= u64::MAX,
        s[i1].0 == s[i2].0,
    ensures
        exists|j1: int, j2: int|
            0 <= j1 < j2 < ordered_entries(s).len() && #[trigger] ordered_entries(s)[j1] == (
            s[i1].0,
            s[i1].1,
            ) && #[trigger] ordered_entries(s)[j2] == (s[i2].0, s[i2].1),
{
    broadcast use vstd::seq_lib::group_to_multiset_ensures;

    let leq = triple_leq();
    lemma_triple_total_ordering();
    let ind = indexed(s);
    ind.lemma_sort_by_ensures(leq);
    let sorted = ind.sort_by(leq);
    assert(sorted.len() == ind.len()) by {
        assert(sorted.to_multiset().len() == sorted.len());
        assert(ind.to_multiset().len() == ind.len());
    }
    assert(ind.contains(ind[i1]));
    assert(ind.contains(ind[i2]));
    assert(sorted.to_multiset().contains(ind[i1]));
    assert(sorted.to_multiset().contains(ind[i2]));
    assert(sorted.contains(ind[i1]));
    assert(sorted.contains(ind[i2]));
    let j1 = choose|j: int| 0 <= j < sorted.len() && sorted[j] == ind[i1];
    let j2 = choose|j: int| 0 <= j < sorted.len() && sorted[j] == ind[i2];
    assert(ind[i1].1 == i1 as u64 && ind[i2].1 == i2 as u64);
    assert(ind[i1] != ind[i2]);
    assert(j1 != j2);
    if j2 < j1 {
        assert(leq(sorted[j2], sorted[j1]));
        assert(triple_le(ind[i2], ind[i1]));
        assert(false);
    }
    assert(ordered_entries(s)[j1] == (sorted[j1].0, sorted[j1].2));
    assert(ordered_entries(s)[j2] == (sorted[j2].0, sorted[j2].2));
    assert(ordered_entries(s)[j1] == (s[i1].0, s[i1].1));
    assert(ordered_entries(s)[j2] == (s[i2].0, s[i2].1));
}

/// Splitting a framed store key back into join key and arrival number.
pub open spec fn unframe(fk: Seq<u8>, v: Seq<u8>) -> (Seq<u8>, u64, Seq<u8>)
    recommends
        fk.len() >= 8,
{
    (
        fk.subrange(0, fk.len() - 8),
        spec_u64_from_le_bytes(fk.subrange(fk.len() - 8, fk.len() as int)),
        v,
    )
}

pub proof fn lemma_unframe_frame(k: Seq<u8>, i: u64, v: Seq<u8>)
    ensures
        unframe(frame_key(k, i), v) == (k, i, v),
        frame_key(k, i).len() == k.len() + 8,
{
    lemma_auto_spec_u64_to_from_le_bytes();
    let fk = frame_key(k, i);
    assert(fk.len() == k.len() + 8);
    assert(fk.subrange(0, k.len() as int) =~= k);
    assert(fk.subrange(fk.len() - 8, fk.len() as int) =~= spec_u64_to_le_bytes(i));
}

/// Stable insertion sort over (key, arrival, value) triples.
fn sort_triples(input: Vec<(Vec<u8>, u64, Vec<u8>)>) -> (r: Vec<(Vec<u8>, u64, Vec<u8>)>)
    ensures
        tviews(r@).to_multiset() == tviews(input@).to_multiset(),
        vstd::relations::sorted_by(tviews(r@), triple_leq()),
{
    broadcast use vstd::seq_lib::group_to_multiset_ensures;

    let mut rest = input;
    let mut out: Vec<(Vec<u8>, u64, Vec<u8>)> = Vec::new();
    proof {
        assert(tviews(out@) =~= Seq::<(Seq<u8>, u64, Seq<u8>)>::empty());
        assert(tviews(rest@) =~= tviews(input@));
        assert(tviews(out@).to_multiset().add(tviews(rest@).to_multiset()) =~= tviews(
            input@,
        ).to_multiset());
    }
    while rest.len() > 0
        invariant
            tviews(out@).to_multiset().add(tviews(rest@).to_multiset()) == tviews(
                input@,
            ).to_multiset(),
            vstd::relations::sorted_by(tviews(out@), triple_leq()),
        decreases rest@.len(),
    {
        broadcast use vstd::seq_lib::group_to_multiset_ensures;

        let ghost rest0 = rest@;
        let ghost out0 = out@;
        let e = rest.remove(0);
        proof {
            assert(rest@ =~= rest0.skip(1));
            assert(tviews(rest@) =~= tviews(rest0).skip(1));
            assert(tviews(rest0) =~= tviews(rest0).take(0).push(tv(e)) + tviews(rest0).skip(1));
            vstd::seq_lib::lemma_multiset_commutative(
                tviews(rest0).take(0).push(tv(e)),
                tviews(rest0).skip(1),
            );
            assert(tviews(rest0).take(0).push(tv(e)).to_multiset() =~= Multiset::<
                (Seq<u8>, u64, Seq<u8>),
            >::empty().insert(tv(e))) by {
                assert(tviews(rest0).take(0) =~= Seq::<(Seq<u8>, u64, Seq<u8>)>::empty());
            }
            assert(tviews(rest0).to_multiset() =~= tviews(rest@).to_multiset().insert(tv(e)));
        }
        let mut p: usize = 0;
        while p < out.len() && triple_le_exec(&out[p], &e)
            invariant
                0 <= p <= out@.len(),
                forall|j: int| 0 <= j < p ==> triple_le(tv(#[trigger] out@[j]), tv(e)),
                vstd::relations::sorted_by(tviews(out@), triple_leq()),
            decreases out@.len() - p,
        {
            p = p + 1;
        }
        proof {
            if p < out@.len() {
                lemma_triple_le_total(tv(out@[p as int]), tv(e));
            }
        }
        out.insert(p, e);
        proof {
            assert(out@ =~= out0.insert(p as int, e));
            assert(tviews(out@) =~= tviews(out0).insert(p as int, tv(e)));
            lemma_insert_multiset(tviews(out0), p as int, tv(e));
            // Sortedness of the extended prefix.
            let s = tviews(out@);
            let leq = triple_leq();
            assert forall|i: int, j: int| 0 <= i < j < s.len() implies leq(s[i], s[j]) by {
                let s0 = tviews(out0);
                if j < p {
                    assert(s[i] == s0[i] && s[j] == s0[j]);
                } else if i > p {
                    assert(s[i] == s0[i - 1] && s[j] == s0[j - 1]);
                } else if i < p && j == p {
                    assert(s[i] == s0[i] && s[j] == tv(e));
                    assert(triple_le(tv(out0[i]), tv(e)));
                } else if i == p && j > p {
                    assert(s[i] == tv(e) && s[j] == s0[j - 1]);
                    if p < s0.len() {
                        assert(triple_le(tv(e), s0[p as int]));
                        if j - 1 > p {
                            assert(leq(s0[p as int], s0[j - 1]));
                            lemma_triple_le_trans(tv(e), s0[p as int], s0[j - 1]);
                        }
                    }
                } else if i < p && j > p {
                    assert(s[i] == s0[i] && s[j] == s0[j - 1]);
                    assert(triple_le(tv(out0[i]), tv(e)));
                    assert(s[p as int] == tv(e));
                    if p < s0.len() {
                        assert(triple_le(tv(e), s0[p as int]));
                    }
                    if j - 1 == i {
                        assert(leq(s0[i], s0[j - 1]));
                        assert(leq(s[i], s[j])) by {
                            lemma_triple_le_total(s0[i], s0[i]);
                        }
                    } else {
                        assert(leq(s0[i], s0[j - 1]));
                    }
                }
            }
        }
    }
    proof {
        assert(tviews(rest@).to_multiset() =~= Multiset::<(Seq<u8>, u64, Seq<u8>)>::empty()) by {
            assert(tviews(rest@) =~= Seq::<(Seq<u8>, u64, Seq<u8>)>::empty());
        }
        assert(tviews(out@).to_multiset() =~= tviews(input@).to_multiset());
    }
    out
}

} // verus!
