//! The vacuum engine: one pass takes a fresh snapshot of the engine's
//! images, seeds the ledger on the first run, prunes entries for images
//! that no longer exist, resolves the threshold, and — when total usage
//! exceeds the limit — orders the eligible candidates oldest first and
//! walks them until usage is back under the limit or no candidate remains.
//! The engine calls that delete images are performed by the caller, which
//! reports each outcome back to the pass.

use vstd::prelude::*;
use vstd::seq_lib::group_to_multiset_ensures;
use vstd::multiset::Multiset;
use crate::keep::KeepSpec;
use crate::keep::opt_protected;
use crate::keep::protected_by;
use crate::state::State;
use crate::state::bytes_eq;
use crate::state::copy_bytes;
use crate::threshold::Threshold;
use crate::threshold::resolve;

verus! {

/// One image as a fresh engine snapshot reports it.
pub struct ImageRecord {
    /// The image identity.
    pub id: Vec<u8>,
    /// The image's size in bytes.
    pub size: u64,
    /// The image's "repository:tag" names; possibly none.
    pub names: Vec<String>,
    /// Whether any container, running or stopped, references the image.
    pub in_use: bool,
}

/// One engine event, as the monitor classifies it.
pub enum Event {
    /// A container started from the image with the given identity.
    ContainerStarted(Vec<u8>),
    /// Any other engine event.
    Other,
}

/// Whether some snapshot image carries the identity `k`.
pub open spec fn snap_contains(snap: Seq<ImageRecord>, k: Seq<u8>) -> bool {
    exists|i: int| 0 <= i < snap.len() && snap[i].id@ == k
}

/// The sum of the snapshot images' sizes, in bytes.
pub open spec fn total_size(snap: Seq<ImageRecord>) -> int
    decreases snap.len(),
{
    if snap.len() == 0 {
        0
    } else {
        total_size(snap.drop_last()) + snap.last().size
    }
}

/// The ledger after first-run seeding: every snapshot image that the
/// ledger does not track gains an entry with time `now`.
pub open spec fn seeded_map(m: Map<Seq<u8>, u64>, snap: Seq<ImageRecord>, now: u64) -> Map<
    Seq<u8>,
    u64,
> {
    Map::new(
        |k: Seq<u8>| m.contains_key(k) || snap_contains(snap, k),
        |k: Seq<u8>|
            if m.contains_key(k) {
                m[k]
            } else {
                now
            },
    )
}

/// The ledger after pruning: only entries whose image the snapshot still
/// holds remain.
pub open spec fn pruned_map(m: Map<Seq<u8>, u64>, snap: Seq<ImageRecord>) -> Map<Seq<u8>, u64> {
    Map::new(|k: Seq<u8>| m.contains_key(k) && snap_contains(snap, k), |k: Seq<u8>| m[k])
}

/// An image may be evicted only when it is not in use and not protected
/// by the keep set.
pub open spec fn eligible(img: ImageRecord, keep: &Option<KeepSpec>) -> bool {
    !img.in_use && !protected_by(keep, img.names.deep_view())
}

/// One eviction candidate.
pub struct Victim {
    /// The image identity.
    pub id: Vec<u8>,
    /// The image's size in bytes.
    pub size: u64,
    /// Whether the ledger holds a record for the image.
    pub known: bool,
    /// The recorded last-used time; meaningful only when known.
    pub last_used: u64,
}

/// The eviction order key: an image the ledger does not know sorts before every
/// known one (absence of usage data is treated as "never used"); known
/// images sort by last-used time, oldest first.
pub open spec fn vkey(v: Victim) -> int {
    if v.known {
        1 + v.last_used as int
    } else {
        0
    }
}

/// The candidates are in non-decreasing eviction-key order.
pub open spec fn sorted_victims(s: Seq<Victim>) -> bool {
    forall|i: int, j: int| 0 <= i <= j < s.len() ==> vkey(s[i]) <= vkey(s[j])
}

/// `v` faithfully describes an eligible snapshot image and its ledger
/// record.
pub open spec fn victim_matches(
    v: Victim,
    snap: Seq<ImageRecord>,
    ledger: Map<Seq<u8>, u64>,
    keep: &Option<KeepSpec>,
) -> bool {
    &&& exists|i: int|
        0 <= i < snap.len() && (#[trigger] snap[i]).id@ == v.id@ && eligible(snap[i], keep)
            && snap[i].size == v.size
    &&& v.known == ledger.contains_key(v.id@)
    &&& (v.known ==> v.last_used == ledger[v.id@])
}

/// Whether the snapshot holds an image with identity `id`.
fn snapshot_has(snapshot: &Vec<ImageRecord>, id: &Vec<u8>) -> (r: bool)
    ensures
        r == snap_contains(snapshot@, id@),
{
    let mut i: usize = 0;
    while i < snapshot.len()
        invariant
            i <= snapshot@.len(),
            forall|k: int| 0 <= k < i ==> snapshot@[k].id@ != id@,
        decreases snapshot@.len() - i,
    {
        if bytes_eq(&snapshot[i].id, id) {
            return true;
        }
        i += 1;
    }
    false
}

/// The snapshot's total usage in bytes.
pub fn sum_sizes(snapshot: &Vec<ImageRecord>) -> (r: u128)
    ensures
        r == total_size(snapshot@),
{
    let mut r: u128 = 0;
    let mut i: usize = 0;
    while i < snapshot.len()
        invariant
            i <= snapshot@.len(),
            r == total_size(snapshot@.take(i as int)),
            r <= i as int * 0xffff_ffff_ffff_ffff,
        decreases snapshot@.len() - i,
    {
        proof {
            assert(snapshot@.take(i + 1).drop_last() =~= snapshot@.take(i as int));
            assert(snapshot@.take(i + 1).last() == snapshot@[i as int]);
        }
        r = r + snapshot[i].size as u128;
        i += 1;
    }
    proof {
        assert(snapshot@.take(snapshot@.len() as int) =~= snapshot@);
    }
    r
}

/// First-run seeding: give every unrecorded snapshot image a ledger entry
/// with time `now`, so that pre-existing images are not treated as the
/// oldest on the very first pass.
pub fn seed_ledger(state: &mut State, snapshot: &Vec<ImageRecord>, now: u64)
    requires
        old(state).wf(),
    ensures
        final(state).wf(),
        final(state)@ == seeded_map(old(state)@, snapshot@, now),
{
    let mut i: usize = 0;
    while i < snapshot.len()
        invariant
            i <= snapshot@.len(),
            state.wf(),
            state@ == seeded_map(old(state)@, snapshot@.take(i as int), now),
        decreases snapshot@.len() - i,
    {
        let ghost pre = state@;
        let id = &snapshot[i].id;
        let known = state.last_used(id).is_some();
        if !known {
            state.touch(id, now);
        }
        proof {
            assert forall|k: Seq<u8>|
                snap_contains(snapshot@.take(i + 1), k) implies snap_contains(
                snapshot@.take(i as int),
                k,
            ) || k == snapshot@[i as int].id@ by {
                let w = choose|w: int|
                    0 <= w < snapshot@.take(i + 1).len() && (#[trigger] snapshot@.take(i + 1)[w]).id@
                        == k;
                if w < i {
                    assert(snapshot@.take(i as int)[w].id@ == k);
                }
            }
            assert forall|k: Seq<u8>|
                snap_contains(snapshot@.take(i as int), k) implies snap_contains(
                snapshot@.take(i + 1),
                k,
            ) by {
                let w = choose|w: int|
                    0 <= w < snapshot@.take(i as int).len() && (#[trigger] snapshot@.take(
                        i as int,
                    )[w]).id@ == k;
                assert(snapshot@.take(i + 1)[w].id@ == k);
            }
            assert(snap_contains(snapshot@.take(i + 1), snapshot@[i as int].id@)) by {
                assert(snapshot@.take(i + 1)[i as int].id@ == snapshot@[i as int].id@);
            }
            assert(state@ =~= seeded_map(old(state)@, snapshot@.take(i + 1), now));
        }
        i += 1;
    }
    proof {
        assert(snapshot@.take(snapshot@.len() as int) =~= snapshot@);
    }
}

/// Prune the ledger: drop every entry whose image the snapshot no longer
/// holds, so stale identities do not accumulate.
pub fn prune_ledger(state: &mut State, snapshot: &Vec<ImageRecord>)
    requires
        old(state).wf(),
    ensures
        final(state).wf(),
        final(state)@ == pruned_map(old(state)@, snapshot@),
{
    let mut stale: Vec<Vec<u8>> = Vec::new();
    let mut i: usize = 0;
    while i < state.entries.len()
        invariant
            i <= state.entries@.len(),
            state == old(state),
            forall|j: int| 0 <= j < stale@.len() ==> !snap_contains(
                snapshot@,
                #[trigger] stale@[j]@,
            ),
            forall|a: int| 0 <= a < i ==> snap_contains(snapshot@, #[trigger] state.entries@[a].id@)
                || exists|j: int| 0 <= j < stale@.len() && stale@[j]@ == state.entries@[a].id@,
        decreases state.entries@.len() - i,
    {
        if !snapshot_has(snapshot, &state.entries[i].id) {
            let ghost pre = stale@;
            stale.push(copy_bytes(&state.entries[i].id));
            proof {
                assert(stale@[pre.len() as int]@ == state.entries@[i as int].id@);
                assert forall|a: int|
                    0 <= a < i + 1 implies snap_contains(
                    snapshot@,
                    #[trigger] state.entries@[a].id@,
                ) || exists|j: int|
                    0 <= j < stale@.len() && stale@[j]@ == state.entries@[a].id@ by {
                    if a < i {
                        if !snap_contains(snapshot@, state.entries@[a].id@) {
                            let j = choose|j: int|
                                0 <= j < pre.len() && pre[j]@ == state.entries@[a].id@;
                            assert(stale@[j]@ == state.entries@[a].id@);
                        }
                    }
                }
            }
        }
        i += 1;
    }
    let ghost mid = state@;
    let ghost stale_all = stale@;
    proof {
        crate::state::lemma_entries_map_domain(state.entries@);
    }
    let mut j: usize = 0;
    while j < stale.len()
        invariant
            j <= stale@.len(),
            stale@ == stale_all,
            state.wf(),
            forall|k: Seq<u8>| #[trigger] state@.contains_key(k) <==> mid.contains_key(k) && !(
            exists|jj: int| 0 <= jj < j && stale@[jj]@ == k),
            forall|k: Seq<u8>| #[trigger] state@.contains_key(k) ==> state@[k] == mid[k],
        decreases stale@.len() - j,
    {
        let ghost pre = state@;
        state.remove_entry(&stale[j]);
        proof {
            assert forall|k: Seq<u8>| #[trigger]
                state@.contains_key(k) <==> mid.contains_key(k) && !(exists|jj: int|
                0 <= jj < j + 1 && stale@[jj]@ == k) by {
                if state@.contains_key(k) {
                    assert(pre.contains_key(k) && k != stale@[j as int]@);
                }
                if mid.contains_key(k) && !(exists|jj: int|
                    0 <= jj < j + 1 && stale@[jj]@ == k) {
                    assert(!(exists|jj: int| 0 <= jj < j && stale@[jj]@ == k));
                    assert(pre.contains_key(k));
                    assert(k != stale@[j as int]@);
                }
            }
        }
        j += 1;
    }
    proof {
        assert forall|k: Seq<u8>| #[trigger]
            state@.contains_key(k) <==> (mid.contains_key(k) && snap_contains(
            snapshot@,
            k,
        )) by {
            if mid.contains_key(k) {
                let a = choose|a: int|
                    0 <= a < old(state).entries@.len() && old(state).entries@[a].id@ == k;
                if snap_contains(snapshot@, k) {
                    assert(!(exists|jj: int| 0 <= jj < stale@.len() && stale@[jj]@ == k));
                } else {
                    assert(exists|jj: int| 0 <= jj < stale@.len() && stale@[jj]@ == k);
                }
            }
        }
        assert(state@ =~= pruned_map(mid, snapshot@));
    }
}

/// Whether `a` sorts at or before `b` in eviction order.
fn key_le(a: &Victim, b: &Victim) -> (r: bool)
    ensures
        r == (vkey(*a) <= vkey(*b)),
{
    if !a.known {
        true
    } else if !b.known {
        false
    } else {
        a.last_used <= b.last_used
    }
}

/// The eligible snapshot images, as eviction candidates in snapshot order.
fn collect_candidates(snapshot: &Vec<ImageRecord>, state: &State, keep: &Option<KeepSpec>) -> (r:
    Vec<Victim>)
    requires
        state.wf(),
    ensures
        forall|j: int| 0 <= j < r@.len() ==> victim_matches(#[trigger] r@[j], snapshot@, state@, keep),
        forall|i: int|
            0 <= i < snapshot@.len() && eligible(#[trigger] snapshot@[i], keep) ==> exists|j: int|
                0 <= j < r@.len() && r@[j].id@ == snapshot@[i].id@,
{
    let mut out: Vec<Victim> = Vec::new();
    let mut i: usize = 0;
    while i < snapshot.len()
        invariant
            i <= snapshot@.len(),
            state.wf(),
            forall|j: int| 0 <= j < out@.len() ==> victim_matches(
                #[trigger] out@[j],
                snapshot@,
                state@,
                keep,
            ),
            forall|a: int|
                0 <= a < i && eligible(#[trigger] snapshot@[a], keep) ==> exists|j: int|
                    0 <= j < out@.len() && out@[j].id@ == snapshot@[a].id@,
        decreases snapshot@.len() - i,
    {
        let img = &snapshot[i];
        if !img.in_use && !opt_protected(keep, &img.names) {
            let looked = state.last_used(&img.id);
            let known = looked.is_some();
            let lu: u64 = match looked {
                Some(t) => t,
                None => 0,
            };
            let ghost pre = out@;
            out.push(Victim { id: copy_bytes(&img.id), size: img.size, known, last_used: lu });
            proof {
                assert(eligible(snapshot@[i as int], keep));
                assert(out@[pre.len() as int].id@ == snapshot@[i as int].id@);
                assert forall|a: int|
                    0 <= a < i + 1 && eligible(#[trigger] snapshot@[a], keep) implies exists|j: int|
                    0 <= j < out@.len() && out@[j].id@ == snapshot@[a].id@ by {
                    if a < i {
                        let j = choose|j: int| 0 <= j < pre.len() && pre[j].id@ == snapshot@[a].id@;
                        assert(out@[j].id@ == snapshot@[a].id@);
                    } else {
                        assert(out@[pre.len() as int].id@ == snapshot@[a].id@);
                    }
                }
            }
        }
        i += 1;
    }
    out
}

/// Sort the candidates into eviction order, keeping exactly the same
/// candidates.
fn sort_victims(input: Vec<Victim>) -> (r: Vec<Victim>)
    ensures
        sorted_victims(r@),
        r@.to_multiset() == input@.to_multiset(),
{
    let ghost orig = input@;
    let mut rest = input;
    proof {
        broadcast use group_to_multiset_ensures;
        broadcast use vstd::multiset::group_multiset_axioms;

        assert(rest@.to_multiset() =~= orig.to_multiset());
        assert(Multiset::<Victim>::empty().add(rest@.to_multiset()) =~= rest@.to_multiset());
    }
    let mut out: Vec<Victim> = Vec::new();
    while rest.len() > 0
        invariant
            sorted_victims(out@),
            out@.to_multiset().add(rest@.to_multiset()) == orig.to_multiset(),
        decreases rest@.len(),
    {
        let ghost rest0 = rest@;
        let v = rest.pop().unwrap();
        proof {
            broadcast use group_to_multiset_ensures;

            assert(rest@.push(v) =~= rest0);
            assert(rest@.push(v).to_multiset() == rest@.to_multiset().insert(v));
            assert(rest0.to_multiset() == rest@.to_multiset().insert(v));
        }
        let mut j: usize = 0;
        while j < out.len() && key_le(&out[j], &v)
            invariant
                j <= out@.len(),
                sorted_victims(out@),
                forall|k: int| 0 <= k < j ==> vkey(out@[k]) <= vkey(v),
            decreases out@.len() - j,
        {
            j += 1;
        }
        let ghost out0 = out@;
        proof {
            assert(j == out0.len() || vkey(out0[j as int]) > vkey(v));
        }
        out.insert(j, v);
        proof {
            broadcast use group_to_multiset_ensures;

            assert(out@ == out0.insert(j as int, v));
            assert(out0.insert(j as int, v).to_multiset() == out0.to_multiset().insert(v));
            assert(out@.to_multiset() == out0.to_multiset().insert(v));
            assert forall|a: int, b: int| 0 <= a <= b < out@.len() implies vkey(out@[a]) <= vkey(
                out@[b],
            ) by {
                if a < j && b < j {
                    assert(out@[a] == out0[a] && out@[b] == out0[b]);
                } else if a < j && b == j {
                    assert(out@[a] == out0[a]);
                } else if a < j && b > j {
                    assert(out@[a] == out0[a] && out@[b] == out0[b - 1]);
                    assert(vkey(out0[a]) <= vkey(out0[b - 1]));
                } else if a == j && b == j {
                } else if a == j && b > j {
                    assert(out@[b] == out0[b - 1]);
                    assert(vkey(out0[j as int]) <= vkey(out0[b - 1]));
                    assert(vkey(v) <= vkey(out0[b - 1]));
                } else {
                    assert(out@[a] == out0[a - 1] && out@[b] == out0[b - 1]);
                    assert(vkey(out0[a - 1]) <= vkey(out0[b - 1]));
                }
            }
            assert(out@.to_multiset().add(rest@.to_multiset()) =~= orig.to_multiset());
        }
    }
    proof {
        broadcast use group_to_multiset_ensures;

        assert(rest@.to_multiset() =~= Multiset::<Victim>::empty()) by {
            broadcast use group_to_multiset_ensures;

            assert(rest@.len() == 0);
            assert(rest@.to_multiset().len() == 0);
        }
        assert(out@.to_multiset() =~= orig.to_multiset());
    }
    out
}

/// One vacuum pass in progress: the ordered candidates, the index of the
/// next one to try, the running total usage, and the resolved limit.
pub struct Pass {
    /// The eviction candidates, oldest first.
    pub victims: Vec<Victim>,
    /// The index of the next candidate to try.
    pub next: usize,
    /// The running total usage, in bytes.
    pub total: u128,
    /// The resolved byte limit.
    pub limit: u64,
}

impl Pass {
    /// The cursor stays within the candidate list.
    pub open spec fn wf(&self) -> bool {
        self.next <= self.victims@.len()
    }

    /// Whether the pass still asks for a deletion: a candidate remains and
    /// usage is still over the limit. When this is false the pass is done,
    /// with zero further deletions.
    pub fn pending(&self) -> (r: bool)
        requires
            self.wf(),
        ensures
            r == (self.next < self.victims@.len() && self.total > self.limit),
    {
        self.next < self.victims.len() && self.total > self.limit as u128
    }

    /// Whether usage is still over the limit (for end-of-pass reporting).
    pub fn over_limit(&self) -> (r: bool)
        ensures
            r == (self.total > self.limit),
    {
        self.total > self.limit as u128
    }

    /// The identity of the current candidate.
    pub fn current_id(&self) -> (r: &Vec<u8>)
        requires
            self.next < self.victims@.len(),
        ensures
            r@ == self.victims@[self.next as int].id@,
    {
        &self.victims[self.next].id
    }

    /// Record that the engine deleted the current candidate: its size
    /// leaves the running total, its ledger entry is dropped, and the pass
    /// moves on.
    pub fn record_deleted(&mut self, state: &mut State)
        requires
            old(self).wf(),
            old(self).next < old(self).victims@.len(),
            old(state).wf(),
        ensures
            final(self).wf(),
            final(state).wf(),
            final(self).victims == old(self).victims,
            final(self).limit == old(self).limit,
            final(self).next == old(self).next + 1,
            final(self).total == if old(self).victims@[old(self).next as int].size as int <= old(
                self,
            ).total as int {
                old(self).total - old(self).victims@[old(self).next as int].size
            } else {
                0
            },
            final(state)@ == old(state)@.remove(old(self).victims@[old(self).next as int].id@),
    {
        let n = self.victims.len();
        let size = self.victims[self.next].size as u128;
        if size <= self.total {
            self.total = self.total - size;
        } else {
            self.total = 0;
        }
        state.remove_entry(&self.victims[self.next].id);
        proof {
            assert(self.next < n);
        }
        self.next = self.next + 1;
    }

    /// Record that deleting the current candidate failed: the pass skips
    /// it and continues with the next one; a single victim's failure never
    /// aborts the pass.
    pub fn record_failed(&mut self)
        requires
            old(self).wf(),
            old(self).next < old(self).victims@.len(),
        ensures
            final(self).wf(),
            final(self).victims == old(self).victims,
            final(self).limit == old(self).limit,
            final(self).total == old(self).total,
            final(self).next == old(self).next + 1,
    {
        let n = self.victims.len();
        proof {
            assert(self.next < n);
        }
        self.next = self.next + 1;
    }
}

/// A reordering of the candidate list keeps exactly the candidates'
/// properties: every element still describes an eligible image, and every
/// eligible image is still represented.
proof fn lemma_permutation_keeps_candidates(
    cseq: Seq<Victim>,
    vs: Seq<Victim>,
    snap: Seq<ImageRecord>,
    ledger: Map<Seq<u8>, u64>,
    keep: &Option<KeepSpec>,
)
    requires
        vs.to_multiset() == cseq.to_multiset(),
        forall|j: int| 0 <= j < cseq.len() ==> victim_matches(#[trigger] cseq[j], snap, ledger, keep),
        forall|i: int|
            0 <= i < snap.len() && eligible(#[trigger] snap[i], keep) ==> exists|j: int|
                0 <= j < cseq.len() && cseq[j].id@ == snap[i].id@,
    ensures
        forall|j: int| 0 <= j < vs.len() ==> victim_matches(#[trigger] vs[j], snap, ledger, keep),
        forall|i: int|
            0 <= i < snap.len() && eligible(#[trigger] snap[i], keep) ==> exists|j: int|
                0 <= j < vs.len() && vs[j].id@ == snap[i].id@,
{
    broadcast use group_to_multiset_ensures;

    assert forall|j: int| 0 <= j < vs.len() implies victim_matches(
        #[trigger] vs[j],
        snap,
        ledger,
        keep,
    ) by {
        assert(vs.contains(vs[j]));
        assert(vs.to_multiset().count(vs[j]) > 0);
        assert(cseq.contains(vs[j]));
        let a = choose|a: int| 0 <= a < cseq.len() && cseq[a] == vs[j];
        assert(victim_matches(cseq[a], snap, ledger, keep));
    }
    assert forall|i: int|
        0 <= i < snap.len() && eligible(#[trigger] snap[i], keep) implies exists|j: int|
        0 <= j < vs.len() && vs[j].id@ == snap[i].id@ by {
        let a = choose|a: int| 0 <= a < cseq.len() && (#[trigger] cseq[a]).id@ == snap[i].id@;
        assert(cseq.contains(cseq[a]));
        assert(cseq.to_multiset().count(cseq[a]) > 0);
        assert(vs.contains(cseq[a]));
        let j = choose|j: int| 0 <= j < vs.len() && vs[j] == cseq[a];
        assert(vs[j].id@ == snap[i].id@);
    }
}

/// Prepare one vacuum pass from a fresh snapshot: seed the ledger on the
/// first run (and clear the flag), prune entries for images that no longer
/// exist, compute the total usage and the resolved limit, and order the
/// eligible candidates oldest first. Images that are in use or protected
/// are never candidates; every eligible image is a candidate.
#[verifier::rlimit(100)]
pub fn prepare(
    state: &mut State,
    first_run: &mut bool,
    snapshot: &Vec<ImageRecord>,
    threshold: &Threshold,
    capacity: u64,
    keep: &Option<KeepSpec>,
    now: u64,
) -> (p: Pass)
    requires
        old(state).wf(),
        threshold.wf(),
    ensures
        final(state).wf(),
        *final(first_run) == false,
        final(state)@ == pruned_map(
            if *old(first_run) {
                seeded_map(old(state)@, snapshot@, now)
            } else {
                old(state)@
            },
            snapshot@,
        ),
        p.wf(),
        p.next == 0,
        p.total == total_size(snapshot@),
        p.limit as int == threshold.spec_resolve(capacity),
        sorted_victims(p.victims@),
        forall|j: int| 0 <= j < p.victims@.len() ==> victim_matches(
            #[trigger] p.victims@[j],
            snapshot@,
            final(state)@,
            keep,
        ),
        forall|i: int|
            0 <= i < snapshot@.len() && eligible(#[trigger] snapshot@[i], keep) ==> exists|j: int|
                0 <= j < p.victims@.len() && p.victims@[j].id@ == snapshot@[i].id@,
{
    if *first_run {
        seed_ledger(state, snapshot, now);
    }
    *first_run = false;
    prune_ledger(state, snapshot);
    let total = sum_sizes(snapshot);
    let limit = resolve(threshold, capacity);
    let cands = collect_candidates(snapshot, state, keep);
    let ghost cseq = cands@;
    let victims = sort_victims(cands);
    proof {
        lemma_permutation_keeps_candidates(cseq, victims@, snapshot@, state@, keep);
    }
    Pass { victims, next: 0, total, limit }
}

/// Apply one engine event to the ledger: a container start touches the
/// image's entry at time `now`; every other event leaves the ledger
/// unchanged. The result says whether the ledger changed and must be
/// persisted.
pub fn process_event(state: &mut State, event: &Event, now: u64) -> (touched: bool)
    requires
        old(state).wf(),
    ensures
        final(state).wf(),
        match event {
            Event::ContainerStarted(id) => touched && final(state)@ == old(state)@.insert(
                id@,
                if old(state)@.contains_key(id@) && old(state)@[id@] > now {
                    old(state)@[id@]
                } else {
                    now
                },
            ),
            Event::Other => !touched && final(state)@ == old(state)@,
        },
{
    match event {
        Event::ContainerStarted(id) => {
            state.touch(id, now);
            true
        },
        Event::Other => false,
    }
}

} // verus!
