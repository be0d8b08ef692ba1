//! The board registry: the authoritative live device table and its
//! hot-plug reconciliation.
//!
//! Each entry pairs a session-scoped [`BoardId`] with an optional discovery
//! key — the transport-level identity (a device path) of a hot-pluggable
//! device.  Entries without a key sit on the internal bus and are never
//! evicted.  Reconciliation runs on demand only: an eviction pass drops the
//! keyed entries whose liveness probe failed, then a discovery pass
//! registers every enumerated candidate whose key is not already live.  The
//! probes, the enumeration and the opening of devices are hardware work and
//! happen outside this crate; their outcomes are handed in as plain values,
//! and every decision taken on them is verified here.

use vstd::prelude::*;

use crate::BoardId;

verus! {

/// One live device: its identifier and, for hot-pluggable transports, the
/// discovery key that recognizes the same physical device across
/// enumeration passes.
pub struct BoardEntry {
    pub id: BoardId,
    pub key: Option<Vec<u8>>,
}

/// The mathematical image of an entry, which the registry's contracts
/// speak of: the identifier and the key as a plain byte sequence.
pub struct EntrySnap {
    pub id: BoardId,
    pub key: Option<Seq<u8>>,
}

/// The image of an entry.
pub open spec fn view_entry(e: BoardEntry) -> EntrySnap {
    EntrySnap {
        id: e.id,
        key: match e.key {
            Some(k) => Some(k@),
            None => None,
        },
    }
}

/// The image of a table.
pub open spec fn view_entries(es: Seq<BoardEntry>) -> Seq<EntrySnap> {
    es.map_values(|e: BoardEntry| view_entry(e))
}

/// Whether some entry of `es` carries the discovery key `k`.
pub open spec fn spec_has_key(es: Seq<EntrySnap>, k: Seq<u8>) -> bool {
    exists|i: int| 0 <= i < es.len() && (#[trigger] es[i]).key == Some(k)
}

/// Whether some entry of `es` carries the identifier `id`.
pub open spec fn spec_has_id(es: Seq<EntrySnap>, id: BoardId) -> bool {
    exists|i: int| 0 <= i < es.len() && (#[trigger] es[i]).id == id
}

/// Identifiers pairwise distinct, and discovery keys pairwise distinct.
pub open spec fn spec_entries_wf(es: Seq<EntrySnap>) -> bool {
    forall|i: int, j: int|
        0 <= i < es.len() && 0 <= j < es.len() && i != j ==> (#[trigger] es[i]).id != (
        #[trigger] es[j]).id && !(es[i].key is Some && es[i].key == es[j].key)
}

/// The eviction pass: keep an entry if it has no discovery key (internal
/// bus) or its probe found it alive.
pub open spec fn spec_evict(es: Seq<EntrySnap>, alive: Seq<bool>) -> Seq<EntrySnap>
    decreases es.len(),
{
    if es.len() == 0 {
        Seq::empty()
    } else {
        let keep = es[0].key is None || alive[0];
        let rest = spec_evict(es.drop_first(), alive.drop_first());
        if keep {
            seq![es[0]] + rest
        } else {
            rest
        }
    }
}

/// The discovery pass: walk the enumerated candidates in order; a
/// candidate whose open succeeded and whose key is not already live is
/// registered under its fresh identifier, unless that identifier already
/// names a board.
pub open spec fn spec_discover(
    es: Seq<EntrySnap>,
    keys: Seq<Seq<u8>>,
    opened: Seq<bool>,
    ids: Seq<BoardId>,
) -> Seq<EntrySnap>
    decreases keys.len(),
{
    if keys.len() == 0 {
        es
    } else {
        let es1 = if opened[0] && !spec_has_key(es, keys[0]) && !spec_has_id(es, ids[0]) {
            es.push(EntrySnap { id: ids[0], key: Some(keys[0]) })
        } else {
            es
        };
        spec_discover(es1, keys.drop_first(), opened.drop_first(), ids.drop_first())
    }
}

/// The views of a list of candidate keys.
pub open spec fn spec_key_views(keys: Seq<Vec<u8>>) -> Seq<Seq<u8>> {
    keys.map_values(|k: Vec<u8>| k@)
}

/// The live device table.
pub struct Registry {
    pub entries: Vec<BoardEntry>,
}

impl Registry {
    /// The image of the table.
    pub open spec fn snap(self) -> Seq<EntrySnap> {
        view_entries(self.entries@)
    }

    /// The identifiers of the live boards, in table order.
    pub open spec fn spec_ids(self) -> Seq<BoardId> {
        self.snap().map_values(|e: EntrySnap| e.id)
    }

    pub open spec fn wf(self) -> bool {
        spec_entries_wf(self.snap())
    }

    /// An empty table.
    pub fn new() -> (r: Registry)
        ensures
            r.snap() =~= Seq::<EntrySnap>::empty(),
            r.wf(),
    {
        Registry { entries: Vec::new() }
    }

    /// The current identifier set, order-insignificant.
    pub fn boards(&self) -> (r: Vec<BoardId>)
        ensures
            r@ == self.spec_ids(),
    {
        let mut out: Vec<BoardId> = Vec::new();
        let mut i: usize = 0;
        while i < self.entries.len()
            invariant
                i <= self.entries@.len(),
                out@ =~= self.spec_ids().take(i as int),
            decreases self.entries@.len() - i,
        {
            out.push(self.entries[i].id);
            proof {
                let m = self.spec_ids();
                assert(m[i as int] == self.entries@[i as int].id);
                assert(m.take(i + 1) =~= m.take(i as int).push(m[i as int]));
            }
            i = i + 1;
        }
        proof {
            assert(self.spec_ids().take(self.spec_ids().len() as int) =~= self.spec_ids());
        }
        out
    }

    /// The position of the entry with identifier `id`, if it is live.
    pub fn find(&self, id: BoardId) -> (r: Option<usize>)
        ensures
            match r {
                Some(i) => i < self.snap().len() && self.snap()[i as int].id == id,
                None => !spec_has_id(self.snap(), id),
            },
    {
        let mut i: usize = 0;
        while i < self.entries.len()
            invariant
                i <= self.snap().len(),
                forall|j: int| 0 <= j < i ==> (#[trigger] self.snap()[j]).id != id,
            decreases self.snap().len() - i,
        {
            if self.entries[i].id.0 == id.0 {
                return Some(i);
            }
            i = i + 1;
        }
        None
    }

    /// Whether a discovery key already names a live entry: the check that
    /// keeps an already-known physical device from being registered twice.
    pub fn contains_key(&self, key: &Vec<u8>) -> (r: bool)
        ensures
            r == spec_has_key(self.snap(), key@),
    {
        let mut i: usize = 0;
        while i < self.entries.len()
            invariant
                i <= self.snap().len(),
                forall|j: int| 0 <= j < i ==> (#[trigger] self.snap()[j]).key != Some(key@),
            decreases self.snap().len() - i,
        {
            let hit = match &self.entries[i].key {
                Some(k) => bytes_eq(k, key),
                None => false,
            };
            if hit {
                proof {
                    assert(self.snap()[i as int].key == Some(key@));
                }
                return true;
            }
            i = i + 1;
        }
        false
    }

    /// Register a discovered device.  Nothing changes, and `false` comes
    /// back, if the identifier or the discovery key already names a live
    /// entry: a fresh identifier is demanded, and an already-known device
    /// must never be registered twice.
    pub fn register(&mut self, id: BoardId, key: Option<Vec<u8>>) -> (r: bool)
        requires
            old(self).wf(),
        ensures
            final(self).wf(),
            r ==> final(self).snap() == old(self).snap().push(
                EntrySnap {
                    id,
                    key: match key {
                        Some(k) => Some(k@),
                        None => None,
                    },
                },
            ),
            !r ==> final(self).snap() == old(self).snap(),
            r == !(spec_has_id(old(self).snap(), id) || (key matches Some(k) && spec_has_key(
                old(self).snap(),
                k@,
            ))),
    {
        if self.find(id).is_some() {
            return false;
        }
        let dup = match &key {
            Some(k) => self.contains_key(k),
            None => false,
        };
        if dup {
            return false;
        }
        let ghost old_snap = self.snap();
        let ghost snap_new = EntrySnap {
            id,
            key: match &key {
                Some(k) => Some(k@),
                None => None,
            },
        };
        self.entries.push(BoardEntry { id, key });
        proof {
            assert(self.snap() =~= old_snap.push(snap_new));
            assert forall|i: int, j: int|
                0 <= i < self.snap().len() && 0 <= j < self.snap().len() && i != j implies (
            #[trigger] self.snap()[i]).id != (#[trigger] self.snap()[j]).id && !(self.snap()[i].key
                is Some && self.snap()[i].key == self.snap()[j].key) by {
                if i < old_snap.len() && j < old_snap.len() {
                    assert(old_snap[i] == self.snap()[i]);
                    assert(old_snap[j] == self.snap()[j]);
                }
            }
        }
        true
    }

    /// The eviction pass of `refresh`.  `alive[i]` is the probe outcome
    /// for entry `i`; entries without a discovery key have no probe and
    /// are never evicted.
    pub fn evict(&mut self, alive: &Vec<bool>)
        requires
            old(self).wf(),
            alive@.len() == old(self).snap().len(),
        ensures
            final(self).wf(),
            final(self).snap() == spec_evict(old(self).snap(), alive@),
    {
        let ghost old_snap = self.snap();
        let n = self.entries.len();
        let mut kept: Vec<BoardEntry> = Vec::new();
        let mut i: usize = 0;
        proof {
            assert(old_snap.skip(0) =~= old_snap);
            assert(alive@.skip(0) =~= alive@);
            assert(view_entries(kept@) =~= Seq::<EntrySnap>::empty());
            assert(Seq::<EntrySnap>::empty() + spec_evict(old_snap, alive@) =~= spec_evict(
                old_snap,
                alive@,
            ));
        }
        while i < n
            invariant
                i <= n,
                n == self.entries@.len(),
                self.snap() == old_snap,
                alive@.len() == old_snap.len(),
                spec_entries_wf(old_snap),
                spec_evict(old_snap, alive@) == view_entries(kept@) + spec_evict(
                    old_snap.skip(i as int),
                    alive@.skip(i as int),
                ),
                spec_entries_wf(view_entries(kept@)),
                forall|k: int| #![trigger view_entries(kept@)[k]]
                    0 <= k < kept@.len() ==> exists|i0: int|
                        0 <= i0 < i && view_entries(kept@)[k] == #[trigger] old_snap[i0],
            decreases n - i,
        {
            let keep = self.entries[i].key.is_none() || alive[i];
            proof {
                assert(old_snap.skip(i as int)[0] == old_snap[i as int]);
                assert(old_snap[i as int] == view_entry(self.entries@[i as int]));
                assert(alive@.skip(i as int)[0] == alive@[i as int]);
                assert(old_snap.skip(i as int).drop_first() =~= old_snap.skip(i + 1));
                assert(alive@.skip(i as int).drop_first() =~= alive@.skip(i + 1));
            }
            if keep {
                let e = take_entry(&self.entries, i);
                let ghost prev = kept@;
                kept.push(e);
                proof {
                    assert(view_entries(kept@) =~= view_entries(prev).push(old_snap[i as int]));
                    assert(view_entries(prev).push(old_snap[i as int]) + spec_evict(
                        old_snap.skip(i + 1),
                        alive@.skip(i + 1),
                    ) =~= view_entries(prev) + (seq![old_snap[i as int]] + spec_evict(
                        old_snap.skip(i + 1),
                        alive@.skip(i + 1),
                    )));
                    assert forall|k: int| #![trigger view_entries(kept@)[k]]
                        0 <= k < kept@.len() implies exists|i0: int|
                        0 <= i0 < i + 1 && view_entries(kept@)[k] == #[trigger] old_snap[i0] by {
                        if k < prev.len() {
                            assert(view_entries(kept@)[k] == view_entries(prev)[k]);
                            let w = choose|i0: int|
                                0 <= i0 < i && view_entries(prev)[k] == #[trigger] old_snap[i0];
                            assert(view_entries(kept@)[k] == old_snap[w]);
                        } else {
                            assert(view_entries(kept@)[k] == old_snap[i as int]);
                        }
                    }
                    // The new entry clashes with no kept one: each kept
                    // entry is some earlier table entry, and the table's
                    // identifiers and keys are pairwise distinct.
                    let ks = view_entries(kept@);
                    assert forall|k1: int, k2: int|
                        0 <= k1 < ks.len() && 0 <= k2 < ks.len() && k1 != k2 implies (
                    #[trigger] ks[k1]).id != (#[trigger] ks[k2]).id && !(ks[k1].key is Some
                        && ks[k1].key == ks[k2].key) by {
                        let w1 = choose|i0: int|
                            0 <= i0 < i + 1 && ks[k1] == #[trigger] old_snap[i0];
                        let w2 = choose|i0: int|
                            0 <= i0 < i + 1 && ks[k2] == #[trigger] old_snap[i0];
                        if k1 < prev.len() && k2 < prev.len() {
                            assert(ks[k1] == view_entries(prev)[k1]);
                            assert(ks[k2] == view_entries(prev)[k2]);
                        } else {
                            if k1 < prev.len() {
                                let u = choose|i0: int|
                                    0 <= i0 < i && view_entries(prev)[k1]
                                        == #[trigger] old_snap[i0];
                                assert(ks[k1] == old_snap[u]);
                                assert(ks[k2] == old_snap[i as int]);
                                assert(u != i);
                            } else {
                                assert(ks[k1] == old_snap[i as int]);
                                let u = choose|i0: int|
                                    0 <= i0 < i && view_entries(prev)[k2]
                                        == #[trigger] old_snap[i0];
                                assert(ks[k2] == old_snap[u]);
                                assert(u != i);
                            }
                        }
                    }
                }
            }
            i = i + 1;
        }
        proof {
            assert(old_snap.skip(n as int) =~= Seq::<EntrySnap>::empty());
            assert(alive@.skip(n as int) =~= Seq::<bool>::empty());
            assert(spec_evict(Seq::empty(), Seq::empty()) =~= Seq::<EntrySnap>::empty());
            assert(view_entries(kept@) + Seq::<EntrySnap>::empty() =~= view_entries(kept@));
        }
        self.entries = kept;
    }

    /// The discovery pass of `refresh`: for each enumerated candidate, in
    /// order, its discovery key, whether opening and initializing it
    /// succeeded, and the fresh identifier to register it under.  A
    /// candidate already live under its key is skipped, never
    /// re-registered; a failed open skips that candidate alone.
    pub fn discover(&mut self, keys: &Vec<Vec<u8>>, opened: &Vec<bool>, new_ids: &Vec<BoardId>)
        requires
            old(self).wf(),
            opened@.len() == keys@.len(),
            new_ids@.len() == keys@.len(),
        ensures
            final(self).wf(),
            final(self).snap() == spec_discover(
                old(self).snap(),
                spec_key_views(keys@),
                opened@,
                new_ids@,
            ),
    {
        let n = keys.len();
        let mut i: usize = 0;
        proof {
            assert(spec_key_views(keys@).skip(0) =~= spec_key_views(keys@));
            assert(opened@.skip(0) =~= opened@);
            assert(new_ids@.skip(0) =~= new_ids@);
        }
        while i < n
            invariant
                i <= n,
                n == keys@.len(),
                opened@.len() == n,
                new_ids@.len() == n,
                self.wf(),
                spec_discover(old(self).snap(), spec_key_views(keys@), opened@, new_ids@)
                    == spec_discover(
                    self.snap(),
                    spec_key_views(keys@).skip(i as int),
                    opened@.skip(i as int),
                    new_ids@.skip(i as int),
                ),
            decreases n - i,
        {
            proof {
                assert(spec_key_views(keys@)[i as int] == keys@[i as int]@);
                assert(spec_key_views(keys@).skip(i as int)[0] == keys@[i as int]@);
                assert(spec_key_views(keys@).skip(i as int).drop_first() =~= spec_key_views(
                    keys@,
                ).skip(i + 1));
                assert(opened@.skip(i as int).drop_first() =~= opened@.skip(i + 1));
                assert(new_ids@.skip(i as int).drop_first() =~= new_ids@.skip(i + 1));
            }
            if opened[i] {
                let key = copy_bytes(&keys[i]);
                self.register(new_ids[i], Some(key));
            }
            i = i + 1;
        }
        proof {
            assert(spec_key_views(keys@).skip(n as int) =~= Seq::<Seq<u8>>::empty());
        }
    }

    /// One full reconciliation, as the `refresh` operation performs it:
    /// the eviction pass over the probe outcomes, then the discovery pass
    /// over the enumerated candidates.
    pub fn refresh(
        &mut self,
        alive: &Vec<bool>,
        keys: &Vec<Vec<u8>>,
        opened: &Vec<bool>,
        new_ids: &Vec<BoardId>,
    )
        requires
            old(self).wf(),
            alive@.len() == old(self).snap().len(),
            opened@.len() == keys@.len(),
            new_ids@.len() == keys@.len(),
        ensures
            final(self).wf(),
            final(self).snap() == spec_discover(
                spec_evict(old(self).snap(), alive@),
                spec_key_views(keys@),
                opened@,
                new_ids@,
            ),
    {
        self.evict(alive);
        self.discover(keys, opened, new_ids);
    }
}

/// When every probe finds its device alive, the eviction pass removes
/// nothing.
pub proof fn lemma_evict_all_alive(es: Seq<EntrySnap>, alive: Seq<bool>)
    requires
        alive.len() == es.len(),
        forall|i: int| 0 <= i < alive.len() ==> alive[i],
    ensures
        spec_evict(es, alive) == es,
    decreases es.len(),
{
    if es.len() == 0 {
        assert(spec_evict(es, alive) =~= es);
    } else {
        assert(alive[0]);
        assert forall|i: int| 0 <= i < alive.drop_first().len() implies alive.drop_first()[i] by {
            assert(alive.drop_first()[i] == alive[i + 1]);
        }
        lemma_evict_all_alive(es.drop_first(), alive.drop_first());
        assert(seq![es[0]] + es.drop_first() =~= es);
    }
}

/// When every enumerated candidate's key already names a live entry, the
/// discovery pass registers nothing: an already-known physical device never
/// gets a second identifier.
pub proof fn lemma_discover_all_known(
    es: Seq<EntrySnap>,
    keys: Seq<Seq<u8>>,
    opened: Seq<bool>,
    ids: Seq<BoardId>,
)
    requires
        opened.len() == keys.len(),
        ids.len() == keys.len(),
        forall|j: int| 0 <= j < keys.len() ==> spec_has_key(es, #[trigger] keys[j]),
    ensures
        spec_discover(es, keys, opened, ids) == es,
    decreases keys.len(),
{
    if keys.len() > 0 {
        assert(spec_has_key(es, keys[0]));
        assert forall|j: int| 0 <= j < keys.drop_first().len() implies spec_has_key(
            es,
            #[trigger] keys.drop_first()[j],
        ) by {
            assert(keys.drop_first()[j] == keys[j + 1]);
        }
        lemma_discover_all_known(es, keys.drop_first(), opened.drop_first(), ids.drop_first());
    }
}

/// Law: reconciliation is idempotent.  With no physical change — every
/// probe alive, every enumerated candidate already live under its key —
/// `refresh` leaves the table exactly as it was: same identifiers, same
/// count.
pub proof fn lemma_refresh_idempotent(
    es: Seq<EntrySnap>,
    alive: Seq<bool>,
    keys: Seq<Seq<u8>>,
    opened: Seq<bool>,
    ids: Seq<BoardId>,
)
    requires
        alive.len() == es.len(),
        forall|i: int| 0 <= i < alive.len() ==> alive[i],
        opened.len() == keys.len(),
        ids.len() == keys.len(),
        forall|j: int| 0 <= j < keys.len() ==> spec_has_key(es, #[trigger] keys[j]),
    ensures
        spec_discover(spec_evict(es, alive), keys, opened, ids) == es,
{
    lemma_evict_all_alive(es, alive);
    lemma_discover_all_known(es, keys, opened, ids);
}

/// The discovery pass only appends: every entry that went in comes out at
/// its position, untouched.
pub proof fn lemma_discover_prefix(
    es: Seq<EntrySnap>,
    keys: Seq<Seq<u8>>,
    opened: Seq<bool>,
    ids: Seq<BoardId>,
)
    ensures
        spec_discover(es, keys, opened, ids).len() >= es.len(),
        forall|i: int|
            0 <= i < es.len() ==> spec_discover(es, keys, opened, ids)[i] == #[trigger] es[i],
    decreases keys.len(),
{
    if keys.len() > 0 {
        let es1 = if opened[0] && !spec_has_key(es, keys[0]) && !spec_has_id(es, ids[0]) {
            es.push(EntrySnap { id: ids[0], key: Some(keys[0]) })
        } else {
            es
        };
        lemma_discover_prefix(es1, keys.drop_first(), opened.drop_first(), ids.drop_first());
        assert forall|i: int| 0 <= i < es.len() implies spec_discover(es, keys, opened, ids)[i]
            == #[trigger] es[i] by {
            assert(spec_discover(es, keys, opened, ids) == spec_discover(
                es1,
                keys.drop_first(),
                opened.drop_first(),
                ids.drop_first(),
            ));
            assert(spec_discover(es1, keys.drop_first(), opened.drop_first(), ids.drop_first())[i]
                == es1[i]);
            assert(es1[i] == es[i]);
        }
    }
}

/// The discovery pass preserves well-formedness: it registers nothing
/// whose identifier or key is already live.
pub proof fn lemma_discover_wf(
    es: Seq<EntrySnap>,
    keys: Seq<Seq<u8>>,
    opened: Seq<bool>,
    ids: Seq<BoardId>,
)
    requires
        spec_entries_wf(es),
    ensures
        spec_entries_wf(spec_discover(es, keys, opened, ids)),
    decreases keys.len(),
{
    if keys.len() > 0 {
        let es1 = if opened[0] && !spec_has_key(es, keys[0]) && !spec_has_id(es, ids[0]) {
            es.push(EntrySnap { id: ids[0], key: Some(keys[0]) })
        } else {
            es
        };
        assert(spec_entries_wf(es1)) by {
            if opened[0] && !spec_has_key(es, keys[0]) && !spec_has_id(es, ids[0]) {
                assert forall|i: int, j: int|
                    0 <= i < es1.len() && 0 <= j < es1.len() && i != j implies (
                #[trigger] es1[i]).id != (#[trigger] es1[j]).id && !(es1[i].key is Some
                    && es1[i].key == es1[j].key) by {
                    if i < es.len() && j < es.len() {
                        assert(es1[i] == es[i] && es1[j] == es[j]);
                    } else if i < es.len() {
                        assert(es1[i] == es[i] && es1[j] == (EntrySnap {
                            id: ids[0],
                            key: Some(keys[0]),
                        }));
                    } else {
                        assert(es1[j] == es[j] && es1[i] == (EntrySnap {
                            id: ids[0],
                            key: Some(keys[0]),
                        }));
                    }
                }
            }
        }
        lemma_discover_wf(es1, keys.drop_first(), opened.drop_first(), ids.drop_first());
    }
}

/// Law: a device present across consecutive enumerations never produces a
/// second identifier.  An entry that is live going into the discovery pass
/// comes out unchanged, and any entry of the result that carries its
/// discovery key is that very entry — same position, same identifier.
pub proof fn lemma_known_device_keeps_identifier(
    es: Seq<EntrySnap>,
    keys: Seq<Seq<u8>>,
    opened: Seq<bool>,
    ids: Seq<BoardId>,
    i: int,
    j: int,
)
    requires
        spec_entries_wf(es),
        0 <= i < es.len(),
        es[i].key is Some,
        0 <= j < spec_discover(es, keys, opened, ids).len(),
        spec_discover(es, keys, opened, ids)[j].key == es[i].key,
    ensures
        spec_discover(es, keys, opened, ids)[i] == es[i],
        j == i,
        spec_discover(es, keys, opened, ids)[j].id == es[i].id,
{
    lemma_discover_prefix(es, keys, opened, ids);
    lemma_discover_wf(es, keys, opened, ids);
    let out = spec_discover(es, keys, opened, ids);
    if j != i {
        assert(out[i].id != out[j].id && !(out[i].key is Some && out[i].key == out[j].key));
    }
}

/// Law: one discovery key, one board.  In a well-formed table — and every
/// table this module builds is one — two entries that share a discovery
/// key are the same entry, so a device present across enumerations keeps
/// its single identifier and never receives a second one.
pub proof fn lemma_one_id_per_key(es: Seq<EntrySnap>, i: int, j: int)
    requires
        spec_entries_wf(es),
        0 <= i < es.len(),
        0 <= j < es.len(),
        es[i].key is Some,
        es[i].key == es[j].key,
    ensures
        i == j,
        es[i].id == es[j].id,
{
}

/// Read one entry out of the table by position, copying its key bytes.
fn take_entry(es: &Vec<BoardEntry>, i: usize) -> (e: BoardEntry)
    requires
        i < es@.len(),
    ensures
        view_entry(e) == view_entry(es@[i as int]),
{
    let src = &es[i];
    let key = match &src.key {
        Some(k) => Some(copy_bytes(k)),
        None => None,
    };
    BoardEntry { id: src.id, key }
}

/// Whether two byte strings hold the same bytes.
pub fn bytes_eq(a: &Vec<u8>, b: &Vec<u8>) -> (r: bool)
    ensures
        r == (a@ == b@),
{
    if a.len() != b.len() {
        proof {
            assert(a@.len() != b@.len());
        }
        return false;
    }
    let mut i: usize = 0;
    while i < a.len()
        invariant
            i <= a@.len(),
            a@.len() == b@.len(),
            forall|j: int| 0 <= j < i ==> a@[j] == b@[j],
        decreases a@.len() - i,
    {
        if a[i] != b[i] {
            return false;
        }
        i = i + 1;
    }
    proof {
        assert(a@ =~= b@);
    }
    true
}

/// Copy a byte string.
pub fn copy_bytes(v: &Vec<u8>) -> (out: Vec<u8>)
    ensures
        out@ == v@,
{
    let mut out: Vec<u8> = Vec::new();
    let mut i: usize = 0;
    while i < v.len()
        invariant
            i <= v@.len(),
            out@ =~= v@.take(i as int),
        decreases v@.len() - i,
    {
        out.push(v[i]);
        proof {
            assert(v@.take(i + 1) =~= v@.take(i as int).push(v@[i as int]));
        }
        i = i + 1;
    }
    proof {
        assert(v@.take(v@.len() as int) =~= v@);
    }
    out
}

/// Relies on `uuid::Uuid::new_v4`: a freshly generated random 128-bit
/// identifier, used to name a newly recognized board for this session.
/// Nothing is promised of the value; the registry itself refuses a
/// duplicate.
#[verifier::external_body]
pub fn fresh_board_id() -> BoardId {
    BoardId(uuid::Uuid::new_v4().as_u128())
}

} // verus!
