//! The exclusive-access paste store: a record collection keyed by `id`
//! that owns identifier uniqueness and the read policy.
//!
//! Every operation preserves the store invariant that no two live records
//! share an identifier. `read` applies the whole read policy in one call,
//! so a caller that serializes calls (the store sits behind one lock)
//! gets the check-increment-maybe-delete sequence atomically.

use vstd::prelude::*;
use crate::pasta::{Pasta, PastaFile, PastaKind};

verus! {

/// Some record in `s` carries identifier `id`.
pub open spec fn has_id(s: Seq<Pasta>, id: u64) -> bool {
    exists|i: int| 0 <= i < s.len() && s[i].id == id
}

/// No two records of `s` share an identifier.
pub open spec fn unique_ids(s: Seq<Pasta>) -> bool {
    forall|i: int, j: int| 0 <= i < j < s.len() ==> s[i].id != s[j].id
}

/// Position of the record with identifier `id`; meaningful only when
/// `has_id(s, id)`, and then unique because identifiers are unique.
pub open spec fn idx_of(s: Seq<Pasta>, id: u64) -> int {
    choose|i: int| 0 <= i < s.len() && s[i].id == id
}

/// A record is expired at `now` when it has an expiry and it has passed.
pub open spec fn is_expired(p: Pasta, now: u64) -> bool {
    p.expiration != 0 && p.expiration <= now
}

/// The record after one successful read: the read counter advances and
/// the last-read stamp moves to `now`.
pub open spec fn after_read(p: Pasta, now: u64) -> Pasta {
    Pasta {
        read_count: if p.read_count < u64::MAX {
            (p.read_count + 1) as u64
        } else {
            u64::MAX
        },
        last_read: now,
        ..p
    }
}

/// Whether the burn-after-read countdown is exhausted: enabled, and the
/// record has now served all the reads it was given.
pub open spec fn burned_out(p: Pasta) -> bool {
    p.burn_after_reads > 0 && p.read_count >= p.burn_after_reads
}

/// Idle cutoff of a sweep: stamps older than this are reclaimed.
pub open spec fn sweep_cutoff(now: u64, gc_days: u16) -> u64 {
    if now >= gc_days * 86400 {
        (now - gc_days * 86400) as u64
    } else {
        0
    }
}

/// What one read returns.
pub enum ReadOutcome {
    /// No live record carries the identifier.
    NotFound,
    /// The record's expiry had passed: it was removed unserved. The
    /// removed record is handed back so its attachment can be deleted.
    Expired { removed: Pasta },
    /// The record was served, in its post-read state. When `burned` it
    /// was removed right after this, its last granted read.
    Served { pasta: Pasta, burned: bool },
}

/// The record collection. Field access stays inside this module; all
/// mutation goes through the contracted operations.
pub struct PastaStore {
    pastas: Vec<Pasta>,
}

impl PastaStore {
    /// The live records, oldest insertion first.
    pub closed spec fn view(&self) -> Seq<Pasta> {
        self.pastas@
    }

    /// Store invariant: live identifiers never repeat.
    pub open spec fn wf(&self) -> bool {
        unique_ids(self@)
    }

    /// An empty store, as a startup with no persisted state begins.
    pub fn new() -> (s: PastaStore)
        ensures
            s@ == Seq::<Pasta>::empty(),
            s.wf(),
    {
        PastaStore { pastas: Vec::new() }
    }

    /// Builds a store from reloaded records, refusing a collection that
    /// repeats an identifier.
    pub fn from_records(pastas: Vec<Pasta>) -> (r: Option<PastaStore>)
        ensures
            r matches Some(s) ==> s@ == pastas@ && s.wf(),
            r is None ==> !unique_ids(pastas@),
    {
        let mut i: usize = 0;
        while i < pastas.len()
            invariant
                0 <= i <= pastas@.len(),
                forall|p: int, q: int| 0 <= p < q < i ==> pastas@[p].id != pastas@[q].id,
            decreases pastas.len() - i,
        {
            let mut j: usize = 0;
            while j < i
                invariant
                    0 <= j <= i < pastas@.len(),
                    forall|p: int, q: int| 0 <= p < q < i ==> pastas@[p].id != pastas@[q].id,
                    forall|p: int| 0 <= p < j ==> pastas@[p].id != pastas@[i as int].id,
                decreases i - j,
            {
                if pastas[j].id == pastas[i].id {
                    return None;
                }
                j += 1;
            }
            i += 1;
        }
        Some(PastaStore { pastas })
    }

    /// Number of live records.
    pub fn len(&self) -> (n: usize)
        ensures
            n == self@.len(),
    {
        self.pastas.len()
    }

    /// Hands out the records for persistence or listing snapshots.
    pub fn records(&self) -> (r: &Vec<Pasta>)
        ensures
            r@ == self@,
    {
        &self.pastas
    }

    /// Position of the live record with this identifier, if any.
    fn find(&self, id: u64) -> (r: Option<usize>)
        requires
            self.wf(),
        ensures
            r matches Some(i) ==> i < self@.len() && self@[i as int].id == id
                && i as int == idx_of(self@, id) && has_id(self@, id),
            r is None ==> !has_id(self@, id),
    {
        let mut i: usize = 0;
        while i < self.pastas.len()
            invariant
                self.wf(),
                0 <= i <= self@.len(),
                forall|k: int| 0 <= k < i ==> self@[k].id != id,
            decreases self.pastas.len() - i,
        {
            if self.pastas[i].id == id {
                proof {
                    assert(has_id(self@, id));
                    let j = idx_of(self@, id);
                    assert(0 <= j < self@.len() && self@[j].id == id);
                    if j != i as int {
                        assert(false);
                    }
                }
                return Some(i);
            }
            i += 1;
        }
        None
    }

    /// Read-only lookup without side effects.
    pub fn get(&self, id: u64) -> (r: Option<&Pasta>)
        requires
            self.wf(),
        ensures
            r matches Some(p) ==> has_id(self@, id) && *p == self@[idx_of(self@, id)]
                && p.id == id,
            r is None ==> !has_id(self@, id),
    {
        match self.find(id) {
            Some(i) => Some(&self.pastas[i]),
            None => None,
        }
    }

    /// Inserts a record whose identifier is not yet live; refuses one
    /// that is, leaving the store unchanged.
    pub fn insert(&mut self, p: Pasta) -> (ok: bool)
        requires
            old(self).wf(),
        ensures
            final(self).wf(),
            ok == !has_id(old(self)@, p.id),
            ok ==> final(self)@ == old(self)@.push(p),
            !ok ==> final(self)@ == old(self)@,
    {
        match self.find(p.id) {
            Some(_) => false,
            None => {
                let ghost pre = self@;
                self.pastas.push(p);
                proof {
                    assert forall|i: int, j: int| 0 <= i < j < self@.len() implies
                        self@[i].id != self@[j].id by {
                        if j < pre.len() {
                        } else {
                            assert(self@[j] == p);
                            assert(!has_id(pre, p.id));
                            assert(self@[i] == pre[i]);
                        }
                    }
                }
                true
            },
        }
    }

    /// Removes the record with this identifier, handing it back for
    /// attachment cleanup. Deleting an absent identifier is a no-op.
    pub fn delete(&mut self, id: u64) -> (r: Option<Pasta>)
        requires
            old(self).wf(),
        ensures
            final(self).wf(),
            r is None ==> !has_id(old(self)@, id) && final(self)@ == old(self)@,
            r matches Some(p) ==> has_id(old(self)@, id)
                && p == old(self)@[idx_of(old(self)@, id)]
                && final(self)@ == old(self)@.remove(idx_of(old(self)@, id)),
    {
        match self.find(id) {
            Some(i) => {
                let ghost pre = self@;
                let p = self.pastas.remove(i);
                proof {
                    lemma_unique_remove(pre, i as int);
                }
                Some(p)
            },
            None => None,
        }
    }

    /// Serves one read under the full read policy: an expired record is
    /// removed instead of served; otherwise the read is counted, the
    /// last-read stamp refreshed, and a record whose burn-after-read
    /// countdown just ran out is removed after this final serve.
    pub fn read(&mut self, id: u64, now: u64) -> (r: ReadOutcome)
        requires
            old(self).wf(),
        ensures
            final(self).wf(),
            !has_id(old(self)@, id) ==> r == ReadOutcome::NotFound
                && final(self)@ == old(self)@,
            has_id(old(self)@, id) ==> ({
                let i = idx_of(old(self)@, id);
                let p = old(self)@[i];
                let q = after_read(p, now);
                if is_expired(p, now) {
                    r == (ReadOutcome::Expired { removed: p })
                        && final(self)@ == old(self)@.remove(i)
                } else if burned_out(q) {
                    r == (ReadOutcome::Served { pasta: q, burned: true })
                        && final(self)@ == old(self)@.remove(i)
                } else {
                    r == (ReadOutcome::Served { pasta: q, burned: false })
                        && final(self)@ == old(self)@.update(i, q)
                }
            }),
    {
        let i = match self.find(id) {
            Some(i) => i,
            None => {
                return ReadOutcome::NotFound;
            },
        };
        let ghost pre = self@;
        let now_expired = {
            let p = &self.pastas[i];
            p.expiration != 0 && p.expiration <= now
        };
        if now_expired {
            let p = self.pastas.remove(i);
            proof {
                lemma_unique_remove(pre, i as int);
            }
            return ReadOutcome::Expired { removed: p };
        }
        let mut q = self.pastas[i].clone();
        q.read_count = if q.read_count < u64::MAX {
            q.read_count + 1
        } else {
            u64::MAX
        };
        q.last_read = now;
        proof {
            assert(q == after_read(pre[i as int], now));
        }
        if q.burn_after_reads > 0 && q.read_count >= q.burn_after_reads {
            self.pastas.remove(i);
            proof {
                lemma_unique_remove(pre, i as int);
            }
            ReadOutcome::Served { pasta: q, burned: true }
        } else {
            let copy = q.clone();
            self.pastas.set(i, copy);
            proof {
                assert(self@ == pre.update(i as int, q));
                lemma_unique_update(pre, i as int, q);
            }
            ReadOutcome::Served { pasta: q, burned: false }
        }
    }

    /// Hands an attachment's metadata to the live record with this
    /// identifier once its bytes are safely on disk. The body kind
    /// falls back to plain text, as a record with a file is rendered
    /// as text; nothing else of the record changes.
    pub fn attach_file(&mut self, id: u64, f: PastaFile) -> (ok: bool)
        requires
            old(self).wf(),
        ensures
            final(self).wf(),
            ok == has_id(old(self)@, id),
            ok ==> final(self)@ == old(self)@.update(
                idx_of(old(self)@, id),
                (Pasta {
                    file: Some(f),
                    kind: PastaKind::Text,
                    ..old(self)@[idx_of(old(self)@, id)]
                }),
            ),
            !ok ==> final(self)@ == old(self)@,
    {
        match self.find(id) {
            Some(i) => {
                let ghost pre = self@;
                let mut q = self.pastas[i].clone();
                crate::pasta::attach_file(&mut q, f);
                self.pastas.set(i, q);
                proof {
                    lemma_unique_update(pre, i as int, q);
                }
                true
            },
            None => false,
        }
    }

    /// Public listing: the non-private records, in store order.
    pub fn list(&self) -> (r: Vec<Pasta>)
        requires
            self.wf(),
        ensures
            r@ == self@.filter(|p: Pasta| !p.private),
    {
        let ghost pred = |p: Pasta| !p.private;
        let mut r: Vec<Pasta> = Vec::new();
        let mut i: usize = 0;
        while i < self.pastas.len()
            invariant
                0 <= i <= self@.len(),
                r@ == self@.subrange(0, i as int).filter(pred),
                pred == (|p: Pasta| !p.private),
            decreases self.pastas.len() - i,
        {
            let ghost prefix = self@.subrange(0, i as int);
            let ghost prefix1 = self@.subrange(0, i + 1);
            proof {
                assert(prefix1.drop_last() =~= prefix);
                reveal(Seq::filter);
            }
            if !self.pastas[i].private {
                r.push(self.pastas[i].clone());
            }
            i += 1;
        }
        proof {
            assert(self@.subrange(0, self@.len() as int) =~= self@);
        }
        r
    }

    /// One garbage sweep: with collection enabled (`gc_days > 0`) every
    /// record whose last read lies before the idle cutoff is removed and
    /// handed back for attachment cleanup; recently read records stay in
    /// order. With `gc_days == 0` the sweep is disabled and nothing
    /// changes.
    pub fn sweep(&mut self, now: u64, gc_days: u16) -> (removed: Vec<Pasta>)
        requires
            old(self).wf(),
        ensures
            final(self).wf(),
            gc_days == 0 ==> final(self)@ == old(self)@ && removed@ == Seq::<Pasta>::empty(),
            gc_days > 0 ==> ({
                let cutoff = sweep_cutoff(now, gc_days);
                final(self)@ == old(self)@.filter(|p: Pasta| p.last_read >= cutoff)
                    && removed@ == old(self)@.filter(|p: Pasta| p.last_read < cutoff)
            }),
    {
        if gc_days == 0 {
            return Vec::new();
        }
        let seconds: u64 = (gc_days as u64) * 86400;
        let cutoff: u64 = if now >= seconds {
            now - seconds
        } else {
            0
        };
        proof {
            assert(cutoff == sweep_cutoff(now, gc_days));
        }
        let ghost keep = |p: Pasta| p.last_read >= cutoff;
        let ghost drop = |p: Pasta| p.last_read < cutoff;
        let mut kept: Vec<Pasta> = Vec::new();
        let mut removed: Vec<Pasta> = Vec::new();
        let mut i: usize = 0;
        while i < self.pastas.len()
            invariant
                0 <= i <= self@.len(),
                kept@ == self@.subrange(0, i as int).filter(keep),
                removed@ == self@.subrange(0, i as int).filter(drop),
                keep == (|p: Pasta| p.last_read >= cutoff),
                drop == (|p: Pasta| p.last_read < cutoff),
            decreases self.pastas.len() - i,
        {
            let ghost prefix = self@.subrange(0, i as int);
            let ghost prefix1 = self@.subrange(0, i + 1);
            proof {
                assert(prefix1.drop_last() =~= prefix);
                reveal(Seq::filter);
            }
            if self.pastas[i].last_read >= cutoff {
                kept.push(self.pastas[i].clone());
            } else {
                removed.push(self.pastas[i].clone());
            }
            i += 1;
        }
        proof {
            assert(self@.subrange(0, self@.len() as int) =~= self@);
            lemma_filter_keeps_unique(self@, keep);
        }
        self.pastas = kept;
        removed
    }
}

/// Removing a record keeps identifiers unique.
proof fn lemma_unique_remove(s: Seq<Pasta>, i: int)
    requires
        unique_ids(s),
        0 <= i < s.len(),
    ensures
        unique_ids(s.remove(i)),
{
    let t = s.remove(i);
    assert forall|p: int, q: int| 0 <= p < q < t.len() implies t[p].id != t[q].id by {
        let p0 = if p < i {
            p
        } else {
            p + 1
        };
        let q0 = if q < i {
            q
        } else {
            q + 1
        };
        assert(t[p] == s[p0]);
        assert(t[q] == s[q0]);
    }
}

/// Replacing a record by one with the same identifier keeps identifiers
/// unique.
proof fn lemma_unique_update(s: Seq<Pasta>, i: int, q: Pasta)
    requires
        unique_ids(s),
        0 <= i < s.len(),
        q.id == s[i].id,
    ensures
        unique_ids(s.update(i, q)),
{
}

/// Filtering a record sequence keeps identifiers unique, and everything
/// kept was already there.
proof fn lemma_filter_keeps_unique(s: Seq<Pasta>, pred: spec_fn(Pasta) -> bool)
    requires
        unique_ids(s),
    ensures
        unique_ids(s.filter(pred)),
        forall|x: Pasta| #[trigger] s.filter(pred).contains(x) ==> s.contains(x),
    decreases s.len(),
{
    reveal(Seq::filter);
    if s.len() == 0 {
    } else {
        let butlast = s.drop_last();
        assert(unique_ids(butlast));
        lemma_filter_keeps_unique(butlast, pred);
        let f0 = butlast.filter(pred);
        assert forall|x: Pasta| #[trigger] s.filter(pred).contains(x) implies s.contains(x) by {
            if f0.contains(x) {
                assert(butlast.contains(x));
                let w = choose|w: int| 0 <= w < butlast.len() && butlast[w] == x;
                assert(s[w] == x);
            } else {
                assert(pred(s.last()) && x == s.last());
                assert(s[s.len() - 1] == x);
            }
        }
        if pred(s.last()) {
            let f = s.filter(pred);
            assert(f == f0.push(s.last()));
            assert forall|p: int, q: int| 0 <= p < q < f.len() implies f[p].id != f[q].id by {
                if q < f0.len() {
                } else {
                    assert(f[q] == s.last());
                    assert(f0.contains(f[p]));
                    assert(butlast.contains(f[p]));
                    let w = choose|w: int| 0 <= w < butlast.len() && butlast[w] == f[p];
                    assert(s[w].id != s[s.len() - 1].id);
                }
            }
        }
    }
}

/// The one store invariant stated on its own: a well-formed store never
/// holds two live records with the same identifier.
pub proof fn lemma_no_duplicate_ids(s: &PastaStore)
    requires
        s.wf(),
    ensures
        forall|i: int, j: int|
            0 <= i < s@.len() && 0 <= j < s@.len() && i != j ==> s@[i].id != s@[j].id,
{
}

} // verus!
