//! The dedup persister: the archival-candidate table, modelled as a set
//! of `(url, origin table, origin id)` tuples with conflict-tolerant
//! insert semantics. The backing database table carries the same
//! uniqueness constraint; the caller that owns the real table drives it
//! with the save plan the orchestrator produces.

use vstd::prelude::*;

verus! {

/// The provenance of a candidate URL: which change-log table its row
/// came from.
#[derive(Clone, Copy, PartialEq, Eq, Structural, Debug)]
pub enum OriginTable {
    EditData,
    EditNote,
}

impl OriginTable {
    /// The name of the origin table, as the candidate row records it.
    pub fn table_name(&self) -> (r: &'static str)
        ensures
            *self is EditData ==> r@ == "edit_data"@,
            *self is EditNote ==> r@ == "edit_note"@,
    {
        match self {
            OriginTable::EditData => "edit_data",
            OriginTable::EditNote => "edit_note",
        }
    }
}

/// One archival-candidate record: a URL together with its origin.
pub struct Candidate {
    pub url: String,
    pub origin_table: OriginTable,
    pub origin_id: i32,
}

impl Candidate {
    /// The dedup key of the record: the full `(url, origin table,
    /// origin id)` tuple.
    pub open spec fn dedup_key(self) -> (Seq<char>, OriginTable, int) {
        (self.url@, self.origin_table, self.origin_id as int)
    }
}

/// The archival-candidate table. The tuple `(url, origin_table,
/// origin_id)` is unique: persisting a duplicate is a no-op, not an
/// error.
pub struct CandidateStore {
    rows: Vec<Candidate>,
}

impl CandidateStore {
    /// The set of dedup keys stored.
    pub closed spec fn contents(self) -> Set<(Seq<char>, OriginTable, int)> {
        self.rows@.map_values(|c: Candidate| c.dedup_key()).to_set()
    }

    /// Well-formed: no two stored rows share a dedup key.
    pub closed spec fn wf(self) -> bool {
        self.rows@.map_values(|c: Candidate| c.dedup_key()).no_duplicates()
    }

    /// An empty store.
    pub fn new() -> (s: Self)
        ensures
            s.wf(),
            s.contents() == Set::<(Seq<char>, OriginTable, int)>::empty(),
    {
        let s = CandidateStore { rows: Vec::new() };
        proof {
            assert(s.contents() =~= Set::<(Seq<char>, OriginTable, int)>::empty());
        }
        s
    }

    /// How many rows are stored: one per distinct dedup key.
    pub fn stored_count(&self) -> (n: usize)
        requires
            self.wf(),
        ensures
            n == self.contents().len(),
    {
        proof {
            self.rows@.map_values(|c: Candidate| c.dedup_key()).unique_seq_to_set();
        }
        self.rows.len()
    }

    /// Whether a record with this dedup key is stored.
    pub fn saved(&self, url: &String, origin_table: OriginTable, origin_id: i32) -> (r: bool)
        ensures
            r == self.contents().contains((url@, origin_table, origin_id as int)),
    {
        let ghost keys = self.rows@.map_values(|c: Candidate| c.dedup_key());
        let ghost k = (url@, origin_table, origin_id as int);
        let mut i: usize = 0;
        while i < self.rows.len()
            invariant
                i <= self.rows.len(),
                keys == self.rows@.map_values(|c: Candidate| c.dedup_key()),
                k == (url@, origin_table, origin_id as int),
                forall|q: int| 0 <= q < i ==> keys[q] != k,
        decreases self.rows.len() - i,
        {
            proof {
                assert(keys[i as int] == self.rows@[i as int].dedup_key());
            }
            let row = &self.rows[i];
            if row.url == *url && row.origin_table == origin_table && row.origin_id == origin_id {
                proof {
                    assert(row.url@ == url@);
                    assert(row.origin_table == origin_table);
                    assert(row.origin_id == origin_id);
                    assert(row.dedup_key() =~~= k);
                    assert(keys[i as int] == k);
                    assert(keys.contains(k));
                }
                return true;
            }
            i += 1;
        }
        proof {
            assert forall|q: int| 0 <= q < keys.len() implies #[trigger] keys[q] != k by {}
            assert(!keys.contains(k));
        }
        false
    }

    /// Persists one candidate unless an equal record is already stored.
    /// Reports whether a new row was written; a duplicate is reported as
    /// `false`, never as an error.
    pub fn save(&mut self, url: &String, origin_table: OriginTable, origin_id: i32) -> (inserted:
        bool)
        requires
            old(self).wf(),
        ensures
            final(self).wf(),
            inserted == !old(self).contents().contains((url@, origin_table, origin_id as int)),
            final(self).contents() == old(self).contents().insert(
                (url@, origin_table, origin_id as int),
            ),
            final(self).contents().len() == if inserted {
                old(self).contents().len() + 1
            } else {
                old(self).contents().len()
            },
    {
        let ghost k = (url@, origin_table, origin_id as int);
        let ghost keys0 = self.rows@.map_values(|c: Candidate| c.dedup_key());
        if self.saved(url, origin_table, origin_id) {
            proof {
                assert(old(self).contents().insert(k) =~= old(self).contents());
            }
            false
        } else {
            let cand = Candidate { url: url.clone(), origin_table, origin_id };
            self.rows.push(cand);
            proof {
                let keys1 = self.rows@.map_values(|c: Candidate| c.dedup_key());
                assert(keys1 =~= keys0.push(k));
                assert forall|a: int, b: int| 0 <= a < b < keys1.len() implies keys1[a]
                    != keys1[b] by {
                    if b < keys0.len() {
                    } else {
                        assert(keys1[b] == k);
                        assert(keys1[a] == keys0[a]);
                        assert(keys0.contains(keys0[a]));
                    }
                }
                assert forall|x: (Seq<char>, OriginTable, int)| keys1.contains(x) implies
                    keys0.contains(x) || x == k by {
                    let q = choose|q: int| 0 <= q < keys1.len() && keys1[q] == x;
                    if q < keys0.len() {
                        assert(keys0[q] == x);
                    }
                }
                assert forall|x: (Seq<char>, OriginTable, int)| keys0.contains(x) implies
                    keys1.contains(x) by {
                    let q = choose|q: int| 0 <= q < keys0.len() && keys0[q] == x;
                    assert(keys1[q] == x);
                }
                assert(keys1[keys1.len() - 1] == k);
                assert(keys1.contains(k));
                assert(final(self).contents() =~= old(self).contents().insert(k));
                keys0.unique_seq_to_set();
                keys1.unique_seq_to_set();
            }
            true
        }
    }
    /// Applies a whole save plan to the store, skipping the candidates
    /// whose save failed. `failed[i]` reports whether the save of
    /// `saves[i]` failed; a failure is scoped to its own candidate and
    /// never aborts the rest of the plan.
    pub fn save_all(&mut self, saves: &Vec<Candidate>, failed: &Vec<bool>)
        requires
            old(self).wf(),
            saves@.len() == failed@.len(),
        ensures
            final(self).wf(),
            final(self).contents() == applied_keys(old(self).contents(), saves@, failed@),
    {
        let mut i: usize = 0;
        proof {
            assert(saves@.take(0) =~= Seq::<Candidate>::empty());
            assert(failed@.take(0) =~= Seq::<bool>::empty());
        }
        while i < saves.len()
            invariant
                i <= saves.len(),
                saves@.len() == failed@.len(),
                self.wf(),
                self.contents() == applied_keys(
                    old(self).contents(),
                    saves@.take(i as int),
                    failed@.take(i as int),
                ),
            decreases saves.len() - i,
        {
            let ghost pre = self.contents();
            if !failed[i] {
                let cand = &saves[i];
                self.save(&cand.url, cand.origin_table, cand.origin_id);
                proof {
                    assert(self.contents() =~= pre.insert(saves@[i as int].dedup_key()));
                }
            }
            proof {
                let s1 = saves@.take(i as int + 1);
                let f1 = failed@.take(i as int + 1);
                assert(s1.drop_last() =~= saves@.take(i as int));
                assert(f1.drop_last() =~= failed@.take(i as int));
                assert(s1.last() == saves@[i as int]);
                assert(f1.last() == failed@[i as int]);
            }
            i += 1;
        }
        proof {
            assert(saves@.take(saves@.len() as int) =~= saves@);
            assert(failed@.take(failed@.len() as int) =~= failed@);
        }
    }
}

/// The store contents after a sequence of save requests was applied, of
/// which the ones marked in `failed` did not go through.
pub open spec fn applied_keys(
    c: Set<(Seq<char>, OriginTable, int)>,
    saves: Seq<Candidate>,
    failed: Seq<bool>,
) -> Set<(Seq<char>, OriginTable, int)>
    decreases saves.len(),
{
    if saves.len() == 0 {
        c
    } else {
        let prev = applied_keys(c, saves.drop_last(), failed.drop_last());
        if failed.len() > 0 && failed.last() {
            prev
        } else {
            prev.insert(saves.last().dedup_key())
        }
    }
}

/// Law (idempotence of dedup): saving a candidate that is not yet stored
/// writes exactly one row; saving the same candidate again finds it
/// stored, is reported as a conflict, and stores nothing new.
pub proof fn lemma_dedup_idempotent(
    c: Set<(Seq<char>, OriginTable, int)>,
    k: (Seq<char>, OriginTable, int),
)
    requires
        c.finite(),
        !c.contains(k),
    ensures
        c.insert(k).len() == c.len() + 1,
        c.insert(k).contains(k),
        c.insert(k).insert(k) == c.insert(k),
{
    assert(c.insert(k).insert(k) =~= c.insert(k));
}

/// Law (independent failure containment): after a save plan is applied,
/// every candidate whose own save did not fail is stored, whatever
/// happened to its siblings.
pub proof fn lemma_failure_containment(
    c: Set<(Seq<char>, OriginTable, int)>,
    saves: Seq<Candidate>,
    failed: Seq<bool>,
    i: int,
)
    requires
        saves.len() == failed.len(),
        0 <= i < saves.len(),
        !failed[i],
    ensures
        applied_keys(c, saves, failed).contains(saves[i].dedup_key()),
    decreases saves.len(),
{
    let prev = applied_keys(c, saves.drop_last(), failed.drop_last());
    if i == saves.len() - 1 {
        assert(applied_keys(c, saves, failed) == prev.insert(saves.last().dedup_key()));
    } else {
        lemma_failure_containment(c, saves.drop_last(), failed.drop_last(), i);
        assert(saves.drop_last()[i] == saves[i]);
        assert(failed.drop_last()[i] == failed[i]);
    }
}

} // verus!
