use crate::error::StoreError;
use crate::registry::{has_key, id_of, keys_distinct, register_spec};
use vstd::prelude::*;

verus! {

/// One reference row: a surrogate identity and the natural-key name under
/// which it was first registered. Entity-specific optional attributes (a
/// player's rating, say) stay at their creation defaults on this write
/// path, which never updates existing rows, so they are not modelled.
pub struct RefRow {
    pub id: u64,
    pub name: String,
}

/// A normalized reference table (players, events or sites): rows are
/// created lazily on first reference, never updated and never deleted, and
/// at most one row ever exists per name.
pub struct RefTable {
    pub rows: Vec<RefRow>,
}

impl RefTable {
    /// The plain view of the table: (identity, name) per row.
    pub open spec fn entries(self) -> Seq<(u64, Seq<char>)> {
        self.rows@.map_values(|r: RefRow| (r.id, r.name@))
    }

    /// Table invariant: names are unique and identities are assigned
    /// densely from one, so an identity never changes once handed out.
    pub open spec fn wf(self) -> bool {
        &&& keys_distinct(self.entries())
        &&& forall|i: int|
            0 <= i < self.rows@.len() ==> (#[trigger] self.rows@[i]).id == i + 1
    }

    pub fn new() -> (t: RefTable)
        ensures
            t.wf(),
            t.entries() == Seq::<(u64, Seq<char>)>::empty(),
    {
        let t = RefTable { rows: Vec::new() };
        proof {
            assert(t.entries() =~= Seq::<(u64, Seq<char>)>::empty());
        }
        t
    }

    fn find_name(rows: &Vec<RefRow>, name: &String) -> (r: Option<usize>)
        ensures
            match r {
                Some(j) => j < rows@.len() && rows@[j as int].name@ == name@,
                None => forall|m: int| 0 <= m < rows@.len() ==> rows@[m].name@ != name@,
            },
    {
        let mut j: usize = 0;
        while j < rows.len()
            invariant
                j <= rows@.len(),
                forall|m: int| 0 <= m < j ==> rows@[m].name@ != name@,
            decreases rows@.len() - j,
        {
            if rows[j].name == *name {
                return Some(j);
            }
            j += 1;
        }
        None
    }

    /// Insert-ignore-then-read: resolves `name` to the identity of its
    /// canonical row, creating that row only when the name is new. Fails —
    /// leaving the table unchanged — only when the store can assign no
    /// further identity.
    pub fn get_or_create(&mut self, name: &String) -> (r: Result<u64, StoreError>)
        requires
            old(self).wf(),
            name@.len() > 0,
        ensures
            final(self).wf(),
            match r {
                Ok(id) => (final(self).entries(), id) == register_spec(
                    old(self).entries(),
                    name@,
                ),
                Err(e) => {
                    &&& *final(self) == *old(self)
                    &&& e == StoreError::StoreFailure
                },
            },
            r is Ok <==> (has_key(old(self).entries(), name@) || old(self).rows@.len()
                < u64::MAX),
    {
        let ghost t0 = self.entries();
        match Self::find_name(&self.rows, name) {
            Some(j) => {
                let id = self.rows[j].id;
                proof {
                    assert(t0[j as int].1 == name@);
                    assert(has_key(t0, name@));
                    let i = choose|i: int| 0 <= i < t0.len() && t0[i].1 == name@;
                    assert(i == j as int);
                    assert(id_of(t0, name@) == id);
                }
                Ok(id)
            },
            None => {
                proof {
                    assert(!has_key(t0, name@)) by {
                        assert(forall|m: int|
                            0 <= m < t0.len() ==> t0[m].1 == self.rows@[m].name@);
                    }
                }
                if self.rows.len() as u64 == u64::MAX {
                    return Err(StoreError::StoreFailure);
                }
                let id = self.rows.len() as u64 + 1;
                let row = RefRow { id, name: name.clone() };
                self.rows.push(row);
                proof {
                    assert(self.entries() =~= t0.push((id, name@)));
                }
                Ok(id)
            },
        }
    }
}

} // verus!
